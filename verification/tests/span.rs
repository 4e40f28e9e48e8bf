use piece_table::ops::DocOp;
use piece_table::span::Ref;

#[test]
fn len_is_second_field() {
    assert_eq!(Ref::Original(3, 4).len(), 4);
    assert_eq!(Ref::Append(0, 0).len(), 0);
}

#[test]
fn split_gives_adjacent_parts() {
    assert_eq!(Ref::Original(3, 4).split(1), (Ref::Original(3, 1), Ref::Original(4, 3)));
    assert_eq!(Ref::Append(2, 5).split(5), (Ref::Append(2, 5), Ref::Append(7, 0)));
    assert_eq!(Ref::Append(2, 5).split(0), (Ref::Append(2, 0), Ref::Append(2, 5)));
}

#[test]
fn skip_and_pop_shrink_from_either_end() {
    assert_eq!(Ref::Original(3, 4).skip(1), Ref::Original(4, 3));
    assert_eq!(Ref::Append(3, 4).skip(4), Ref::Append(7, 0));
    assert_eq!(Ref::Original(3, 4).pop(1), Ref::Original(3, 3));
    assert_eq!(Ref::Append(3, 4).pop(4), Ref::Append(3, 0));
}

#[test]
fn refs_are_equal_by_origin_start_and_length() {
    assert_eq!(Ref::Original(1, 2), Ref::Original(1, 2));
    assert_ne!(Ref::Original(1, 2), Ref::Append(1, 2));
    assert_ne!(Ref::Original(1, 2), Ref::Original(0, 2));
    assert_ne!(Ref::Original(1, 2), Ref::Original(1, 3));
}

#[test]
fn inverse_swaps_insert_and_remove() {
    let r = Ref::Append(1, 2);
    assert_eq!(DocOp::Insert(4, r).inverse(), DocOp::Remove(4, r));
    assert_eq!(DocOp::Remove(4, r).inverse(), DocOp::Insert(4, r));
}

#[test]
fn inverse_swaps_old_and_new_of_replace() {
    let a = Ref::Append(1, 2);
    let b = Ref::Append(1, 3);
    assert_eq!(DocOp::Replace(0, a, b).inverse(), DocOp::Replace(0, b, a));
    assert_eq!(DocOp::Replace(0, a, b).inverse().inverse(), DocOp::Replace(0, a, b));
}
