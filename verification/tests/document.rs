use piece_table::document::{Document, RangeError};
use piece_table::ops::DocOp;
use piece_table::span::Ref;

#[test]
fn test_doc_immutable() {
    let mut doc = Document::new("hallo".to_string());
    assert_eq!(doc.get(0), Ok('h'));
    assert_eq!(doc.get(1), Ok('a'));
    assert_eq!(doc.get(2), Ok('l'));
    assert_eq!(doc.get(3), Ok('l'));
    assert_eq!(doc.get(4), Ok('o'));
}

#[test]
fn test_split() {
    let mut doc = Document::new("hallo".to_string());
    doc.insert(2, 'x');
    assert_eq!(doc.len(), 6);
    assert_eq!(doc.get(0), Ok('h'));
    assert_eq!(doc.get(1), Ok('a'));
    assert_eq!(doc.get(2), Ok('x'));
    assert_eq!(doc.get(3), Ok('l'));
    assert_eq!(doc.get(4), Ok('l'));
    assert_eq!(doc.get(5), Ok('o'));
}

#[test]
fn test_remove2() {
    let mut doc = Document::empty();
    doc.insert(0, 'a');
    doc.insert(1, 'b');
    assert_eq!(doc.to_string(), "ab");
    doc.remove(1);
    assert_eq!(doc.to_string(), "a");
}

#[test]
fn test_remove() {
    let mut doc = Document::new("Hallo".to_string());
    doc.remove(0);
    assert_eq!(doc.len(), 4);
    assert_eq!(doc.to_string(), "allo");

    doc.insert(0, 'H');
    doc.remove(4);
    assert_eq!(doc.len(), 4);
    assert_eq!(doc.to_string(), "Hall");
    doc.remove(2);
    assert_eq!(doc.len(), 3);
    assert_eq!(doc.to_string(), "Hal");
}

#[test]
fn test_doc_insert() {
    let mut doc = Document::new("hallo".to_string());
    assert_eq!(doc.len(), 5);
    doc.insert(5, 'x');
    assert_eq!(doc.len(), 6);
    doc.insert(6, 'z');
    assert_eq!(doc.len(), 7);
    doc.insert(6, 'y');
    assert_eq!(doc.len(), 8);

    assert_eq!(doc.get(1), Ok('a'));
    doc.insert(1, 'a');
    assert_eq!(doc.get(1), Ok('a'));

    assert_eq!(doc.len(), 9);

    assert_eq!(doc.get(0), Ok('h'));
    assert_eq!(doc.get(1), Ok('a'));
    assert_eq!(doc.get(2), Ok('a'));
    assert_eq!(doc.get(3), Ok('l'));
    assert_eq!(doc.get(4), Ok('l'));
    assert_eq!(doc.get(5), Ok('o'));
    assert_eq!(doc.get(6), Ok('x'));
    assert_eq!(doc.get(7), Ok('y'));
    assert_eq!(doc.get(8), Ok('z'));

    println!("\n\n");

    doc.insert(0, 'ö');
    println!("doc:{}", doc.to_string());
    assert_eq!(doc.len(), 10);
}

#[test]
fn append_at_end_extends_text() {
    let mut doc = Document::new("hallo".to_string());
    doc.insert(5, 'x');
    assert_eq!(doc.to_string(), "hallox");
    assert_eq!(doc.len(), 6);
    doc.insert(6, 'y');
    assert_eq!(doc.to_string(), "halloxy");
    assert_eq!(doc.len(), 7);
}

#[test]
fn insert_at_offset_one_lands_at_offset_one() {
    let mut doc = Document::new("hallo".to_string());
    doc.insert(5, 'x');
    doc.insert(6, 'y');
    doc.insert(1, 'a');
    assert_eq!(doc.get(1), Ok('a'));
    assert_eq!(doc.to_string(), "haalloxy");
    assert_eq!(doc.len(), 8);
}

#[test]
fn insert_at_front_of_grown_text() {
    let mut doc = Document::new("hallo".to_string());
    doc.insert(5, 'x');
    doc.insert(6, 'y');
    doc.insert(0, 'a');
    assert_eq!(doc.to_string(), "ahalloxy");
    assert_eq!(doc.get(0), Ok('a'));
    assert_eq!(doc.get(1), Ok('h'));
}

#[test]
fn get_past_end_reports_range_error() {
    let mut doc = Document::new("hallo".to_string());
    assert_eq!(doc.get(5), Err(RangeError { offset: 5, len: 5 }));
    assert_eq!(doc.get(100), Err(RangeError { offset: 100, len: 5 }));
    let mut none = Document::empty();
    assert_eq!(none.get(0), Err(RangeError { offset: 0, len: 0 }));
}

#[test]
fn empty_text_is_one_empty_piece() {
    let mut doc = Document::new(String::new());
    assert_eq!(doc.len(), 0);
    assert_eq!(doc.to_string(), "");
    assert_eq!(doc.get(0), Err(RangeError { offset: 0, len: 0 }));
    // The new piece goes before the empty one.
    let ops = doc.insert_actions(0, 'a');
    assert_eq!(ops, vec![DocOp::Insert(0, Ref::Append(0, 1))]);
    doc.run(&ops);
    assert_eq!(doc.to_string(), "a");
    // The end of the text is the end of the empty piece, which is no run of
    // the append buffer: the next character gets a piece of its own.
    let ops = doc.insert_actions(1, 'b');
    assert_eq!(ops, vec![DocOp::Insert(2, Ref::Append(1, 1))]);
    doc.run(&ops);
    assert_eq!(doc.to_string(), "ab");
    assert_eq!(doc.len(), 2);
    assert_eq!(doc.get(0), Ok('a'));
    assert_eq!(doc.get(1), Ok('b'));
}

#[test]
fn removal_at_front_passes_over_an_empty_first_piece() {
    let mut doc = Document::new(String::new());
    doc.insert(0, 'a');
    doc.insert(1, 'b');
    // pieces: "a", the empty piece, "b"
    assert_eq!(doc.remove_actions(0), vec![DocOp::Remove(0, Ref::Append(0, 1))]);
    doc.remove(0);
    assert_eq!(doc.to_string(), "b");
    assert_eq!(doc.len(), 1);
    assert_eq!(doc.get(0), Ok('b'));
    // pieces: the empty piece, "b"
    assert_eq!(doc.remove_actions(0), vec![DocOp::Remove(1, Ref::Append(1, 1))]);
    doc.remove(0);
    assert_eq!(doc.to_string(), "");
    assert_eq!(doc.len(), 0);
    doc.insert(0, 'c');
    assert_eq!(doc.to_string(), "c");
    assert_eq!(doc.len(), 1);
}

#[test]
fn edits_around_an_empty_piece_keep_text_and_lookup_in_step() {
    let mut doc = Document::new(String::new());
    let mut plain: Vec<char> = Vec::new();
    let mut seed: usize = 99;
    for round in 0..300usize {
        seed = seed.wrapping_mul(6364136223846793005).wrapping_add(1442695040888963407);
        let pick = seed >> 33;
        if plain.is_empty() || pick % 2 == 0 {
            let at = pick % (plain.len() + 1);
            let c = (b'A' + (round % 26) as u8) as char;
            doc.insert(at, c);
            plain.insert(at, c);
        } else {
            let at = pick % plain.len();
            doc.remove(at);
            plain.remove(at);
        }
        assert_eq!(doc.len(), plain.len());
        let text: String = plain.iter().collect();
        assert_eq!(doc.to_string(), text);
        for i in 0..plain.len() {
            assert_eq!(doc.get(i), Ok(plain[i]));
        }
    }
}

#[test]
fn sequential_typing_extends_one_piece() {
    let mut doc = Document::empty();
    assert_eq!(doc.insert_actions(0, 'a'), vec![DocOp::Insert(0, Ref::Append(0, 1))]);
    doc.run(&[DocOp::Insert(0, Ref::Append(0, 1))]);
    let ops = doc.insert_actions(1, 'b');
    assert_eq!(ops, vec![DocOp::Replace(0, Ref::Append(0, 1), Ref::Append(0, 2))]);
    doc.run(&ops);
    assert_eq!(doc.to_string(), "ab");
}

#[test]
fn insert_after_original_piece_adds_piece() {
    let mut doc = Document::new("hallo".to_string());
    let ops = doc.insert_actions(5, 'x');
    assert_eq!(ops, vec![DocOp::Insert(1, Ref::Append(0, 1))]);
}

#[test]
fn insert_after_stale_append_piece_adds_piece() {
    let mut doc = Document::new("ab".to_string());
    doc.insert(1, 'x');
    doc.insert(3, 'y');
    // "axby": pieces are a, x, b, y. The run of 'x' no longer ends where the
    // append buffer ends.
    let ops = doc.insert_actions(2, 'z');
    assert_eq!(ops, vec![DocOp::Insert(2, Ref::Append(2, 1))]);
    doc.run(&ops);
    assert_eq!(doc.to_string(), "axzby");
}

#[test]
fn insert_inside_piece_splits_it() {
    let mut doc = Document::new("hallo".to_string());
    let ops = doc.insert_actions(2, 'x');
    assert_eq!(
        ops,
        vec![
            DocOp::Remove(0, Ref::Original(0, 5)),
            DocOp::Insert(0, Ref::Original(0, 2)),
            DocOp::Insert(1, Ref::Append(0, 1)),
            DocOp::Insert(2, Ref::Original(2, 3)),
        ]
    );
    doc.run(&ops);
    assert_eq!(doc.to_string(), "haxllo");
}

#[test]
fn remove_at_front_shrinks_or_drops_first_piece() {
    let mut doc = Document::new("ab".to_string());
    assert_eq!(
        doc.remove_actions(0),
        vec![DocOp::Replace(0, Ref::Original(0, 2), Ref::Original(1, 1))]
    );
    doc.remove(0);
    assert_eq!(doc.remove_actions(0), vec![DocOp::Remove(0, Ref::Original(1, 1))]);
    doc.remove(0);
    assert_eq!(doc.to_string(), "");
    assert_eq!(doc.len(), 0);
}

#[test]
fn remove_on_boundary_trims_next_piece() {
    let mut doc = Document::new("ab".to_string());
    doc.insert(2, 'c');
    doc.insert(3, 'd');
    // pieces: "ab", "cd"
    assert_eq!(
        doc.remove_actions(2),
        vec![DocOp::Replace(1, Ref::Append(0, 2), Ref::Append(1, 1))]
    );
    doc.remove(2);
    assert_eq!(doc.to_string(), "abd");
    assert_eq!(doc.remove_actions(2), vec![DocOp::Remove(1, Ref::Append(1, 1))]);
    doc.remove(2);
    assert_eq!(doc.to_string(), "ab");
}

#[test]
fn remove_inside_piece_splits_or_trims() {
    let mut doc = Document::new("hallo".to_string());
    assert_eq!(
        doc.remove_actions(2),
        vec![
            DocOp::Remove(0, Ref::Original(0, 5)),
            DocOp::Insert(0, Ref::Original(0, 2)),
            DocOp::Insert(1, Ref::Original(3, 2)),
        ]
    );
    assert_eq!(
        doc.remove_actions(4),
        vec![DocOp::Replace(0, Ref::Original(0, 5), Ref::Original(0, 4))]
    );
    doc.remove(2);
    assert_eq!(doc.to_string(), "halo");
    doc.remove(3);
    assert_eq!(doc.to_string(), "hal");
}

#[test]
fn insert_at_end_after_removing_last_piece() {
    let mut doc = Document::new("ab".to_string());
    doc.insert(1, 'x');
    doc.remove(2);
    assert_eq!(doc.to_string(), "ax");
    doc.insert(2, 'y');
    assert_eq!(doc.to_string(), "axy");
    assert_eq!(doc.len(), 3);
}

#[test]
fn run_applies_edits_in_order() {
    let mut doc = Document::new("hallo".to_string());
    doc.run(&[
        DocOp::Remove(0, Ref::Original(0, 5)),
        DocOp::Insert(0, Ref::Original(3, 2)),
        DocOp::Insert(1, Ref::Original(0, 3)),
        DocOp::Replace(0, Ref::Original(3, 2), Ref::Original(4, 1)),
    ]);
    assert_eq!(doc.to_string(), "ohal");
    assert_eq!(doc.len(), 4);
    assert_eq!(doc.get(0), Ok('o'));
    assert_eq!(doc.get(3), Ok('l'));
}

#[test]
fn run_of_inverses_restores_text() {
    let mut doc = Document::new("hallo".to_string());
    let ops = doc.insert_actions(2, 'x');
    doc.run(&ops);
    assert_eq!(doc.to_string(), "haxllo");
    let mut back = Vec::new();
    for op in ops.into_iter().rev() {
        back.push(op.inverse());
    }
    doc.run(&back);
    assert_eq!(doc.to_string(), "hallo");
    assert_eq!(doc.len(), 5);
}

#[test]
fn text_and_lookup_agree_after_edits() {
    let mut doc = Document::new("one\ntwo".to_string());
    doc.insert(3, '!');
    doc.insert(0, '>');
    doc.remove(5);
    doc.insert(doc.len(), '\n');
    doc.remove(1);
    let text: Vec<char> = doc.to_string().chars().collect();
    assert_eq!(text.len(), doc.len());
    for i in 0..text.len() {
        assert_eq!(doc.get(i), Ok(text[i]));
    }
    assert_eq!(doc.to_string(), ">ne!two\n");
}

#[test]
fn length_moves_by_one() {
    let mut doc = Document::new("abc".to_string());
    for (k, at) in [0usize, 4, 2, 2, 6].iter().enumerate() {
        let before = doc.len();
        doc.insert(*at, 'x');
        assert_eq!(doc.len(), before + 1);
        assert_eq!(doc.len(), 4 + k);
    }
    for at in [7usize, 0, 3, 1] {
        let before = doc.len();
        doc.remove(at);
        assert_eq!(doc.len(), before - 1);
    }
}

#[test]
fn next_linebreak_finds_first_at_or_after() {
    let doc = Document::new("ab\ncd\n".to_string());
    assert_eq!(doc.next_linebreak(0), Some(2));
    assert_eq!(doc.next_linebreak(2), Some(2));
    assert_eq!(doc.next_linebreak(3), Some(5));
    assert_eq!(doc.next_linebreak(6), None);
    assert_eq!(doc.next_linebreak(100), None);
    assert_eq!(Document::new("abc".to_string()).next_linebreak(0), None);
    assert_eq!(Document::empty().next_linebreak(0), None);
}

#[test]
fn prev_linebreak_finds_last_at_or_before() {
    let doc = Document::new("ab\ncd\n".to_string());
    assert_eq!(doc.prev_linebreak(0), None);
    assert_eq!(doc.prev_linebreak(1), None);
    assert_eq!(doc.prev_linebreak(2), Some(2));
    assert_eq!(doc.prev_linebreak(4), Some(2));
    assert_eq!(doc.prev_linebreak(5), Some(5));
    assert_eq!(doc.prev_linebreak(100), Some(5));
    assert_eq!(Document::empty().prev_linebreak(3), None);
}

#[test]
fn prev_linebreak_reports_offset_zero() {
    let doc = Document::new("\nab".to_string());
    assert_eq!(doc.prev_linebreak(2), Some(0));
    assert_eq!(doc.prev_linebreak(1), Some(0));
    assert_eq!(doc.prev_linebreak(0), Some(0));
    assert_eq!(doc.prev_linebreak(100), Some(0));
    assert_eq!(doc.next_linebreak(0), Some(0));
    let other = Document::new("\n\nab".to_string());
    assert_eq!(other.prev_linebreak(0), Some(0));
    assert_eq!(other.prev_linebreak(3), Some(1));
    assert_eq!(Document::new("ab".to_string()).prev_linebreak(1), None);
}

#[test]
fn removed_front_character_can_be_put_back() {
    let mut doc = Document::new("Hallo".to_string());
    doc.remove(0);
    assert_eq!(doc.to_string(), "allo");
    assert_eq!(doc.len(), 4);
    doc.insert(0, 'H');
    assert_eq!(doc.to_string(), "Hallo");
    assert_eq!(doc.len(), 5);
    doc.remove(4);
    assert_eq!(doc.to_string(), "Hall");
    doc.remove(2);
    assert_eq!(doc.to_string(), "Hal");
}

#[test]
fn typing_from_empty_then_removing() {
    let mut doc = Document::empty();
    assert_eq!(doc.len(), 0);
    assert_eq!(doc.to_string(), "");
    doc.insert(0, 'a');
    doc.insert(1, 'b');
    assert_eq!(doc.to_string(), "ab");
    assert_eq!(doc.len(), 2);
    doc.remove(1);
    assert_eq!(doc.to_string(), "a");
    assert_eq!(doc.len(), 1);
}

#[test]
fn many_edits_match_a_plain_vector() {
    let mut doc = Document::new("the quick brown fox".to_string());
    let mut plain: Vec<char> = "the quick brown fox".chars().collect();
    let mut seed: usize = 7;
    for round in 0..400usize {
        seed = seed.wrapping_mul(6364136223846793005).wrapping_add(1442695040888963407);
        let pick = seed >> 33;
        if plain.is_empty() || pick % 3 != 0 {
            let at = pick % (plain.len() + 1);
            let c = (b'a' + (round % 26) as u8) as char;
            doc.insert(at, c);
            plain.insert(at, c);
        } else {
            let at = pick % plain.len();
            doc.remove(at);
            plain.remove(at);
        }
        assert_eq!(doc.len(), plain.len());
    }
    let text: String = plain.iter().collect();
    assert_eq!(doc.to_string(), text);
    for i in 0..plain.len() {
        assert_eq!(doc.get(i), Ok(plain[i]));
    }
    assert_eq!(doc.get(plain.len()), Err(RangeError { offset: plain.len(), len: plain.len() }));
}

#[test]
fn run_can_leave_two_empty_pieces() {
    let mut doc = Document::new(String::new());
    doc.run(&[DocOp::Insert(0, Ref::Original(0, 0))]);
    assert_eq!(doc.len(), 0);
    assert_eq!(doc.to_string(), "");
    doc.run(&[DocOp::Insert(2, Ref::Append(0, 0)), DocOp::Insert(1, Ref::Original(0, 0))]);
    assert_eq!(doc.len(), 0);
    assert_eq!(doc.get(0), Err(RangeError { offset: 0, len: 0 }));
    // Text goes in and out among the four empty pieces.
    doc.insert(0, 'a');
    doc.insert(1, 'b');
    doc.insert(1, 'c');
    assert_eq!(doc.to_string(), "acb");
    assert_eq!(doc.len(), 3);
    assert_eq!(doc.get(0), Ok('a'));
    assert_eq!(doc.get(1), Ok('c'));
    assert_eq!(doc.get(2), Ok('b'));
    doc.remove(0);
    assert_eq!(doc.to_string(), "cb");
    doc.remove(1);
    doc.remove(0);
    assert_eq!(doc.to_string(), "");
    assert_eq!(doc.len(), 0);
}

#[test]
fn run_with_empty_pieces_is_undone_by_inverses() {
    let mut doc = Document::new("hallo".to_string());
    let ops = vec![
        DocOp::Insert(0, Ref::Original(2, 0)),
        DocOp::Insert(2, Ref::Original(5, 0)),
        DocOp::Replace(1, Ref::Original(0, 5), Ref::Original(1, 3)),
        DocOp::Remove(0, Ref::Original(2, 0)),
    ];
    doc.run(&ops);
    assert_eq!(doc.to_string(), "all");
    assert_eq!(doc.len(), 3);
    let mut back = Vec::new();
    for op in ops.into_iter().rev() {
        back.push(op.inverse());
    }
    doc.run(&back);
    assert_eq!(doc.to_string(), "hallo");
    assert_eq!(doc.len(), 5);
    assert_eq!(doc.remove_actions(2), vec![
        DocOp::Remove(0, Ref::Original(0, 5)),
        DocOp::Insert(0, Ref::Original(0, 2)),
        DocOp::Insert(1, Ref::Original(3, 2)),
    ]);
}
