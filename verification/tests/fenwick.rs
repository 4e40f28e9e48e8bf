use piece_table::fenwick::Fenwick;
use rand::distributions::{Distribution, Uniform};
use rand::{thread_rng, Rng};

#[test]
fn test_prefix() {
    let mut f = Fenwick::new();
    assert_eq!(f.find_prefix(0), Err(0));

    f.add(0, 1);
    f.add(1, 2);
    assert_eq!(f.find_prefix(2), Err(1));
}

#[test]
fn find() {
    let mut f = Fenwick::new();

    assert_eq!(f.find_prefix(0), Err(0));
    assert_eq!(f.find_prefix(1000), Err(0));

    f.add(0, 3);
    f.add(1, 3);
    f.add(2, 3);

    assert_eq!(f.prefix_sum(0), 3);
    assert_eq!(f.prefix_sum(1), 6);
    assert_eq!(f.prefix_sum(2), 9);
    assert_eq!(f.prefix_sum(3), 9);

    assert_eq!(f.find_prefix(0), Err(0));
    assert_eq!(f.find_prefix(1), Err(0));
    assert_eq!(f.find_prefix(2), Err(0));
    assert_eq!(f.find_prefix(3), Ok(0));
    assert_eq!(f.find_prefix(4), Err(1));
    assert_eq!(f.find_prefix(5), Err(1));
    assert_eq!(f.find_prefix(6), Ok(1));
    assert_eq!(f.find_prefix(7), Err(2));
    assert_eq!(f.find_prefix(8), Err(2));
    assert_eq!(f.find_prefix(9), Ok(2));
    assert_eq!(f.find_prefix(10), Err(3));
    assert_eq!(f.find_prefix(11), Err(3));

    assert_eq!(f.find_prefix_left(0), 0);
    assert_eq!(f.find_prefix_left(1), 0);
    assert_eq!(f.find_prefix_left(2), 0);
    assert_eq!(f.find_prefix_left(3), 1);
    assert_eq!(f.find_prefix_left(4), 1);
    assert_eq!(f.find_prefix_left(5), 1);
    assert_eq!(f.find_prefix_left(6), 2);
    assert_eq!(f.find_prefix_left(7), 2);
    assert_eq!(f.find_prefix_left(8), 2);
    assert_eq!(f.find_prefix_left(9), 3);
    assert_eq!(f.find_prefix_left(10), 3);
    assert_eq!(f.find_prefix_left(11), 3);
}

#[test]
fn randoms() {
    let mut rng = thread_rng();
    for len in 0..130usize {
        random_one(&mut rng, len);
    }
}

fn random_one<TRng: Rng>(rng: &mut TRng, len: usize) {
    let mut data = vec![0; len];
    let range = Uniform::new_inclusive(0, 500);
    for x in data.iter_mut() {
        *x = range.sample(rng);
    }

    let mut prefix = 0;
    let mut psum = Vec::new();
    for i in 0..data.len() {
        prefix += data[i];
        psum.push(prefix);
    }

    let mut fenwick = Fenwick::new();
    for (i, x) in data.iter().enumerate() {
        fenwick.add(i, *x);
    }
    for (i, s) in psum.iter().enumerate() {
        assert_eq!(fenwick.prefix_sum(i), *s);
    }
}

fn naive_find(data: &[usize], target: usize) -> Result<usize, usize> {
    let mut within = 0;
    let mut sum = 0;
    let mut last = 0;
    for (i, x) in data.iter().enumerate() {
        sum += x;
        if sum <= target {
            within = i + 1;
            last = sum;
        }
    }
    if within > 0 && last == target {
        Ok(within - 1)
    } else {
        Err(within)
    }
}

fn filled(data: &[usize]) -> Fenwick {
    let mut f = Fenwick::new();
    for (i, x) in data.iter().enumerate() {
        f.add(i, *x);
    }
    f
}

#[test]
fn find_prefix_agrees_with_scan() {
    let mut seed: usize = 12345;
    for len in 0..70usize {
        let mut data = vec![0usize; len];
        for x in data.iter_mut() {
            seed = seed.wrapping_mul(6364136223846793005).wrapping_add(1442695040888963407);
            *x = (seed >> 33) % 4;
        }
        let f = filled(&data);
        let total: usize = data.iter().sum();
        assert_eq!(f.slots(), len);
        for target in 0..total + 3 {
            let expected = naive_find(&data, target);
            assert_eq!(f.find_prefix(target), expected);
            let left = match expected {
                Ok(i) => i + 1,
                Err(i) => i,
            };
            assert_eq!(f.find_prefix_left(target), left);
        }
    }
}

#[test]
fn find_prefix_prefers_last_of_equal_sums() {
    let f = filled(&[3, 0, 0, 2]);
    assert_eq!(f.find_prefix(3), Ok(2));
    assert_eq!(f.find_prefix(5), Ok(3));
    assert_eq!(f.find_prefix(4), Err(3));
    let g = filled(&[0, 0, 1]);
    assert_eq!(g.find_prefix(0), Ok(1));
    assert_eq!(g.find_prefix(1), Ok(2));
}

#[test]
fn find_prefix_of_prefix_sum_is_exact() {
    let data = [2usize, 5, 1, 1, 7, 3, 4, 4, 9];
    let f = filled(&data);
    for i in 0..data.len() {
        assert_eq!(f.find_prefix(f.prefix_sum(i)), Ok(i));
    }
}

#[test]
fn suffix_and_prefix_sums_are_exact() {
    let f = filled(&[2, 5, 1, 7]);
    assert_eq!(f.suffix_sum(0), 15);
    assert_eq!(f.suffix_sum(1), 13);
    assert_eq!(f.suffix_sum(2), 8);
    assert_eq!(f.suffix_sum(3), 7);
    assert_eq!(f.suffix_sum(4), 0);
    assert_eq!(f.suffix_sum(usize::MAX), 0);
    assert_eq!(f.prefix_sum(0), 2);
    assert_eq!(f.prefix_sum(2), 8);
    assert_eq!(f.prefix_sum(3), 15);
    assert_eq!(f.prefix_sum(usize::MAX), 15);
    assert_eq!(Fenwick::new().prefix_sum(0), 0);
    assert_eq!(Fenwick::new().suffix_sum(0), 0);
}

#[test]
fn add_beyond_last_slot_pads_with_zero() {
    let mut f = Fenwick::new();
    f.add(3, 4);
    assert_eq!(f.slots(), 4);
    assert_eq!(f.prefix_sum(0), 0);
    assert_eq!(f.prefix_sum(2), 0);
    assert_eq!(f.prefix_sum(3), 4);
    f.sub(6, 0);
    assert_eq!(f.slots(), 7);
    assert_eq!(f.prefix_sum(6), 4);
}

#[test]
fn sub_takes_weight_away() {
    let mut f = filled(&[2, 5, 1, 7]);
    f.sub(1, 5);
    f.sub(3, 3);
    assert_eq!(f.prefix_sum(0), 2);
    assert_eq!(f.prefix_sum(1), 2);
    assert_eq!(f.prefix_sum(2), 3);
    assert_eq!(f.prefix_sum(3), 7);
    f.add(1, 1);
    assert_eq!(f.prefix_sum(3), 8);
    assert_eq!(f.find_prefix(3), Ok(1));
}

#[test]
fn truncate_drops_zero_slots() {
    let mut f = filled(&[2, 5, 0, 0]);
    assert_eq!(f.find_prefix(7), Ok(3));
    f.truncate(2);
    assert_eq!(f.slots(), 2);
    assert_eq!(f.find_prefix(7), Ok(1));
    assert_eq!(f.prefix_sum(1), 7);
    f.add(2, 1);
    assert_eq!(f.prefix_sum(2), 8);
    assert_eq!(f.find_prefix(7), Ok(1));
}
