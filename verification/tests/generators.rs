use pixel_scramble::utils::shuffle::accept_word;
use pixel_scramble::utils::{gilbert2d, shuffle_with_key};

fn sorted(mut v: Vec<usize>) -> Vec<usize> {
    v.sort();
    v
}

#[test]
fn curve_of_small_square() {
    assert_eq!(gilbert2d(2, 2), vec![0, 2, 3, 1]);
    assert_eq!(gilbert2d(3, 3), vec![0, 3, 6, 7, 8, 5, 4, 1, 2]);
    assert_eq!(
        gilbert2d(4, 4),
        vec![0, 1, 5, 4, 8, 12, 13, 9, 10, 14, 15, 11, 7, 6, 2, 3]
    );
}

#[test]
fn curve_of_single_cell() {
    assert_eq!(gilbert2d(1, 1), vec![0]);
}

#[test]
fn curve_of_degenerate_grids() {
    assert_eq!(gilbert2d(1, 5), vec![0, 1, 2, 3, 4]);
    assert_eq!(gilbert2d(5, 1), vec![0, 1, 2, 3, 4]);
}

#[test]
fn curve_of_rectangles() {
    assert_eq!(
        gilbert2d(5, 3),
        vec![0, 5, 10, 11, 6, 1, 2, 7, 12, 13, 14, 9, 8, 3, 4]
    );
    assert_eq!(
        gilbert2d(3, 5),
        vec![0, 1, 2, 5, 4, 3, 6, 7, 8, 11, 14, 13, 10, 9, 12]
    );
    assert_eq!(
        gilbert2d(7, 2),
        vec![0, 7, 8, 1, 2, 9, 10, 3, 4, 11, 12, 13, 6, 5]
    );
    assert_eq!(
        gilbert2d(2, 7),
        vec![0, 1, 3, 2, 4, 5, 7, 6, 8, 9, 11, 13, 12, 10]
    );
}

#[test]
fn curve_covers_every_cell_once() {
    for (w, h) in [(1, 1), (8, 8), (13, 5), (5, 13), (1, 40), (40, 1), (31, 17), (64, 48)] {
        let n = (w * h) as usize;
        let curve = gilbert2d(w, h);
        assert_eq!(sorted(curve), (0..n).collect::<Vec<usize>>());
    }
}

#[test]
fn curve_steps_between_neighbours_on_even_grids() {
    let w = 16usize;
    let curve = gilbert2d(16, 12);
    for pair in curve.windows(2) {
        let (x0, y0) = (pair[0] % w, pair[0] / w);
        let (x1, y1) = (pair[1] % w, pair[1] / w);
        assert_eq!(x0.abs_diff(x1) + y0.abs_diff(y1), 1);
    }
}

#[test]
fn curve_steps_to_a_cell_next_to_the_last() {
    for w in 1..40i32 {
        for h in 1..40i32 {
            let curve = gilbert2d(w, h);
            let w = w as usize;
            for pair in curve.windows(2) {
                let (x0, y0) = (pair[0] % w, pair[0] / w);
                let (x1, y1) = (pair[1] % w, pair[1] / w);
                assert!(x0.abs_diff(x1) <= 1 && y0.abs_diff(y1) <= 1);
            }
        }
    }
}

#[test]
fn curve_is_deterministic() {
    assert_eq!(gilbert2d(23, 17), gilbert2d(23, 17));
}

#[test]
fn shuffle_of_nothing_is_empty() {
    assert_eq!(shuffle_with_key(0, "k"), Vec::<usize>::new());
}

#[test]
fn shuffle_golden_vectors() {
    assert_eq!(shuffle_with_key(1, "k"), vec![0]);
    assert_eq!(shuffle_with_key(2, "k"), vec![1, 0]);
    assert_eq!(shuffle_with_key(5, "secret"), vec![2, 0, 3, 1, 4]);
    assert_eq!(shuffle_with_key(8, ""), vec![6, 7, 5, 2, 3, 0, 1, 4]);
    assert_eq!(
        shuffle_with_key(10, "入力"),
        vec![0, 6, 4, 3, 1, 8, 9, 5, 2, 7]
    );
}

#[test]
fn shuffle_is_a_bijection() {
    for n in [1usize, 2, 3, 17, 256, 1000] {
        let p = shuffle_with_key(n, "some key");
        assert_eq!(sorted(p), (0..n).collect::<Vec<usize>>());
    }
}

#[test]
fn shuffle_is_deterministic() {
    assert_eq!(shuffle_with_key(300, "abc"), shuffle_with_key(300, "abc"));
}

#[test]
fn shuffle_differs_between_keys() {
    assert_ne!(shuffle_with_key(64, "key one"), shuffle_with_key(64, "key two"));
}

#[test]
fn word_below_the_limit_is_reduced() {
    assert_eq!(accept_word(0, 3), Some(0));
    assert_eq!(accept_word(5, 3), Some(2));
    assert_eq!(accept_word(11, 10), Some(1));
    assert_eq!(accept_word(u64::MAX - 1, 3), Some(2));
    assert_eq!(accept_word(u64::MAX - 6, 10), Some(9));
}

#[test]
fn word_from_the_limit_on_is_turned_down() {
    // Two to the power of 64 is one more than a multiple of three.
    assert_eq!(accept_word(u64::MAX, 3), None);
    // And six more than a multiple of ten.
    for word in (u64::MAX - 5)..=u64::MAX {
        assert_eq!(accept_word(word, 10), None);
    }
    assert_eq!(accept_word(u64::MAX, u64::MAX), None);
    assert_eq!(accept_word(u64::MAX - 1, u64::MAX), Some(u64::MAX - 1));
}

#[test]
fn every_word_is_accepted_for_a_power_of_two() {
    for r in [1u64, 2, 4, 1 << 20, 1 << 63] {
        assert_eq!(accept_word(u64::MAX, r), Some(u64::MAX % r));
        assert_eq!(accept_word(12345, r), Some(12345 % r));
    }
}
