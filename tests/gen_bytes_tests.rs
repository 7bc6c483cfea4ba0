use quickcheck::Gen;
use quickcheck_util::{continues, gen_bytes, non_stop_symbols, LenBound};

const STOPPER: u8 = b'.';
const ALPHABET: &[u8] = b"abcd.";

fn check_bytes(xs: &[u8]) {
    assert!(xs.iter().all(|x| ALPHABET.contains(x)));
    assert!(xs.iter().all(|x| *x != STOPPER));
}

#[test]
fn both_included() {
    let mut g = Gen::new(32);
    for (a, b) in [(0usize, 0usize), (0, 1), (1, 1), (2, 7), (0, 255), (10, 12), (100, 200)] {
        for _ in 0..20 {
            let xs = gen_bytes(&mut g, ALPHABET, STOPPER, LenBound::Included(a), LenBound::Included(b));
            assert!(xs.len() >= a, "left={}, right={}", xs.len(), a);
            assert!(xs.len() <= b, "left={}, right={}", xs.len(), b);
            check_bytes(&xs);
        }
    }
}

#[test]
fn left_included_right_excluded() {
    let mut g = Gen::new(32);
    for (a, b) in [(0usize, 1usize), (1, 2), (2, 7), (0, 255), (10, 12), (100, 201)] {
        for _ in 0..20 {
            let xs = gen_bytes(&mut g, ALPHABET, STOPPER, LenBound::Included(a), LenBound::Excluded(b));
            assert!(xs.len() >= a, "left={}, right={}", xs.len(), a);
            assert!(xs.len() < b, "left={}, right={}", xs.len(), b);
            check_bytes(&xs);
        }
    }
}

#[test]
fn excluded_start_and_unbounded_end() {
    let mut g = Gen::new(32);
    for _ in 0..50 {
        let xs = gen_bytes(&mut g, ALPHABET, STOPPER, LenBound::Excluded(4), LenBound::Unbounded);
        assert!(xs.len() >= 5);
        check_bytes(&xs);
        let ys = gen_bytes(&mut g, ALPHABET, STOPPER, LenBound::Unbounded, LenBound::Excluded(3));
        assert!(ys.len() < 3);
        check_bytes(&ys);
    }
}

#[test]
fn three_to_five_inclusive() {
    let mut g = Gen::new(32);
    for _ in 0..200 {
        let xs = gen_bytes(&mut g, ALPHABET, STOPPER, LenBound::Included(3), LenBound::Included(5));
        assert!((3..=5).contains(&xs.len()));
        assert!(xs.iter().all(|x| b"abcd".contains(x)));
    }
}

#[test]
fn empty_range_gives_least_length() {
    let mut g = Gen::new(32);
    for _ in 0..50 {
        let xs = gen_bytes(&mut g, ALPHABET, STOPPER, LenBound::Included(6), LenBound::Excluded(2));
        assert_eq!(xs.len(), 6);
        check_bytes(&xs);
    }
}

#[test]
fn only_stoppers_give_empty_sequences() {
    let mut g = Gen::new(32);
    for _ in 0..20 {
        let xs = gen_bytes(&mut g, b"..", STOPPER, LenBound::Unbounded, LenBound::Unbounded);
        assert!(xs.is_empty());
    }
}

#[test]
fn no_stopper_runs_to_the_end() {
    let mut g = Gen::new(32);
    for _ in 0..20 {
        let xs = gen_bytes(&mut g, b"ab", STOPPER, LenBound::Included(2), LenBound::Excluded(9));
        assert_eq!(xs.len(), 8);
        assert!(xs.iter().all(|x| b"ab".contains(x)));
    }
}

#[test]
fn mean_length_follows_stop_share() {
    let mut g = Gen::new(32);
    let trials = 20000;
    let mut total: usize = 0;
    for _ in 0..trials {
        total += gen_bytes(&mut g, b"ab.", STOPPER, LenBound::Unbounded, LenBound::Unbounded).len();
    }
    let mean = total as f64 / trials as f64;
    assert!((mean - 2.0).abs() < 0.15, "mean={}", mean);
}

#[test]
fn continues_decisions() {
    assert!(!continues(0, b'.', b'.', LenBound::Unbounded));
    assert!(continues(0, b'a', b'.', LenBound::Unbounded));
    assert!(!continues(usize::MAX, b'a', b'.', LenBound::Unbounded));
    assert!(continues(4, b'a', b'.', LenBound::Included(5)));
    assert!(!continues(5, b'a', b'.', LenBound::Included(5)));
    assert!(continues(3, b'a', b'.', LenBound::Excluded(5)));
    assert!(!continues(4, b'a', b'.', LenBound::Excluded(5)));
    assert!(!continues(0, b'a', b'.', LenBound::Excluded(0)));
    assert!(!continues(0, b'a', b'.', LenBound::Excluded(1)));
    assert!(continues(7, b'a', b'.', LenBound::Included(usize::MAX)));
}

#[test]
fn non_stop_symbols_keep_order_and_repeats() {
    assert_eq!(non_stop_symbols(b"a.b.a..c", b'.'), b"abac".to_vec());
    assert_eq!(non_stop_symbols(b"...", b'.'), Vec::<u8>::new());
    assert_eq!(non_stop_symbols(b"", b'.'), Vec::<u8>::new());
}
