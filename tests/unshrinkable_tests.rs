use quickcheck::Arbitrary;
use quickcheck_util::Unshrinkable;

#[test]
fn new_then_take() {
    assert_eq!(Unshrinkable::new(7usize).take(), 7);
    assert_eq!(Unshrinkable::new(String::from("x")).take(), "x");
}

#[test]
fn no_shrink_candidates() {
    assert_eq!(Unshrinkable::new(100usize).shrink().count(), 0);
}

#[test]
fn vec_of_unshrinkable_keeps_elements() {
    for l in [0usize, 1, 2, 5, 17] {
        let x: usize = 12345;
        let yss: Vec<_> = (0..l).map(|_| Unshrinkable::new(x)).collect();
        let mut seen = 0;
        for ys in yss.shrink() {
            let ys: Vec<usize> = ys.into_iter().map(|y| y.take()).collect();
            assert!(ys.iter().all(|y| *y == x));
            assert!(ys.len() < l);
            seen += 1;
        }
        assert_eq!(seen > 0, l > 0);
    }
}
