//! Uniform in-place shuffle of a slice.
use vstd::prelude::*;
use vstd::seq_lib::{to_multiset_contains, to_multiset_update};

verus! {

/// Relies on `<[T]>::swap`: exchanges the elements at `a` and `b` (it
/// panics when an index is out of bounds, which `requires` rules out).
#[verifier::external_body]
fn swap_at<T>(s: &mut [T], a: usize, b: usize)
    requires
        a < old(s)@.len(),
        b < old(s)@.len(),
    ensures
        final(s)@ == old(s)@.update(a as int, old(s)@[b as int]).update(b as int, old(s)@[a as int]),
{
    s.swap(a, b)
}

/// Shuffles `xs` in place (Fisher-Yates): position `i` is swapped with a
/// position drawn from `i..n`. The result is a permutation of the input.
pub fn shuffle<T>(g: &mut quickcheck::Gen, xs: &mut [T])
    ensures
        final(xs)@.len() == old(xs)@.len(),
        final(xs)@.to_multiset() == old(xs)@.to_multiset(),
{
    broadcast use vstd::multiset::group_multiset_axioms;
    let n = xs.len();
    let mut i: usize = 0;
    while i < n
        invariant
            n == xs@.len(),
            i <= n,
            xs@.len() == old(xs)@.len(),
            xs@.to_multiset() == old(xs)@.to_multiset(),
        decreases n - i,
    {
        let drawn = crate::random::arbitrary_usize(g);
        let offset = drawn % (n - i);
        let ghost span: int = (n - i) as int;
        assert(offset < span) by (nonlinear_arith)
            requires
                offset as int == (drawn as int) % span,
                span > 0,
        ;
        let with = i + offset;
        let ghost before = xs@;
        swap_at(xs, i, with);
        proof {
            let a = before[i as int];
            let b = before[with as int];
            let mid = before.update(i as int, b);
            to_multiset_update(before, i as int, b);
            to_multiset_update(mid, with as int, a);
            if i == with {
                assert(xs@ =~= before);
            } else {
                assert(mid.len() == before.len());
                assert(mid[with as int] == b);
                assert(xs@ == mid.update(with as int, a));
                let m0 = before.to_multiset();
                assert(before.contains(a)) by {
                    assert(before[i as int] == a);
                }
                to_multiset_contains(before, a);
                assert(m0.insert(b).remove(a).insert(a).remove(b) =~= m0);
                assert(xs@.to_multiset() =~= before.to_multiset());
            }
        }
        i = i + 1;
    }
}

} // verus!
