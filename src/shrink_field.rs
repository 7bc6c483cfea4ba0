//! Shrinking one field of a composite value: every candidate is a copy of
//! the value with that field replaced by one of the field's own shrink
//! candidates. A variant for map fields whose keys are derived from their
//! values rebuilds each candidate map so that the derivation still holds.
use std::collections::BTreeMap;
use vstd::laws_cmp::obeys_cmp;
use vstd::prelude::*;

verus! {

/// The elements of `v` in reverse order.
fn reversed<T>(v: Vec<T>) -> (r: Vec<T>)
    ensures
        r@ == v@.reverse(),
{
    let ghost orig = v@;
    let mut rest = v;
    let mut r: Vec<T> = Vec::new();
    while rest.len() > 0
        invariant
            rest@ == orig.take(rest@.len() as int),
            rest@.len() <= orig.len(),
            r@.len() == orig.len() - rest@.len(),
            forall|j: int| 0 <= j < r@.len() ==> r@[j] == #[trigger] orig[orig.len() - 1 - j],
        decreases rest@.len(),
    {
        match rest.pop() {
            Some(x) => {
                assert(rest@ == orig.take(rest@.len() as int));
                r.push(x);
            },
            None => {},
        }
    }
    assert(r@ =~= orig.reverse());
    r
}

/// Copies of `value`, one per candidate in order, each with one field set
/// to that candidate by `with_field`; nothing is dropped or added.
pub fn shrink_field<V, F, W>(value: &V, candidates: Vec<F>, with_field: W) -> (r: Vec<V>)
    where
        W: Fn(&V, F) -> V,
    requires
        forall|i: int| 0 <= i < candidates@.len() ==> with_field.requires((value, #[trigger] candidates@[i])),
    ensures
        r@.len() == candidates@.len(),
        forall|i: int| 0 <= i < r@.len() ==> with_field.ensures((value, candidates@[i]), #[trigger] r@[i]),
{
    let n = candidates.len();
    let ghost cands = candidates@;
    let mut rest = reversed(candidates);
    let mut r: Vec<V> = Vec::new();
    while rest.len() > 0
        invariant
            rest@.len() + r@.len() == n,
            n == cands.len(),
            forall|j: int| 0 <= j < rest@.len() ==> rest@[j] == #[trigger] cands[n - 1 - j],
            forall|i: int| 0 <= i < cands.len() ==> with_field.requires((value, #[trigger] cands[i])),
            forall|i: int| 0 <= i < r@.len() ==> with_field.ensures((value, cands[i]), #[trigger] r@[i]),
        decreases rest@.len(),
    {
        let ghost k = r@.len() as int;
        let ghost before = rest@;
        assert(before[before.len() - 1] == cands[n - 1 - (before.len() - 1)]);
        match rest.pop() {
            Some(c) => {
                assert(c == cands[k]);
                let v = with_field(value, c);
                r.push(v);
            },
            None => {},
        }
    }
    r
}

/// The map built by inserting `(keys[i], values[i])` for each `i` in
/// order, a later entry replacing an earlier one with the same key.
pub open spec fn spec_keyed<K, X>(keys: Seq<K>, values: Seq<X>) -> Map<K, X>
    decreases values.len(),
{
    if values.len() == 0 || keys.len() == 0 {
        Map::empty()
    } else {
        spec_keyed(keys.drop_last(), values.drop_last()).insert(keys.last(), values.last())
    }
}

/// `m` is the map that holds each of `values` under the key that `key_fn`
/// derives from it, inserted in order (the last value wins a shared key).
pub open spec fn keyed_by<X, K, KF: Fn(&X) -> K>(values: Seq<X>, key_fn: KF, m: Map<K, X>) -> bool {
    exists|keys: Seq<K>|
        {
            &&& keys.len() == values.len()
            &&& forall|i: int| 0 <= i < values.len() ==> key_fn.ensures((&values[i],), #[trigger] keys[i])
            &&& m == spec_keyed(keys, values)
        }
}

/// Every entry of the map built from `keys` and `values` is one of the
/// pairs `(keys[i], values[i])`, and it has no more entries than there are
/// values.
pub proof fn lemma_keyed_entries<K, X>(keys: Seq<K>, values: Seq<X>)
    requires
        keys.len() == values.len(),
    ensures
        spec_keyed(keys, values).dom().finite(),
        spec_keyed(keys, values).len() <= values.len(),
        forall|k: K| #[trigger] spec_keyed(keys, values).contains_key(k) ==> exists|i: int|
            0 <= i < values.len() && keys[i] == k && spec_keyed(keys, values)[k] == values[i],
    decreases values.len(),
{
    if values.len() > 0 {
        let (ks, vs) = (keys.drop_last(), values.drop_last());
        lemma_keyed_entries(ks, vs);
        let prev = spec_keyed(ks, vs);
        let m = spec_keyed(keys, values);
        assert(m == prev.insert(keys.last(), values.last()));
        assert(m.dom() == prev.dom().insert(keys.last()));
        assert forall|k: K| #[trigger] m.contains_key(k) implies exists|i: int|
            0 <= i < values.len() && keys[i] == k && m[k] == values[i] by {
            if k == keys.last() {
                assert(keys[values.len() - 1] == k);
            } else {
                let i = choose|i: int| 0 <= i < vs.len() && ks[i] == k && prev[k] == vs[i];
                assert(keys[i] == k && m[k] == values[i]);
            }
        }
    }
}

/// A map rebuilt from values by a key function keeps that function's
/// relation on every entry, and has no more entries than values; no values
/// give the empty map.
pub proof fn lemma_keyed_map_consistent<X, K, KF: Fn(&X) -> K>(values: Seq<X>, key_fn: KF, m: Map<K, X>)
    requires
        keyed_by(values, key_fn, m),
    ensures
        m.dom().finite(),
        m.len() <= values.len(),
        values.len() == 0 ==> m == Map::<K, X>::empty(),
        forall|k: K| #[trigger] m.contains_key(k) ==> key_fn.ensures((&m[k],), k),
{
    let keys = choose|keys: Seq<K>|
        {
            &&& keys.len() == values.len()
            &&& forall|i: int| 0 <= i < values.len() ==> key_fn.ensures((&values[i],), #[trigger] keys[i])
            &&& m == spec_keyed(keys, values)
        };
    lemma_keyed_entries(keys, values);
    assert forall|k: K| #[trigger] m.contains_key(k) implies key_fn.ensures((&m[k],), k) by {
        let i = choose|i: int| 0 <= i < values.len() && keys[i] == k && m[k] == values[i];
    }
}

/// The map that holds each of `values` under the key `key_fn` derives from
/// it; where two values share a key, the later one stays.
pub fn rebuild_keyed_map<X, K: Ord, KF: Fn(&X) -> K>(values: Vec<X>, key_fn: &KF) -> (r: BTreeMap<K, X>)
    requires
        obeys_cmp::<K>(),
        forall|x: X| key_fn.requires((&x,)),
    ensures
        keyed_by(values@, *key_fn, r@),
{
    let ghost vals = values@;
    let n = values.len();
    let mut rest = reversed(values);
    let mut r: BTreeMap<K, X> = BTreeMap::new();
    let ghost mut keys: Seq<K> = Seq::empty();
    while rest.len() > 0
        invariant
            obeys_cmp::<K>(),
            forall|x: X| key_fn.requires((&x,)),
            n == vals.len(),
            rest@.len() + keys.len() == n,
            forall|j: int| 0 <= j < rest@.len() ==> rest@[j] == #[trigger] vals[n - 1 - j],
            forall|i: int| 0 <= i < keys.len() ==> key_fn.ensures((&vals[i],), #[trigger] keys[i]),
            r@ == spec_keyed(keys, vals.take(keys.len() as int)),
        decreases rest@.len(),
    {
        let ghost k = keys.len() as int;
        let ghost before = rest@;
        assert(before[before.len() - 1] == vals[n - 1 - (before.len() - 1)]);
        match rest.pop() {
            Some(x) => {
                assert(x == vals[k]);
                let key = key_fn(&x);
                proof {
                    let ks = keys.push(key);
                    let done = vals.take(k + 1);
                    assert(ks.drop_last() =~= keys);
                    assert(done.drop_last() =~= vals.take(k));
                    assert(done.last() == x);
                    keys = ks;
                }
                r.insert(key, x);
            },
            None => {},
        }
    }
    assert(vals.take(n as int) =~= vals);
    r
}

/// `out` is `value` with its map field set by `with_field` to a map
/// rebuilt from `values` by `key_fn`.
pub open spec fn is_rebuilt_copy<V, X, K, KF: Fn(&X) -> K, W: Fn(&V, BTreeMap<K, X>) -> V>(
    value: V,
    values: Seq<X>,
    key_fn: KF,
    with_field: W,
    out: V,
) -> bool {
    exists|m: BTreeMap<K, X>| keyed_by(values, key_fn, m@) && with_field.ensures((&value, m), out)
}

/// Copies of `value`, one per candidate list of values in order, each with
/// its map field set by `with_field` to the map rebuilt from that list by
/// `key_fn`.
pub fn shrink_map_field<V, X, K: Ord, KF, W>(
    value: &V,
    candidates: Vec<Vec<X>>,
    key_fn: KF,
    with_field: W,
) -> (r: Vec<V>)
    where
        KF: Fn(&X) -> K,
        W: Fn(&V, BTreeMap<K, X>) -> V,
    requires
        obeys_cmp::<K>(),
        forall|x: X| key_fn.requires((&x,)),
        forall|m: BTreeMap<K, X>| with_field.requires((value, m)),
    ensures
        r@.len() == candidates@.len(),
        forall|i: int| 0 <= i < r@.len() ==> #[trigger] is_rebuilt_copy(*value, candidates@[i]@, key_fn, with_field, r@[i]),
{
    let n = candidates.len();
    let ghost cands = candidates@;
    let mut rest = reversed(candidates);
    let mut r: Vec<V> = Vec::new();
    while rest.len() > 0
        invariant
            obeys_cmp::<K>(),
            forall|x: X| key_fn.requires((&x,)),
            forall|m: BTreeMap<K, X>| with_field.requires((value, m)),
            rest@.len() + r@.len() == n,
            n == cands.len(),
            forall|j: int| 0 <= j < rest@.len() ==> rest@[j] == #[trigger] cands[n - 1 - j],
            forall|i: int| 0 <= i < r@.len() ==> #[trigger] is_rebuilt_copy(*value, cands[i]@, key_fn, with_field, r@[i]),
        decreases rest@.len(),
    {
        let ghost k = r@.len() as int;
        let ghost before = rest@;
        assert(before[before.len() - 1] == cands[n - 1 - (before.len() - 1)]);
        match rest.pop() {
            Some(c) => {
                assert(c == cands[k]);
                let m = rebuild_keyed_map(c, &key_fn);
                let ghost gm = m;
                let ghost prev = r@;
                let v = with_field(value, m);
                r.push(v);
                assert(keyed_by(cands[k]@, key_fn, gm@) && with_field.ensures((value, gm), r@[k]));
                assert(is_rebuilt_copy(*value, cands[k]@, key_fn, with_field, r@[k]));
                assert forall|i: int| 0 <= i < r@.len() implies #[trigger] is_rebuilt_copy(*value, cands[i]@, key_fn, with_field, r@[i]) by {
                    if i < k {
                        assert(r@[i] == prev[i]);
                    }
                }
            },
            None => {},
        }
    }
    r
}

/// Relies on `quickcheck::Arbitrary::shrink`: a finite sequence of smaller
/// candidates, of which nothing more is promised for a type in general.
#[verifier::external_body]
fn shrink_candidates<F: quickcheck::Arbitrary>(x: &F) -> (r: Vec<F>) {
    x.shrink().collect()
}

/// Relies on `<Vec<X> as quickcheck::Arbitrary>::shrink`: no candidate is
/// longer than `xs`; an empty `xs` has none, and otherwise the first
/// candidate is empty.
#[verifier::external_body]
fn shrink_vec_candidates<X: quickcheck::Arbitrary>(xs: &Vec<X>) -> (r: Vec<Vec<X>>)
    ensures
        forall|i: int| 0 <= i < r@.len() ==> (#[trigger] r@[i])@.len() <= xs@.len(),
        xs@.len() == 0 ==> r@.len() == 0,
        xs@.len() > 0 ==> r@.len() > 0 && r@[0]@.len() == 0,
{
    quickcheck::Arbitrary::shrink(xs).collect()
}

/// Relies on `BTreeMap::values`: one value per entry, which are cloned.
#[verifier::external_body]
fn map_values<K, X: Clone>(m: &BTreeMap<K, X>) -> (r: Vec<X>)
    ensures
        r@.len() == m@.len(),
{
    m.values().cloned().collect()
}

/// `out` is `value` with one field set by `with_field` to some candidate.
pub open spec fn is_copy_with_field<V, F, W: Fn(&V, F) -> V>(value: V, with_field: W, out: V) -> bool {
    exists|c: F| with_field.ensures((&value, c), out)
}

/// `out` is `value` with its map field set by `with_field` to a map rebuilt
/// by `key_fn` from some list of at most `bound` values.
pub open spec fn is_shrunk_map_copy<V, X, K, KF: Fn(&X) -> K, W: Fn(&V, BTreeMap<K, X>) -> V>(
    value: V,
    bound: nat,
    key_fn: KF,
    with_field: W,
    out: V,
) -> bool {
    exists|c: Seq<X>| c.len() <= bound && #[trigger] is_rebuilt_copy(value, c, key_fn, with_field, out)
}

/// Shrinks the field `field` of `value` with quickcheck's shrinker for its
/// type: each result is `value` with that field set by `with_field` to one
/// of the candidates, in the shrinker's order.
pub fn shrink_a_field<V, F: quickcheck::Arbitrary, W: Fn(&V, F) -> V>(
    value: &V,
    field: &F,
    with_field: W,
) -> (r: Vec<V>)
    requires
        forall|c: F| with_field.requires((value, c)),
    ensures
        forall|i: int| 0 <= i < r@.len() ==> #[trigger] is_copy_with_field::<V, F, W>(*value, with_field, r@[i]),
{
    let candidates = shrink_candidates(field);
    let r = shrink_field(value, candidates, with_field);
    assert forall|i: int| 0 <= i < r@.len() implies #[trigger] is_copy_with_field::<V, F, W>(*value, with_field, r@[i]) by {
        assert(with_field.ensures((value, candidates@[i]), r@[i]));
    }
    r
}

/// Shrinks the map field `field` of `value`, whose keys are derived from
/// its values by `key_fn`: the list of values is shrunk with quickcheck's
/// shrinker for `Vec`, and each candidate list is rebuilt into a map by
/// `key_fn` and set into a copy of `value` by `with_field`.
pub fn shrink_a_map_field<V, X: quickcheck::Arbitrary, K: Ord, KF, W>(
    value: &V,
    field: &BTreeMap<K, X>,
    key_fn: KF,
    with_field: W,
) -> (r: Vec<V>)
    where
        KF: Fn(&X) -> K,
        W: Fn(&V, BTreeMap<K, X>) -> V,
    requires
        obeys_cmp::<K>(),
        forall|x: X| key_fn.requires((&x,)),
        forall|m: BTreeMap<K, X>| with_field.requires((value, m)),
    ensures
        forall|i: int| 0 <= i < r@.len() ==> #[trigger] is_shrunk_map_copy(*value, field@.len(), key_fn, with_field, r@[i]),
        field@.len() > 0 ==> r@.len() > 0 && is_rebuilt_copy(*value, Seq::<X>::empty(), key_fn, with_field, r@[0]),
{
    let xs = map_values(field);
    let candidates = shrink_vec_candidates(&xs);
    let ghost cands = candidates@;
    let r = shrink_map_field(value, candidates, key_fn, with_field);
    assert forall|i: int| 0 <= i < r@.len() implies #[trigger] is_shrunk_map_copy(*value, field@.len(), key_fn, with_field, r@[i]) by {
        assert(cands[i]@.len() <= field@.len());
        assert(is_rebuilt_copy(*value, cands[i]@, key_fn, with_field, r@[i]));
    }
    if field.len() > 0 {
        assert(cands[0]@ =~= Seq::<X>::empty());
        assert(is_rebuilt_copy(*value, cands[0]@, key_fn, with_field, r@[0]));
    }
    r
}

/// Where `with_field` sets the field that `get` reads and keeps what `rest`
/// reads, each copy that `shrink_field` makes agrees with `value` outside
/// that field and holds its own candidate in it; so where every candidate
/// is `smaller` than the field's value, each copy's field is too.
pub proof fn lemma_shrink_field_changes_one_field<V, F, R, W: Fn(&V, F) -> V>(
    value: V,
    candidates: Seq<F>,
    with_field: W,
    out: Seq<V>,
    get: spec_fn(V) -> F,
    rest: spec_fn(V) -> R,
    smaller: spec_fn(F, F) -> bool,
)
    requires
        forall|v: V, c: F, o: V| #[trigger] with_field.ensures((&v, c), o) ==> get(o) == c && rest(o) == rest(v),
        out.len() == candidates.len(),
        forall|i: int| 0 <= i < out.len() ==> with_field.ensures((&value, candidates[i]), #[trigger] out[i]),
    ensures
        forall|i: int| 0 <= i < out.len() ==> rest(#[trigger] out[i]) == rest(value) && get(out[i]) == candidates[i],
        (forall|i: int| 0 <= i < candidates.len() ==> smaller(#[trigger] candidates[i], get(value)))
            ==> forall|i: int| 0 <= i < out.len() ==> smaller(get(#[trigger] out[i]), get(value)),
{
    assert forall|i: int| 0 <= i < out.len() implies rest(#[trigger] out[i]) == rest(value) && get(out[i]) == candidates[i] by {
        assert(with_field.ensures((&value, candidates[i]), out[i]));
    }
}

/// Where `with_field` sets the map field that `field_of` reads, each copy
/// that `shrink_map_field` or `shrink_a_map_field` makes has a map field in
/// which every key is the one `key_fn` derives from its value, with no more
/// entries than `bound`; a copy rebuilt from no values has an empty map.
pub proof fn lemma_shrunk_map_copies_keep_keys<V, X, K, KF: Fn(&X) -> K, W: Fn(&V, BTreeMap<K, X>) -> V>(
    value: V,
    bound: nat,
    key_fn: KF,
    with_field: W,
    out: Seq<V>,
    field_of: spec_fn(V) -> Map<K, X>,
)
    requires
        forall|v: V, m: BTreeMap<K, X>, o: V| #[trigger] with_field.ensures((&v, m), o) ==> field_of(o) == m@,
        forall|i: int| 0 <= i < out.len() ==> #[trigger] is_shrunk_map_copy(value, bound, key_fn, with_field, out[i]),
    ensures
        forall|i: int| 0 <= i < out.len() ==> (#[trigger] field_of(out[i])).len() <= bound,
        forall|i: int, k: K| 0 <= i < out.len() && #[trigger] field_of(out[i]).contains_key(k)
            ==> key_fn.ensures((&field_of(out[i])[k],), k),
        forall|i: int| 0 <= i < out.len() && is_rebuilt_copy(value, Seq::<X>::empty(), key_fn, with_field, #[trigger] out[i])
            ==> field_of(out[i]) == Map::<K, X>::empty(),
{
    assert forall|i: int| 0 <= i < out.len() implies (#[trigger] field_of(out[i])).len() <= bound
        && forall|k: K| #[trigger] field_of(out[i]).contains_key(k) ==> key_fn.ensures((&field_of(out[i])[k],), k) by {
        assert(is_shrunk_map_copy(value, bound, key_fn, with_field, out[i]));
        let c = choose|c: Seq<X>| c.len() <= bound && #[trigger] is_rebuilt_copy(value, c, key_fn, with_field, out[i]);
        let m = choose|m: BTreeMap<K, X>| keyed_by(c, key_fn, m@) && with_field.ensures((&value, m), out[i]);
        lemma_keyed_map_consistent(c, key_fn, m@);
    }
    assert forall|i: int| 0 <= i < out.len() && is_rebuilt_copy(value, Seq::<X>::empty(), key_fn, with_field, #[trigger] out[i])
        implies field_of(out[i]) == Map::<K, X>::empty() by {
        let m = choose|m: BTreeMap<K, X>| keyed_by(Seq::<X>::empty(), key_fn, m@) && with_field.ensures((&value, m), out[i]);
        lemma_keyed_map_consistent(Seq::<X>::empty(), key_fn, m@);
    }
}

} // verus!
