//! Random byte sequences whose length follows a geometric distribution,
//! governed by how often a stop symbol occurs in the alphabet.
use vstd::prelude::*;

use crate::random::choose_byte;

verus! {

/// One end of a length range, in the manner of `std::ops::Bound`.
#[derive(Clone, Copy, Debug, PartialEq, Eq)]
pub enum LenBound {
    Unbounded,
    Included(usize),
    Excluded(usize),
}

/// The least length that a range starting at `start` admits.
pub open spec fn spec_min_len(start: LenBound) -> nat {
    match start {
        LenBound::Unbounded => 0,
        LenBound::Included(n) => n as nat,
        LenBound::Excluded(n) => n as nat + 1,
    }
}

/// The exclusive upper limit on lengths of a range ending at `end`. With no
/// end, lengths are still limited by what a `Vec` can hold, `usize::MAX`.
pub open spec fn spec_len_limit(end: LenBound) -> nat {
    match end {
        LenBound::Unbounded => usize::MAX as nat + 1,
        LenBound::Included(n) => n as nat + 1,
        LenBound::Excluded(n) => n as nat,
    }
}

/// Whether a symbol is other than the stop symbol.
pub open spec fn is_not_stopper(stopper: u8) -> spec_fn(u8) -> bool {
    |c: u8| c != stopper
}

/// The alphabet without the stop symbol, multiplicities and order kept.
pub open spec fn spec_non_stop(alphabet: Seq<u8>, stopper: u8) -> Seq<u8> {
    alphabet.filter(is_not_stopper(stopper))
}

/// Whether a generated sequence of length `len` grows by the drawn symbol
/// `ch`: the symbol is not the stopper and the longer sequence still lies
/// under the range's limit.
pub open spec fn spec_continues(len: nat, ch: u8, stopper: u8, end: LenBound) -> bool {
    ch != stopper && len + 1 < spec_len_limit(end)
}

fn min_len_of(start: LenBound) -> (r: usize)
    requires
        start != LenBound::Excluded(usize::MAX),
    ensures
        r == spec_min_len(start),
{
    match start {
        LenBound::Unbounded => 0,
        LenBound::Included(n) => n,
        LenBound::Excluded(n) => n + 1,
    }
}

/// Decides one step of the extension phase: after a sequence of length
/// `len`, the symbol `ch` has been drawn; `true` means append it and go on,
/// `false` means stop here.
pub fn continues(len: usize, ch: u8, stopper: u8, end: LenBound) -> (r: bool)
    ensures
        r == spec_continues(len as nat, ch, stopper, end),
{
    if ch == stopper {
        return false;
    }
    match end {
        LenBound::Unbounded => len < usize::MAX,
        LenBound::Included(n) => len < n,
        LenBound::Excluded(n) => n > 0 && len < n - 1,
    }
}

/// The symbols of `alphabet` other than `stopper`, in order and with their
/// repeats; drawing uniformly from them is drawing from `alphabet` until a
/// symbol other than `stopper` comes.
pub fn non_stop_symbols(alphabet: &[u8], stopper: u8) -> (r: Vec<u8>)
    ensures
        r@ == spec_non_stop(alphabet@, stopper),
{
    let mut r: Vec<u8> = Vec::new();
    let mut i: usize = 0;
    while i < alphabet.len()
        invariant
            i <= alphabet@.len(),
            r@ == spec_non_stop(alphabet@.take(i as int), stopper),
        decreases alphabet@.len() - i,
    {
        proof {
            assert(alphabet@.take(i as int + 1) == alphabet@.take(i as int).push(alphabet@[i as int]));
            alphabet@.take(i as int).lemma_filter_push(alphabet@[i as int], is_not_stopper(stopper));
        }
        if alphabet[i] != stopper {
            r.push(alphabet[i]);
        }
        i = i + 1;
    }
    assert(alphabet@.take(alphabet@.len() as int) == alphabet@);
    r
}

/// Generates a sequence of symbols of `alphabet` other than `stopper`,
/// whose length lies in the range from `start` to `end`.
///
/// With `p` the share of `stopper` among the symbols of `alphabet` (repeats
/// count), a length `n` at or above the least one, `m`, comes with
/// probability `p (1 - p)^(n - m)`: first `m` symbols other than `stopper`
/// are drawn, then symbols are drawn and appended until `stopper` is drawn
/// or the next one would reach the range's end. An empty range gives a
/// sequence of its least length.
pub fn gen_bytes(
    g: &mut quickcheck::Gen,
    alphabet: &[u8],
    stopper: u8,
    start: LenBound,
    end: LenBound,
) -> (r: Vec<u8>)
    requires
        alphabet@.len() > 0,
        start != LenBound::Excluded(usize::MAX),
        spec_min_len(start) > 0 ==> exists|i: int|
            0 <= i < alphabet@.len() && alphabet@[i] != stopper,
    ensures
        spec_min_len(start) <= r@.len(),
        r@.len() < spec_len_limit(end) || r@.len() == spec_min_len(start),
        spec_min_len(start) < spec_len_limit(end) ==> r@.len() < spec_len_limit(end),
        forall|i: int| 0 <= i < r@.len() ==> alphabet@.contains(#[trigger] r@[i]) && r@[i] != stopper,
{
    broadcast use Seq::lemma_filter_contains_rev, Seq::lemma_filter_contains;
    let min_len = min_len_of(start);
    let pad = non_stop_symbols(alphabet, stopper);
    proof {
        if min_len > 0 {
            let i = choose|i: int| 0 <= i < alphabet@.len() && alphabet@[i] != stopper;
            assert(pad@.contains(alphabet@[i]));
        }
    }
    let mut res: Vec<u8> = Vec::new();
    while res.len() < min_len
        invariant
            min_len == spec_min_len(start),
            res@.len() <= min_len,
            min_len > 0 ==> pad@.len() > 0,
            pad@ == spec_non_stop(alphabet@, stopper),
            forall|i: int| 0 <= i < res@.len() ==> alphabet@.contains(#[trigger] res@[i]) && res@[i] != stopper,
        decreases min_len - res@.len(),
    {
        if let Some(ch) = choose_byte(g, pad.as_slice()) {
            proof {
                let k = choose|k: int| 0 <= k < pad@.len() && pad@[k] == ch;
                alphabet@.lemma_filter_pred(is_not_stopper(stopper), k);
                alphabet@.lemma_filter_contains_rev(is_not_stopper(stopper), ch);
                assert(ch != stopper);
            }
            res.push(ch);
        }
    }
    loop
        invariant
            min_len == spec_min_len(start),
            min_len <= res@.len(),
            res@.len() < spec_len_limit(end) || res@.len() == min_len,
            forall|i: int| 0 <= i < res@.len() ==> alphabet@.contains(#[trigger] res@[i]) && res@[i] != stopper,
        decreases spec_len_limit(end) - res@.len(),
    {
        match choose_byte(g, alphabet) {
            Some(ch) => {
                if continues(res.len(), ch, stopper, end) {
                    res.push(ch);
                } else {
                    break;
                }
            },
            None => {
                break;
            },
        }
    }
    res
}

} // verus!
