//! Facts that relate several operations on indices.
use crate::fract_index::{between_index, decode_text, is_valid_index, lemma_between_index};
use crate::hex::{hex_of, lemma_hex_round_trip};
use crate::order::{bytes_lt, lemma_lt_asymmetric, lemma_lt_irreflexive, lemma_lt_transitive};
use vstd::prelude::*;

verus! {

/// `between` makes nothing from an index and itself, nor from two indices
/// given in the wrong order.
pub proof fn lemma_between_misuse(x: Seq<u8>, y: Seq<u8>)
    requires
        is_valid_index(x),
        is_valid_index(y),
        bytes_lt(x, y),
    ensures
        between_index(x, x) is None,
        between_index(y, x) is None,
{
    lemma_between_index(x, x);
    lemma_lt_irreflexive(x);
    lemma_between_index(y, x);
    lemma_lt_asymmetric(x, y);
}

/// Decoding the text of an index gives the index back.
pub proof fn lemma_text_round_trip(x: Seq<u8>)
    requires
        is_valid_index(x),
    ensures
        decode_text(hex_of(x)) == Ok::<Seq<u8>, crate::fract_index::DecodeError>(x),
{
    lemma_hex_round_trip(x);
}

/// Every index in `s` is valid.
pub open spec fn all_valid(s: Seq<Seq<u8>>) -> bool {
    forall|i: int| 0 <= i < s.len() ==> is_valid_index(#[trigger] s[i])
}

/// Every index in `s` comes before every later one.
pub open spec fn strictly_sorted(s: Seq<Seq<u8>>) -> bool {
    forall|i: int, j: int| 0 <= i < j < s.len() ==> bytes_lt(#[trigger] s[i], #[trigger] s[j])
}

/// `between` makes an index from each two neighbours in `s`.
pub open spec fn neighbours_have_between(s: Seq<Seq<u8>>) -> bool {
    forall|i: int| 0 <= i < s.len() - 1 ==> (#[trigger] between_index(s[i], s[i + 1])) is Some
}

/// `s` with the index that `between` makes from each two neighbours put
/// between them.
pub open spec fn bisect(s: Seq<Seq<u8>>) -> Seq<Seq<u8>> {
    Seq::new(
        if s.len() == 0 {
            0
        } else {
            (2 * s.len() - 1) as nat
        },
        |k: int|
            if k % 2 == 0 {
                s[k / 2]
            } else {
                match between_index(s[k / 2], s[k / 2 + 1]) {
                    Some(z) => z,
                    None => Seq::empty(),
                }
            },
    )
}

/// `s` bisected `n` times over.
pub open spec fn bisect_times(s: Seq<Seq<u8>>, n: nat) -> Seq<Seq<u8>>
    decreases n,
{
    if n == 0 {
        s
    } else {
        bisect(bisect_times(s, (n - 1) as nat))
    }
}

/// Bisecting a sorted sequence of indices never fails, and gives a sorted
/// sequence of indices.
pub proof fn lemma_bisect(s: Seq<Seq<u8>>)
    requires
        all_valid(s),
        strictly_sorted(s),
    ensures
        neighbours_have_between(s),
        all_valid(bisect(s)),
        strictly_sorted(bisect(s)),
{
    let t = bisect(s);
    assert forall|i: int| 0 <= i < s.len() - 1 implies (#[trigger] between_index(
        s[i],
        s[i + 1],
    )) is Some by {
        lemma_between_index(s[i], s[i + 1]);
    }
    // An odd position holds an index strictly between its two neighbours.
    assert forall|k: int| 0 <= k < t.len() && k % 2 == 1 implies is_valid_index(#[trigger] t[k])
        && bytes_lt(s[k / 2], t[k]) && bytes_lt(t[k], s[k / 2 + 1]) by {
        lemma_between_index(s[k / 2], s[k / 2 + 1]);
    }
    assert forall|k: int| 0 <= k < t.len() implies is_valid_index(#[trigger] t[k]) by {
        if k % 2 == 1 {
            assert(is_valid_index(t[k]));
        }
    }
    assert forall|k1: int, k2: int| 0 <= k1 < k2 < t.len() implies bytes_lt(
        #[trigger] t[k1],
        #[trigger] t[k2],
    ) by {
        let (i1, i2) = (k1 / 2, k2 / 2);
        // The index at or after position `k1` in `s`, and the one at or
        // before `k2`.
        let hi1 = if k1 % 2 == 0 {
            i1
        } else {
            i1 + 1
        };
        assert(k1 % 2 == 1 ==> bytes_lt(t[k1], s[hi1]));
        assert(k2 % 2 == 1 ==> bytes_lt(s[i2], t[k2]));
        assert(hi1 <= i2);
        if k1 % 2 == 0 && k2 % 2 == 0 {
            assert(bytes_lt(s[i1], s[i2]));
        } else if k1 % 2 == 0 {
            if i1 < i2 {
                lemma_lt_transitive(s[i1], s[i2], t[k2]);
            }
        } else if k2 % 2 == 0 {
            if hi1 < i2 {
                lemma_lt_transitive(t[k1], s[hi1], s[i2]);
            }
        } else {
            if hi1 < i2 {
                lemma_lt_transitive(t[k1], s[hi1], s[i2]);
            }
            lemma_lt_transitive(t[k1], s[i2], t[k2]);
        }
    }
}

/// Bisecting a sorted sequence of indices any number of times over never
/// fails, and gives a sorted sequence of indices.
pub proof fn lemma_bisect_times(s: Seq<Seq<u8>>, n: nat)
    requires
        all_valid(s),
        strictly_sorted(s),
    ensures
        neighbours_have_between(bisect_times(s, n)),
        all_valid(bisect_times(s, n)),
        strictly_sorted(bisect_times(s, n)),
    decreases n,
{
    if n > 0 {
        lemma_bisect_times(s, (n - 1) as nat);
        lemma_bisect(bisect_times(s, (n - 1) as nat));
    }
    lemma_bisect(bisect_times(s, n));
}

} // verus!
