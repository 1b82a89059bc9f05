//! Fractional indices: byte strings ending in a terminator byte, ordered
//! lexicographically, between any two of which a third can be made.
use crate::hex::{all_hex, bytes_of_hex, bytes_to_hex, hex_of, hex_to_bytes};
use crate::order::{
    bytes_lt, is_proper_prefix, lemma_lt_asymmetric, lemma_lt_cons, lemma_lt_head,
    lemma_lt_irreflexive, lt_at,
};
use vstd::prelude::*;
use vstd::slice::slice_to_vec;
use vstd::string::*;

verus! {

/// The byte that ends every index; it stands for an endless run of itself.
pub const TERMINATOR: u8 = 128;

/// A stored index: not empty, and its last byte is the terminator.
pub open spec fn is_valid_index(b: Seq<u8>) -> bool {
    b.len() > 0 && b.last() == TERMINATOR
}

/// The bytes, before the terminator, of the index that `before` makes from
/// `x`: leading zero bytes are kept; at the first other byte the string is
/// cut there if that byte is above the terminator, and after it, lowered by
/// one, if not.
pub open spec fn before_bytes(x: Seq<u8>) -> Seq<u8>
    decreases x.len(),
{
    if x.len() == 0 {
        Seq::empty()
    } else if x[0] > TERMINATOR {
        Seq::empty()
    } else if x[0] > 0 {
        seq![(x[0] - 1) as u8]
    } else {
        seq![x[0]] + before_bytes(x.drop_first())
    }
}

/// The bytes, before the terminator, of the index that `after` makes from
/// `x`: leading 255 bytes are kept; at the first other byte the string is cut
/// there if that byte is below the terminator, and after it, raised by one,
/// if not.
pub open spec fn after_bytes(x: Seq<u8>) -> Seq<u8>
    decreases x.len(),
{
    if x.len() == 0 {
        Seq::empty()
    } else if x[0] < TERMINATOR {
        Seq::empty()
    } else if x[0] < 255 {
        seq![(x[0] + 1) as u8]
    } else {
        seq![x[0]] + after_bytes(x.drop_first())
    }
}

/// The index that `before` makes from `x`.
pub open spec fn before_index(x: Seq<u8>) -> Seq<u8> {
    before_bytes(x).push(TERMINATOR)
}

/// The index that `after` makes from `x`.
pub open spec fn after_index(x: Seq<u8>) -> Seq<u8> {
    after_bytes(x).push(TERMINATOR)
}

/// `p` in front of the bytes in `o`, if there are any.
pub open spec fn prepend(p: Seq<u8>, o: Option<Seq<u8>>) -> Option<Seq<u8>> {
    match o {
        Some(z) => Some(p + z),
        None => None,
    }
}

/// The bytes, before the terminator, of the index that `between` makes from
/// `l` and `r`, or `None` where it makes none. Common leading bytes are kept.
/// At the first position where the two differ and neither has only its
/// terminator left, a gap of two or more is split at its middle, a gap of one
/// is widened by `after` on the rest of `l`, and a larger byte in `l` gives
/// `None`. Where one of them has only its terminator left, the other must lie
/// on the far side of it, and is followed by `before` (for `r`) or `after`
/// (for `l`) on its rest; equal indices give `None`.
pub open spec fn between_bytes(l: Seq<u8>, r: Seq<u8>) -> Option<Seq<u8>>
    decreases l.len(),
{
    if l.len() <= 1 || r.len() <= 1 {
        if l.len() < r.len() {
            if r[0] < TERMINATOR {
                None
            } else {
                Some(seq![r[0]] + before_bytes(r.drop_first()))
            }
        } else if l.len() > r.len() {
            if l[0] >= TERMINATOR {
                None
            } else {
                Some(seq![l[0]] + after_bytes(l.drop_first()))
            }
        } else {
            None
        }
    } else if l[0] == r[0] {
        prepend(seq![l[0]], between_bytes(l.drop_first(), r.drop_first()))
    } else if l[0] + 1 < r[0] {
        Some(seq![(l[0] + (r[0] - l[0]) / 2) as u8])
    } else if l[0] + 1 == r[0] {
        Some(seq![l[0]] + after_bytes(l.drop_first()))
    } else {
        None
    }
}

/// The index that `between` makes from `l` and `r`, if any.
pub open spec fn between_index(l: Seq<u8>, r: Seq<u8>) -> Option<Seq<u8>> {
    match between_bytes(l, r) {
        Some(z) => Some(z.push(TERMINATOR)),
        None => None,
    }
}

/// What `before` makes comes first.
pub proof fn lemma_before_index(x: Seq<u8>)
    requires
        is_valid_index(x),
    ensures
        bytes_lt(before_index(x), x),
    decreases x.len(),
{
    let b = before_index(x);
    if x[0] > 0 || x.len() == 1 {
        lemma_lt_head(b, x);
    } else {
        let rest = x.drop_first();
        lemma_before_index(rest);
        lemma_lt_cons(x[0], before_index(rest), rest);
        assert(b =~= seq![x[0]] + before_index(rest));
        assert(x =~= seq![x[0]] + rest);
    }
}

/// What `after` makes comes last.
pub proof fn lemma_after_index(x: Seq<u8>)
    requires
        is_valid_index(x),
    ensures
        bytes_lt(x, after_index(x)),
    decreases x.len(),
{
    let a = after_index(x);
    if x[0] < 255 || x.len() == 1 {
        lemma_lt_head(x, a);
    } else {
        let rest = x.drop_first();
        lemma_after_index(rest);
        lemma_lt_cons(x[0], rest, after_index(rest));
        assert(a =~= seq![x[0]] + after_index(rest));
        assert(x =~= seq![x[0]] + rest);
    }
}

/// `between` makes an index exactly when `l` comes before `r`, and the index it
/// makes lies strictly between the two.
pub proof fn lemma_between_index(l: Seq<u8>, r: Seq<u8>)
    requires
        is_valid_index(l),
        is_valid_index(r),
    ensures
        between_index(l, r) is Some <==> bytes_lt(l, r),
        between_index(l, r) matches Some(z) ==> is_valid_index(z) && bytes_lt(l, z) && bytes_lt(
            z,
            r,
        ),
    decreases l.len(),
{
    let l0 = seq![l[0]];
    let r0 = seq![r[0]];
    if l.len() <= 1 || r.len() <= 1 {
        if l.len() < r.len() {
            // `l` is the terminator alone.
            let rest = r.drop_first();
            assert(r =~= r0 + rest);
            if r[0] < TERMINATOR {
                lemma_lt_head(r, l);
                lemma_lt_asymmetric(r, l);
            } else {
                let z = r0 + before_index(rest);
                assert(between_index(l, r) == Some(z)) by {
                    assert((r0 + before_bytes(rest)).push(TERMINATOR) =~= z);
                }
                lemma_before_index(rest);
                lemma_lt_cons(r[0], before_index(rest), rest);
                if r[0] > TERMINATOR {
                    lemma_lt_head(l, z);
                    lemma_lt_head(l, r);
                } else {
                    assert(z.take(1) =~= l);
                    assert(r.take(1) =~= l);
                    assert(is_proper_prefix(l, z));
                    assert(is_proper_prefix(l, r));
                }
            }
        } else if l.len() > r.len() {
            // `r` is the terminator alone.
            let rest = l.drop_first();
            assert(l =~= l0 + rest);
            if l[0] >= TERMINATOR {
                if l[0] > TERMINATOR {
                    lemma_lt_head(r, l);
                } else {
                    assert(l.take(1) =~= r);
                    assert(is_proper_prefix(r, l));
                }
                lemma_lt_asymmetric(r, l);
            } else {
                let z = l0 + after_index(rest);
                assert(between_index(l, r) == Some(z)) by {
                    assert((l0 + after_bytes(rest)).push(TERMINATOR) =~= z);
                }
                lemma_after_index(rest);
                lemma_lt_cons(l[0], rest, after_index(rest));
                lemma_lt_head(z, r);
                lemma_lt_head(l, r);
            }
        } else {
            assert(l =~= r);
            lemma_lt_irreflexive(l);
        }
    } else {
        let lr = l.drop_first();
        let rr = r.drop_first();
        assert(l =~= l0 + lr);
        assert(r =~= r0 + rr);
        if l[0] == r[0] {
            lemma_between_index(lr, rr);
            lemma_lt_cons(l[0], lr, rr);
            match between_bytes(lr, rr) {
                Some(w) => {
                    let zr = w.push(TERMINATOR);
                    let z = l0 + zr;
                    assert(between_index(l, r) == Some(z)) by {
                        assert((l0 + w).push(TERMINATOR) =~= z);
                    }
                    lemma_lt_cons(l[0], lr, zr);
                    lemma_lt_cons(l[0], zr, rr);
                },
                None => {},
            }
        } else if l[0] + 1 < r[0] {
            let z = seq![(l[0] + (r[0] - l[0]) / 2) as u8, TERMINATOR];
            assert(between_index(l, r) == Some(z)) by {
                assert(seq![(l[0] + (r[0] - l[0]) / 2) as u8].push(TERMINATOR) =~= z);
            }
            lemma_lt_head(l, z);
            lemma_lt_head(z, r);
            lemma_lt_head(l, r);
        } else if l[0] + 1 == r[0] {
            let z = l0 + after_index(lr);
            assert(between_index(l, r) == Some(z)) by {
                assert((l0 + after_bytes(lr)).push(TERMINATOR) =~= z);
            }
            lemma_after_index(lr);
            lemma_lt_cons(l[0], lr, after_index(lr));
            lemma_lt_head(z, r);
            lemma_lt_head(l, r);
        } else {
            lemma_lt_head(r, l);
            lemma_lt_asymmetric(r, l);
        }
    }
}

/// Where `a` stands relative to `b` in byte-wise lexicographic order.
pub open spec fn order_of(a: Seq<u8>, b: Seq<u8>) -> core::cmp::Ordering {
    if bytes_lt(a, b) {
        core::cmp::Ordering::Less
    } else if a == b {
        core::cmp::Ordering::Equal
    } else {
        core::cmp::Ordering::Greater
    }
}

/// Compares two byte strings lexicographically.
fn compare(a: &[u8], b: &[u8]) -> (r: core::cmp::Ordering)
    ensures
        r == order_of(a@, b@),
{
    let n = if a.len() < b.len() {
        a.len()
    } else {
        b.len()
    };
    let mut i: usize = 0;
    while i < n
        invariant
            i <= n,
            n <= a@.len(),
            n <= b@.len(),
            n == a@.len() || n == b@.len(),
            a@.take(i as int) == b@.take(i as int),
        decreases n - i,
    {
        if a[i] < b[i] {
            proof {
                assert(lt_at(a@, b@, i as int));
            }
            return core::cmp::Ordering::Less;
        }
        if a[i] > b[i] {
            proof {
                assert(lt_at(b@, a@, i as int));
                lemma_lt_asymmetric(b@, a@);
            }
            return core::cmp::Ordering::Greater;
        }
        proof {
            assert(a@.take(i + 1) =~= a@.take(i as int).push(a@[i as int]));
            assert(b@.take(i + 1) =~= b@.take(i as int).push(b@[i as int]));
        }
        i = i + 1;
    }
    if a.len() < b.len() {
        proof {
            assert(a@.take(n as int) =~= a@);
            assert(is_proper_prefix(a@, b@));
        }
        core::cmp::Ordering::Less
    } else if a.len() > b.len() {
        proof {
            assert(b@.take(n as int) =~= b@);
            assert(is_proper_prefix(b@, a@));
            lemma_lt_asymmetric(b@, a@);
        }
        core::cmp::Ordering::Greater
    } else {
        proof {
            assert(a@ =~= a@.take(n as int));
            assert(b@ =~= b@.take(n as int));
            lemma_lt_irreflexive(a@);
        }
        core::cmp::Ordering::Equal
    }
}

/// The bytes, without terminator, of an index before the one stored as `bytes`.
fn new_before(bytes: &[u8]) -> (r: Vec<u8>)
    requires
        is_valid_index(bytes@),
    ensures
        r@ == before_bytes(bytes@),
{
    let mut i: usize = 0;
    proof {
        assert(bytes@.skip(0) =~= bytes@);
        assert(bytes@.take(0) + before_bytes(bytes@) =~= before_bytes(bytes@));
    }
    while i < bytes.len()
        invariant
            i <= bytes@.len(),
            is_valid_index(bytes@),
            forall|j: int| 0 <= j < i ==> bytes@[j] == 0,
            before_bytes(bytes@) == bytes@.take(i as int) + before_bytes(bytes@.skip(i as int)),
        decreases bytes@.len() - i,
    {
        if bytes[i] > TERMINATOR {
            // The string cut short here, with the terminator after it, comes first.
            proof {
                assert(bytes@.take(i as int) + before_bytes(bytes@.skip(i as int)) =~= bytes@.take(
                    i as int,
                ));
            }
            return slice_to_vec(&bytes[0..i]);
        }
        if bytes[i] > 0 {
            // Lowering this byte and cutting after it comes first.
            let mut v = slice_to_vec(&bytes[0..i]);
            v.push(bytes[i] - 1);
            proof {
                assert(bytes@.take(i as int) + before_bytes(bytes@.skip(i as int)) =~= v@);
            }
            return v;
        }
        proof {
            assert(bytes@.skip(i as int).drop_first() =~= bytes@.skip(i + 1));
            assert(bytes@.take(i + 1) =~= bytes@.take(i as int) + seq![0u8]);
        }
        i = i + 1;
    }
    // The terminator is not zero, so the scan stops before the end.
    proof {
        assert(bytes@[bytes@.len() - 1] == 0);
    }
    Vec::new()
}

/// The bytes, without terminator, of an index after the one stored as `bytes`.
fn new_after(bytes: &[u8]) -> (r: Vec<u8>)
    requires
        is_valid_index(bytes@),
    ensures
        r@ == after_bytes(bytes@),
{
    let mut i: usize = 0;
    proof {
        assert(bytes@.skip(0) =~= bytes@);
        assert(bytes@.take(0) + after_bytes(bytes@) =~= after_bytes(bytes@));
    }
    while i < bytes.len()
        invariant
            i <= bytes@.len(),
            is_valid_index(bytes@),
            forall|j: int| 0 <= j < i ==> bytes@[j] == 255,
            after_bytes(bytes@) == bytes@.take(i as int) + after_bytes(bytes@.skip(i as int)),
        decreases bytes@.len() - i,
    {
        if bytes[i] < TERMINATOR {
            // The string cut short here, with the terminator after it, comes last.
            proof {
                assert(bytes@.take(i as int) + after_bytes(bytes@.skip(i as int)) =~= bytes@.take(
                    i as int,
                ));
            }
            return slice_to_vec(&bytes[0..i]);
        }
        if bytes[i] < 255 {
            // Raising this byte and cutting after it comes last.
            let mut v = slice_to_vec(&bytes[0..i]);
            v.push(bytes[i] + 1);
            proof {
                assert(bytes@.take(i as int) + after_bytes(bytes@.skip(i as int)) =~= v@);
            }
            return v;
        }
        proof {
            assert(bytes@.skip(i as int).drop_first() =~= bytes@.skip(i + 1));
            assert(bytes@.take(i + 1) =~= bytes@.take(i as int) + seq![255u8]);
        }
        i = i + 1;
    }
    // The terminator is below 255, so the scan stops before the end.
    proof {
        assert(bytes@[bytes@.len() - 1] == 255);
    }
    Vec::new()
}

/// The bytes, without terminator, of an index between the ones stored as `l`
/// and `r`, or `None` where `l` does not come before `r`.
fn new_between(l: &[u8], r: &[u8]) -> (res: Option<Vec<u8>>)
    requires
        is_valid_index(l@),
        is_valid_index(r@),
    ensures
        match res {
            Some(v) => between_bytes(l@, r@) == Some(v@),
            None => between_bytes(l@, r@) is None,
        },
{
    let shorter_len = if l.len() < r.len() {
        l.len() - 1
    } else {
        r.len() - 1
    };
    proof {
        assert(l@.take(0) =~= r@.take(0));
        assert(l@.skip(0) =~= l@);
        assert(r@.skip(0) =~= r@);
        assert(prepend(l@.take(0), between_bytes(l@, r@)) == between_bytes(l@, r@)) by {
            if let Some(z) = between_bytes(l@, r@) {
                assert(l@.take(0) + z =~= z);
            }
        }
    }
    for i in 0..shorter_len
        invariant
            is_valid_index(l@),
            is_valid_index(r@),
            shorter_len + 1 <= l@.len(),
            shorter_len + 1 <= r@.len(),
            shorter_len + 1 == l@.len() || shorter_len + 1 == r@.len(),
            l@.take(i as int) == r@.take(i as int),
            between_bytes(l@, r@) == prepend(
                l@.take(i as int),
                between_bytes(l@.skip(i as int), r@.skip(i as int)),
            ),
    {
        let a = l[i];
        let b = r[i];
        let ghost ls = l@.skip(i as int);
        let ghost rs = r@.skip(i as int);
        proof {
            assert(ls[0] == a && rs[0] == b);
            assert(ls.drop_first() =~= l@.skip(i + 1));
            assert(rs.drop_first() =~= r@.skip(i + 1));
        }
        if a < b && b - a > 1 {
            // Room at this byte: take the middle of the gap.
            let mut bytes = slice_to_vec(&l[0..i]);
            bytes.push(a + (b - a) / 2);
            return Some(bytes);
        }
        if a < b {
            // Adjacent bytes: keep this one of `l` and go past the rest of `l`.
            let (prefix, suffix) = l.split_at(i + 1);
            let mut bytes = slice_to_vec(prefix);
            let mut rest = new_after(suffix);
            bytes.append(&mut rest);
            proof {
                assert(l@.take(i + 1) =~= l@.take(i as int) + seq![a]);
                assert(bytes@ =~= l@.take(i as int) + (seq![a] + after_bytes(l@.skip(i + 1))));
            }
            return Some(bytes);
        }
        if a > b {
            // `r` comes first.
            return None;
        }
        proof {
            assert(l@.take(i + 1) =~= l@.take(i as int).push(a));
            assert(r@.take(i + 1) =~= r@.take(i as int).push(b));
            if let Some(z) = between_bytes(l@.skip(i + 1), r@.skip(i + 1)) {
                assert(l@.take(i as int) + (seq![a] + z) =~= l@.take(i + 1) + z);
            }
        }
    }
    let n = shorter_len;
    let ghost ls = l@.skip(n as int);
    let ghost rs = r@.skip(n as int);
    if l.len() < r.len() {
        let (prefix, suffix) = r.split_at(n + 1);
        if prefix[n] < TERMINATOR {
            // `r` comes first.
            return None;
        }
        let mut bytes = slice_to_vec(prefix);
        let mut rest = new_before(suffix);
        bytes.append(&mut rest);
        proof {
            assert(rs[0] == r@[n as int]);
            assert(rs.drop_first() =~= r@.skip(n + 1));
            assert(r@.take(n + 1) =~= l@.take(n as int) + seq![r@[n as int]]);
            assert(bytes@ =~= l@.take(n as int) + (seq![r@[n as int]] + before_bytes(
                r@.skip(n + 1),
            )));
        }
        Some(bytes)
    } else if l.len() > r.len() {
        let (prefix, suffix) = l.split_at(n + 1);
        if prefix[n] >= TERMINATOR {
            // `r` comes first, or is a prefix of `l`.
            return None;
        }
        let mut bytes = slice_to_vec(prefix);
        let mut rest = new_after(suffix);
        bytes.append(&mut rest);
        proof {
            assert(ls[0] == l@[n as int]);
            assert(ls.drop_first() =~= l@.skip(n + 1));
            assert(l@.take(n + 1) =~= l@.take(n as int) + seq![l@[n as int]]);
            assert(bytes@ =~= l@.take(n as int) + (seq![l@[n as int]] + after_bytes(
                l@.skip(n + 1),
            )));
        }
        Some(bytes)
    } else {
        // The two are equal.
        None
    }
}

/// Why a byte string or a text is not an index.
#[derive(Debug, Clone, Copy, PartialEq, Eq, Structural)]
pub enum DecodeError {
    /// The text is empty.
    EmptyString,
    /// The bytes do not end in the terminator.
    MissingTerminator,
    /// The text holds a character that is not a lowercase hexadecimal digit.
    InvalidChars,
}

impl DecodeError {
    /// A sentence that says what went wrong.
    pub fn to_string(&self) -> (r: String)
        ensures
            r@ == match self {
                DecodeError::EmptyString => "Attempted to decode an empty string as a fractional index."@,
                DecodeError::MissingTerminator => "Attempted to decode a corrupt fractional index (missing terminator)."@,
                DecodeError::InvalidChars => "Attempted to decode a corrupt fractional index (invalid characters)."@,
            },
    {
        match self {
            DecodeError::EmptyString => String::from_str(
                "Attempted to decode an empty string as a fractional index.",
            ),
            DecodeError::MissingTerminator => String::from_str(
                "Attempted to decode a corrupt fractional index (missing terminator).",
            ),
            DecodeError::InvalidChars => String::from_str(
                "Attempted to decode a corrupt fractional index (invalid characters).",
            ),
        }
    }
}

/// What decoding the text `s` gives: the bytes it spells, or why it spells no
/// index.
pub open spec fn decode_text(s: Seq<char>) -> Result<Seq<u8>, DecodeError> {
    if s.len() == 0 {
        Err(DecodeError::EmptyString)
    } else if !all_hex(s) {
        Err(DecodeError::InvalidChars)
    } else if !is_valid_index(bytes_of_hex(s)) {
        Err(DecodeError::MissingTerminator)
    } else {
        Ok(bytes_of_hex(s))
    }
}

/// An opaque key that is only useful for comparing with another one.
///
/// Before or after any index there is another, and between any two distinct
/// indices there is a third, so indices can order the items of a sorted
/// container or of a list that several parties edit at once.
#[derive(Debug, Eq, Ord)]
pub struct FractionalIndex(Vec<u8>);

impl View for FractionalIndex {
    type V = Seq<u8>;

    closed spec fn view(&self) -> Seq<u8> {
        self.0@
    }
}

impl FractionalIndex {
    #[verifier::type_invariant]
    closed spec fn well_formed(self) -> bool {
        is_valid_index(self.0@)
    }

    /// The index whose bytes are `bytes` followed by the terminator.
    pub fn from_vec_unterminated(bytes: Vec<u8>) -> (r: Self)
        ensures
            r@ == bytes@.push(TERMINATOR),
    {
        let mut bytes = bytes;
        bytes.push(TERMINATOR);
        FractionalIndex(bytes)
    }

    /// The index stored as `bytes`, which must end in the terminator.
    pub fn from_bytes(bytes: Vec<u8>) -> (r: Result<Self, DecodeError>)
        ensures
            match r {
                Ok(x) => is_valid_index(bytes@) && x@ == bytes@,
                Err(e) => !is_valid_index(bytes@) && e == DecodeError::MissingTerminator,
            },
    {
        if bytes.len() == 0 || bytes[bytes.len() - 1] != TERMINATOR {
            return Err(DecodeError::MissingTerminator);
        }
        Ok(FractionalIndex(bytes))
    }

    /// The stored bytes, terminator included.
    pub fn as_bytes(&self) -> (r: &[u8])
        ensures
            r@ == self@,
            is_valid_index(r@),
    {
        proof {
            use_type_invariant(self);
        }
        self.0.as_slice()
    }

    /// The text of this index, which orders as the index does.
    pub fn to_string(&self) -> (r: String)
        ensures
            r@ == hex_of(self@),
    {
        bytes_to_hex(self.0.as_slice())
    }

    /// The index whose text is `s`, as made by `to_string`.
    pub fn from_string(s: &str) -> (r: Result<Self, DecodeError>)
        ensures
            match r {
                Ok(x) => decode_text(s@) == Ok::<Seq<u8>, DecodeError>(x@),
                Err(e) => decode_text(s@) == Err::<Seq<u8>, DecodeError>(e),
            },
    {
        if s.is_empty() {
            return Err(DecodeError::EmptyString);
        }
        match hex_to_bytes(s) {
            Ok(bytes) => FractionalIndex::from_bytes(bytes),
            Err(_) => Err(DecodeError::InvalidChars),
        }
    }

    /// A new index that comes before `x`.
    pub fn new_before(x: &FractionalIndex) -> (r: FractionalIndex)
        ensures
            r@ == before_index(x@),
            bytes_lt(r@, x@),
    {
        proof {
            use_type_invariant(x);
            lemma_before_index(x@);
        }
        FractionalIndex::from_vec_unterminated(new_before(x.0.as_slice()))
    }

    /// A new index that comes strictly between `left` and `right`, or `None`
    /// where `left` does not come before `right`.
    pub fn new_between(left: &FractionalIndex, right: &FractionalIndex) -> (r: Option<
        FractionalIndex,
    >)
        ensures
            r is Some <==> bytes_lt(left@, right@),
            match r {
                Some(z) => between_index(left@, right@) == Some(z@) && bytes_lt(left@, z@)
                    && bytes_lt(z@, right@),
                None => between_index(left@, right@) is None,
            },
    {
        proof {
            use_type_invariant(left);
            use_type_invariant(right);
            lemma_between_index(left@, right@);
        }
        match new_between(left.0.as_slice(), right.0.as_slice()) {
            Some(bytes) => Some(FractionalIndex::from_vec_unterminated(bytes)),
            None => None,
        }
    }

    /// A new index that comes after `x`.
    pub fn new_after(x: &FractionalIndex) -> (r: FractionalIndex)
        ensures
            r@ == after_index(x@),
            bytes_lt(x@, r@),
    {
        proof {
            use_type_invariant(x);
            lemma_after_index(x@);
        }
        FractionalIndex::from_vec_unterminated(new_after(x.0.as_slice()))
    }
}

impl Default for FractionalIndex {
    /// The index made of the terminator alone, the midpoint from which others
    /// are made.
    fn default() -> (r: FractionalIndex)
        ensures
            r@ == seq![TERMINATOR],
    {
        FractionalIndex(vec![TERMINATOR])
    }
}

impl Clone for FractionalIndex {
    fn clone(&self) -> (r: FractionalIndex)
        ensures
            r@ == self@,
    {
        proof {
            use_type_invariant(self);
        }
        FractionalIndex(slice_to_vec(self.0.as_slice()))
    }
}

impl PartialEq for FractionalIndex {
    fn eq(&self, other: &FractionalIndex) -> (r: bool) {
        match compare(self.0.as_slice(), other.0.as_slice()) {
            core::cmp::Ordering::Equal => true,
            _ => false,
        }
    }
}

impl vstd::std_specs::cmp::PartialEqSpecImpl for FractionalIndex {
    open spec fn obeys_eq_spec() -> bool {
        true
    }

    open spec fn eq_spec(&self, other: &FractionalIndex) -> bool {
        self@ == other@
    }
}

impl PartialOrd for FractionalIndex {
    fn partial_cmp(&self, other: &FractionalIndex) -> (r: Option<core::cmp::Ordering>) {
        Some(compare(self.0.as_slice(), other.0.as_slice()))
    }
}

impl vstd::std_specs::cmp::PartialOrdSpecImpl for FractionalIndex {
    open spec fn obeys_partial_cmp_spec() -> bool {
        true
    }

    open spec fn partial_cmp_spec(&self, other: &FractionalIndex) -> Option<core::cmp::Ordering> {
        Some(order_of(self@, other@))
    }
}

} // verus!
