//! The lexicographic order on byte strings, which is the order of indices.
use vstd::prelude::*;

verus! {

/// `a` and `b` agree before position `i`, and there `a` holds the smaller byte.
pub open spec fn lt_at(a: Seq<u8>, b: Seq<u8>, i: int) -> bool {
    &&& 0 <= i < a.len()
    &&& i < b.len()
    &&& a.take(i) == b.take(i)
    &&& a[i] < b[i]
}

/// `a` is a proper prefix of `b`.
pub open spec fn is_proper_prefix(a: Seq<u8>, b: Seq<u8>) -> bool {
    a.len() < b.len() && b.take(a.len() as int) == a
}

/// Byte-wise lexicographic order: `a` comes first where the two first differ,
/// or `a` is a proper prefix of `b`.
pub open spec fn bytes_lt(a: Seq<u8>, b: Seq<u8>) -> bool {
    (exists|i: int| lt_at(a, b, i)) || is_proper_prefix(a, b)
}

/// Two sequences that agree up to `n` agree at every earlier position.
pub proof fn lemma_take_agree(a: Seq<u8>, b: Seq<u8>, n: int, i: int)
    requires
        0 <= i < n <= a.len(),
        n <= b.len(),
        a.take(n) == b.take(n),
    ensures
        a[i] == b[i],
        a.take(i) == b.take(i),
{
    assert(a.take(n)[i] == a[i]);
    assert(b.take(n)[i] == b[i]);
    assert(a.take(i) =~= a.take(n).take(i));
    assert(b.take(i) =~= b.take(n).take(i));
}

/// No byte string comes before itself.
pub proof fn lemma_lt_irreflexive(a: Seq<u8>)
    ensures
        !bytes_lt(a, a),
{
}

/// Two byte strings are never each before the other.
pub proof fn lemma_lt_asymmetric(a: Seq<u8>, b: Seq<u8>)
    requires
        bytes_lt(a, b),
    ensures
        !bytes_lt(b, a),
{
    if exists|i: int| lt_at(a, b, i) {
        let i = choose|i: int| lt_at(a, b, i);
        assert forall|j: int| !lt_at(b, a, j) by {
            if lt_at(b, a, j) {
                if j < i {
                    lemma_take_agree(a, b, i, j);
                } else if i < j {
                    lemma_take_agree(a, b, j, i);
                }
            }
        }
        if is_proper_prefix(b, a) {
            lemma_take_agree(b, a.take(b.len() as int), b.len() as int, i);
            assert(a.take(b.len() as int)[i] == a[i]);
        }
    } else {
        assert forall|j: int| !lt_at(b, a, j) by {
            if lt_at(b, a, j) {
                assert(b.take(a.len() as int)[j] == b[j]);
            }
        }
    }
}

/// The order is transitive.
pub proof fn lemma_lt_transitive(a: Seq<u8>, b: Seq<u8>, c: Seq<u8>)
    requires
        bytes_lt(a, b),
        bytes_lt(b, c),
    ensures
        bytes_lt(a, c),
{
    if exists|i: int| lt_at(a, b, i) {
        let i = choose|i: int| lt_at(a, b, i);
        if exists|j: int| lt_at(b, c, j) {
            let j = choose|j: int| lt_at(b, c, j);
            if i < j {
                lemma_take_agree(b, c, j, i);
                assert(lt_at(a, c, i));
            } else if j < i {
                lemma_take_agree(a, b, i, j);
                assert(lt_at(a, c, j));
            } else {
                assert(lt_at(a, c, i));
            }
        } else {
            let n = b.len() as int;
            assert(c.take(n)[i] == c[i]);
            assert(c.take(i) =~= c.take(n).take(i));
            assert(lt_at(a, c, i));
        }
    } else {
        let n = a.len() as int;
        if exists|j: int| lt_at(b, c, j) {
            let j = choose|j: int| lt_at(b, c, j);
            if j < n {
                assert(b.take(n)[j] == b[j]);
                assert(a.take(j) =~= b.take(n).take(j));
                assert(b.take(j) =~= b.take(n).take(j));
                assert(lt_at(a, c, j));
            } else {
                assert(a =~= b.take(j).take(n));
                assert(c.take(n) =~= c.take(j).take(n));
                assert(is_proper_prefix(a, c));
            }
        } else {
            assert(c.take(n) =~= c.take(b.len() as int).take(n));
            assert(is_proper_prefix(a, c));
        }
    }
}

/// A common first byte does not change the order.
pub proof fn lemma_lt_cons(c: u8, x: Seq<u8>, y: Seq<u8>)
    ensures
        bytes_lt(seq![c] + x, seq![c] + y) == bytes_lt(x, y),
{
    let cx = seq![c] + x;
    let cy = seq![c] + y;
    if bytes_lt(x, y) {
        if exists|i: int| lt_at(x, y, i) {
            let i = choose|i: int| lt_at(x, y, i);
            assert(cx.take(i + 1) =~= seq![c] + x.take(i));
            assert(cy.take(i + 1) =~= seq![c] + y.take(i));
            assert(lt_at(cx, cy, i + 1));
        } else {
            assert(cy.take(cx.len() as int) =~= seq![c] + y.take(x.len() as int));
        }
    }
    if bytes_lt(cx, cy) {
        if exists|i: int| lt_at(cx, cy, i) {
            let i = choose|i: int| lt_at(cx, cy, i);
            assert(cx[0] == cy[0]);
            assert(i != 0);
            assert(x.take(i - 1) =~= cx.take(i).drop_first());
            assert(y.take(i - 1) =~= cy.take(i).drop_first());
            assert(lt_at(x, y, i - 1));
        } else {
            assert(y.take(x.len() as int) =~= cy.take(cx.len() as int).drop_first());
            assert(x =~= cx.drop_first());
        }
    }
}

/// A byte string comes before any other whose first byte is larger.
pub proof fn lemma_lt_head(a: Seq<u8>, b: Seq<u8>)
    requires
        a.len() > 0,
        b.len() > 0,
        a[0] < b[0],
    ensures
        bytes_lt(a, b),
{
    assert(a.take(0) =~= b.take(0));
    assert(lt_at(a, b, 0));
}

} // verus!
