//! Sums of vectors with given coefficients, and the lists of coefficients
//! whose sum is zero: they leave room for the rank.

use crate::span::{
    all_wide, in_span, lemma_rank_of_spanned, lemma_row_in_span, lemma_span_push, lemma_span_xor, lemma_xor,
    lemma_zero_in_span, rk, xor, zero,
};
use vstd::prelude::*;

verus! {

/// The sum of the vectors of `p`, each `w` entries wide, whose coefficient in
/// `c` is 1.
pub open spec fn combo(p: Seq<Seq<bool>>, c: Seq<bool>, w: nat) -> Seq<bool>
    decreases p.len(),
{
    if p.len() == 0 {
        zero(w)
    } else {
        xor(
            combo(p.drop_last(), c.drop_last(), w),
            if c.last() {
                p.last()
            } else {
                zero(w)
            },
        )
    }
}

/// Every vector of `q` is a list of coefficients with which the vectors of
/// `p` sum to zero.
pub open spec fn all_cancel(p: Seq<Seq<bool>>, q: Seq<Seq<bool>>, w: nat) -> bool {
    forall|i: int| 0 <= i < q.len() ==> combo(p, #[trigger] q[i], w) == zero(w)
}

/// Every vector of the list without its last entry.
pub open spec fn all_cut(q: Seq<Seq<bool>>) -> Seq<Seq<bool>> {
    Seq::new(q.len(), |i: int| q[i].drop_last())
}

/// A sum of vectors is as wide as they are and lies in their span.
pub proof fn lemma_combo_in_span(p: Seq<Seq<bool>>, c: Seq<bool>, w: nat)
    requires
        all_wide(p, w),
    ensures
        combo(p, c, w).len() == w,
        in_span(p, combo(p, c, w)),
    decreases p.len(),
{
    if p.len() == 0 {
        lemma_zero_in_span(p, w);
    } else {
        let q = p.drop_last();
        let a = p.last();
        assert(all_wide(q, w));
        lemma_combo_in_span(q, c.drop_last(), w);
        let inner = combo(q, c.drop_last(), w);
        lemma_xor(inner, a, a);
        lemma_xor(inner, zero(w), zero(w));
    }
}

/// What lies in the span is a sum with some coefficients.
pub proof fn lemma_span_has_combo(p: Seq<Seq<bool>>, v: Seq<bool>, w: nat) -> (c: Seq<bool>)
    requires
        all_wide(p, w),
        v.len() == w,
        in_span(p, v),
    ensures
        c.len() == p.len(),
        combo(p, c, w) == v,
    decreases p.len(),
{
    if p.len() == 0 {
        Seq::empty()
    } else {
        let q = p.drop_last();
        let a = p.last();
        assert(all_wide(q, w));
        lemma_xor(v, a, a);
        if in_span(q, v) {
            let inner = lemma_span_has_combo(q, v, w);
            let c = inner.push(false);
            assert(c.drop_last() =~= inner);
            lemma_xor(v, zero(w), zero(w));
            c
        } else {
            let inner = lemma_span_has_combo(q, xor(v, a), w);
            let c = inner.push(true);
            assert(c.drop_last() =~= inner);
            c
        }
    }
}

/// The sum with the sum of two lists of coefficients is the sum of the two
/// sums.
pub proof fn lemma_combo_xor(p: Seq<Seq<bool>>, c: Seq<bool>, e: Seq<bool>, w: nat)
    requires
        all_wide(p, w),
        c.len() == p.len(),
        e.len() == p.len(),
    ensures
        combo(p, xor(c, e), w) == xor(combo(p, c, w), combo(p, e, w)),
    decreases p.len(),
{
    if p.len() == 0 {
        lemma_xor(zero(w), zero(w), zero(w));
    } else {
        let q = p.drop_last();
        let a = p.last();
        assert(all_wide(q, w));
        lemma_combo_xor(q, c.drop_last(), e.drop_last(), w);
        assert(xor(c, e).drop_last() =~= xor(c.drop_last(), e.drop_last()));
        assert(xor(c, e).last() == (c.last() != e.last()));
        lemma_combo_in_span(q, c.drop_last(), w);
        lemma_combo_in_span(q, e.drop_last(), w);
        let x = combo(q, c.drop_last(), w);
        let y = combo(q, e.drop_last(), w);
        let ca = if c.last() {
            a
        } else {
            zero(w)
        };
        let ea = if e.last() {
            a
        } else {
            zero(w)
        };
        let both = if c.last() != e.last() {
            a
        } else {
            zero(w)
        };
        assert(xor(xor(x, y), both) =~= xor(xor(x, ca), xor(y, ea)));
    }
}

/// Vectors without entries have rank 0.
pub proof fn lemma_rank_without_entries(q: Seq<Seq<bool>>)
    requires
        all_wide(q, 0),
    ensures
        rk(q) == 0,
    decreases q.len(),
{
    if q.len() > 0 {
        let rest = q.drop_last();
        assert(all_wide(rest, 0));
        lemma_rank_without_entries(rest);
        lemma_zero_in_span(rest, 0);
        assert(q.last() =~= zero(0));
    }
}

/// Vectors whose last entry is 0 keep their span and their rank without it.
pub proof fn lemma_cut(q: Seq<Seq<bool>>, v: Seq<bool>, n: nat)
    requires
        n >= 1,
        all_wide(q, n),
        forall|i: int| 0 <= i < q.len() ==> !(#[trigger] q[i]).last(),
        v.len() == n,
        !v.last(),
    ensures
        in_span(all_cut(q), v.drop_last()) <==> in_span(q, v),
        rk(all_cut(q)) == rk(q),
        all_wide(all_cut(q), (n - 1) as nat),
    decreases q.len(),
{
    let cq = all_cut(q);
    let cv = v.drop_last();
    if q.len() == 0 {
        if cv == zero(cv.len()) {
            assert forall|j: int| 0 <= j < n implies v[j] == false by {
                if j < n - 1 {
                    assert(v[j] == cv[j]);
                    assert(zero(cv.len())[j] == false);
                } else {
                    assert(v[j] == v.last());
                }
            }
            assert(v =~= zero(n));
        }
        if v == zero(n) {
            assert(cv =~= zero(cv.len()));
        }
    } else {
        let rest = q.drop_last();
        let x = q.last();
        assert(all_wide(rest, n));
        assert forall|i: int| 0 <= i < rest.len() implies !(#[trigger] rest[i]).last() by {
            assert(rest[i] == q[i]);
        }
        assert(!q[q.len() - 1].last());
        assert(cq.drop_last() =~= all_cut(rest));
        assert(cq.last() == x.drop_last());
        assert(xor(v, x).drop_last() =~= xor(cv, x.drop_last()));
        assert(!xor(v, x).last());
        lemma_xor(v, x, x);
        lemma_cut(rest, v, n);
        lemma_cut(rest, xor(v, x), n);
        lemma_cut(rest, x, n);
    }
}

/// Lists of coefficients with which the `n` vectors of `p` sum to zero have,
/// together with `p`, rank `n` at most: what cancels leaves room for the rank.
pub proof fn lemma_room_for_rank(p: Seq<Seq<bool>>, q: Seq<Seq<bool>>, w: nat)
    requires
        all_wide(p, w),
        all_wide(q, p.len()),
        all_cancel(p, q, w),
    ensures
        rk(q) + rk(p) <= p.len(),
    decreases p.len(),
{
    let n = p.len();
    if n == 0 {
        lemma_rank_without_entries(q);
    } else {
        let head = p.drop_last();
        let a = p.last();
        assert(all_wide(head, w));
        lemma_span_push(head, a, a);
        assert(p =~= head.push(a));
        if !in_span(head, a) {
            // no sum that cancels uses the last vector
            assert forall|i: int| 0 <= i < q.len() implies !(#[trigger] q[i]).last() && combo(
                head,
                q[i].drop_last(),
                w,
            ) == zero(w) by {
                let inner = combo(head, q[i].drop_last(), w);
                lemma_combo_in_span(head, q[i].drop_last(), w);
                assert(combo(p, q[i], w) == zero(w));
                if q[i].last() {
                    lemma_xor(inner, a, a);
                    assert(xor(xor(inner, a), a) == inner);
                    lemma_xor(zero(w), a, a);
                    assert(xor(zero(w), a) =~= a);
                    assert(inner == a);
                } else {
                    lemma_xor(inner, zero(w), zero(w));
                }
            }
            if q.len() > 0 {
                lemma_cut(q, q[0], n);
            } else {
                assert(rk(q) == 0);
                assert(all_cut(q) =~= q);
            }
            let cq = all_cut(q);
            assert(all_wide(cq, head.len())) by {
                assert forall|i: int| 0 <= i < cq.len() implies (#[trigger] cq[i]).len() == head.len() by {
                    assert(q[i].len() == n);
                }
            }
            assert(all_cancel(head, cq, w));
            lemma_room_for_rank(head, cq, w);
        } else {
            // the last vector is a sum of the others: one more sum cancels
            let c0 = lemma_span_has_combo(head, a, w);
            let e = c0.push(true);
            assert(e.drop_last() =~= c0);
            lemma_xor(a, a, a);
            assert(combo(p, e, w) == zero(w));
            let q2 = Seq::new(
                q.len(),
                |i: int|
                    if q[i].last() {
                        xor(q[i], e)
                    } else {
                        q[i]
                    },
            );
            assert(all_wide(q2, n));
            assert forall|i: int| 0 <= i < q2.len() implies !(#[trigger] q2[i]).last() && combo(
                head,
                q2[i].drop_last(),
                w,
            ) == zero(w) by {
                assert(combo(p, q[i], w) == zero(w));
                lemma_combo_xor(p, q[i], e, w);
                lemma_xor(zero(w), zero(w), zero(w));
                assert(combo(p, q2[i], w) == zero(w));
                let inner = combo(head, q2[i].drop_last(), w);
                lemma_combo_in_span(head, q2[i].drop_last(), w);
                lemma_xor(inner, zero(w), zero(w));
            }
            if q2.len() > 0 {
                lemma_cut(q2, q2[0], n);
            } else {
                assert(all_cut(q2) =~= q2);
            }
            let cq = all_cut(q2);
            assert(all_wide(cq, head.len())) by {
                assert forall|i: int| 0 <= i < cq.len() implies (#[trigger] cq[i]).len() == head.len() by {
                    assert(q2[i].len() == n);
                }
            }
            assert(all_cancel(head, cq, w));
            lemma_room_for_rank(head, cq, w);
            // every vector of `q` is a vector of `q2`, or one plus `e`
            let wider = q2.push(e);
            assert(all_wide(wider, n));
            lemma_span_push(q2, e, e);
            assert forall|i: int| 0 <= i < q.len() implies in_span(wider, #[trigger] q[i]) by {
                assert(wider[i] == q2[i]);
                lemma_row_in_span(wider, i, n);
                lemma_row_in_span(wider, q2.len() as int, n);
                if q[i].last() {
                    lemma_span_xor(wider, q2[i], e, n);
                    lemma_xor(q[i], e, e);
                }
            }
            lemma_rank_of_spanned(wider, q, n);
        }
    }
}

} // verus!
