//! Vectors over the field with two elements: the span of a list of vectors,
//! and the number of vectors of a list that lie outside the span of those
//! before them.

use vstd::prelude::*;

verus! {

/// The vector of `w` zeros.
pub open spec fn zero(w: nat) -> Seq<bool> {
    Seq::new(w, |j: int| false)
}

/// The sum of two vectors of the same length.
pub open spec fn xor(a: Seq<bool>, b: Seq<bool>) -> Seq<bool> {
    Seq::new(a.len(), |j: int| a[j] != b[j])
}

/// Every vector of `p` has `w` entries.
pub open spec fn all_wide(p: Seq<Seq<bool>>, w: nat) -> bool {
    forall|i: int| 0 <= i < p.len() ==> (#[trigger] p[i]).len() == w
}

/// `v` is a sum of some of the vectors of `p`.
pub open spec fn in_span(p: Seq<Seq<bool>>, v: Seq<bool>) -> bool
    decreases p.len(),
{
    if p.len() == 0 {
        v == zero(v.len())
    } else {
        in_span(p.drop_last(), v) || in_span(p.drop_last(), xor(v, p.last()))
    }
}

/// The rank of the list `p`: the number of its vectors that are no sum of
/// vectors before them. It is the dimension of the span of `p`.
pub open spec fn rk(p: Seq<Seq<bool>>) -> nat
    decreases p.len(),
{
    if p.len() == 0 {
        0
    } else {
        rk(p.drop_last()) + (if in_span(p.drop_last(), p.last()) {
            0nat
        } else {
            1nat
        })
    }
}

/// The two lists span the same vectors of length `w`.
pub open spec fn same_span(p: Seq<Seq<bool>>, q: Seq<Seq<bool>>, w: nat) -> bool {
    forall|v: Seq<bool>| v.len() == w ==> (#[trigger] in_span(p, v) <==> in_span(q, v))
}

/// The sum of vectors is commutative and associative, and each vector is its
/// own negative.
pub proof fn lemma_xor(a: Seq<bool>, b: Seq<bool>, c: Seq<bool>)
    requires
        a.len() == b.len(),
        b.len() == c.len(),
    ensures
        xor(a, b) == xor(b, a),
        xor(xor(a, b), c) == xor(a, xor(b, c)),
        xor(xor(a, b), b) == a,
        xor(a, a) == zero(a.len()),
        xor(a, zero(a.len())) == a,
        xor(a, b).len() == a.len(),
{
    assert(xor(a, b) =~= xor(b, a));
    assert(xor(xor(a, b), c) =~= xor(a, xor(b, c)));
    assert(xor(xor(a, b), b) =~= a);
    assert(xor(a, a) =~= zero(a.len()));
    assert(xor(a, zero(a.len())) =~= a);
}

/// What a list with one more vector spans: what the list spanned, and the
/// sums of that with the new vector.
pub proof fn lemma_span_push(p: Seq<Seq<bool>>, a: Seq<bool>, v: Seq<bool>)
    ensures
        in_span(p.push(a), v) <==> in_span(p, v) || in_span(p, xor(v, a)),
        rk(p.push(a)) == rk(p) + (if in_span(p, a) {
            0nat
        } else {
            1nat
        }),
{
    assert(p.push(a).drop_last() =~= p);
    assert(p.push(a).last() == a);
}

/// Every list spans the zero vector.
pub proof fn lemma_zero_in_span(p: Seq<Seq<bool>>, w: nat)
    ensures
        in_span(p, zero(w)),
    decreases p.len(),
{
    if p.len() > 0 {
        lemma_zero_in_span(p.drop_last(), w);
    } else {
        assert(zero(w).len() == w);
    }
}

/// The span is closed under sums.
pub proof fn lemma_span_xor(p: Seq<Seq<bool>>, u: Seq<bool>, v: Seq<bool>, w: nat)
    requires
        all_wide(p, w),
        u.len() == w,
        v.len() == w,
        in_span(p, u),
        in_span(p, v),
    ensures
        in_span(p, xor(u, v)),
    decreases p.len(),
{
    if p.len() == 0 {
        lemma_xor(u, u, u);
        assert(xor(u, v) =~= zero(w));
    } else {
        let q = p.drop_last();
        let a = p.last();
        assert(all_wide(q, w));
        assert(a.len() == w);
        lemma_xor(u, v, a);
        lemma_xor(u, a, v);
        lemma_xor(v, a, a);
        let ua = xor(u, a);
        let va = xor(v, a);
        if in_span(q, u) && in_span(q, v) {
            lemma_span_xor(q, u, v, w);
        } else if in_span(q, u) {
            lemma_span_xor(q, u, va, w);
            assert(xor(u, va) =~= xor(xor(u, v), a));
        } else if in_span(q, v) {
            lemma_span_xor(q, ua, v, w);
            assert(xor(ua, v) =~= xor(xor(u, v), a));
        } else {
            lemma_span_xor(q, ua, va, w);
            assert(xor(ua, va) =~= xor(u, v));
        }
    }
}

/// Every list spans each of its vectors.
pub proof fn lemma_row_in_span(p: Seq<Seq<bool>>, i: int, w: nat)
    requires
        all_wide(p, w),
        0 <= i < p.len(),
    ensures
        in_span(p, p[i]),
    decreases p.len(),
{
    let q = p.drop_last();
    if i == p.len() - 1 {
        lemma_xor(p[i], p[i], p[i]);
        lemma_zero_in_span(q, w);
    } else {
        assert(all_wide(q, w));
        assert(q[i] == p[i]);
        lemma_row_in_span(q, i, w);
    }
}

/// Two lists with the same span and the same rank keep both when the same
/// vectors are appended to them.
pub proof fn lemma_append(p: Seq<Seq<bool>>, q: Seq<Seq<bool>>, r: Seq<Seq<bool>>, w: nat)
    requires
        same_span(p, q, w),
        rk(p) == rk(q),
        all_wide(r, w),
    ensures
        same_span(p + r, q + r, w),
        rk(p + r) == rk(q + r),
    decreases r.len(),
{
    if r.len() == 0 {
        assert(p + r =~= p);
        assert(q + r =~= q);
    } else {
        let rest = r.drop_last();
        let a = r.last();
        assert(all_wide(rest, w));
        lemma_append(p, q, rest, w);
        assert(p + r =~= (p + rest).push(a));
        assert(q + r =~= (q + rest).push(a));
        lemma_span_push(p + rest, a, a);
        lemma_span_push(q + rest, a, a);
        assert(in_span(p + rest, a) <==> in_span(q + rest, a));
        assert forall|v: Seq<bool>| v.len() == w implies (#[trigger] in_span(p + r, v) <==> in_span(
            q + r,
            v,
        )) by {
            lemma_span_push(p + rest, a, v);
            lemma_span_push(q + rest, a, v);
            lemma_xor(v, a, a);
            assert(in_span(p + rest, v) <==> in_span(q + rest, v));
            assert(in_span(p + rest, xor(v, a)) <==> in_span(q + rest, xor(v, a)));
        }
    }
}

/// The last two vectors of a list may change places: span and rank stay.
pub proof fn lemma_exchange(q: Seq<Seq<bool>>, a: Seq<bool>, b: Seq<bool>, w: nat)
    requires
        all_wide(q, w),
        a.len() == w,
        b.len() == w,
    ensures
        same_span(q.push(a).push(b), q.push(b).push(a), w),
        rk(q.push(a).push(b)) == rk(q.push(b).push(a)),
{
    lemma_xor(a, b, a);
    lemma_xor(b, a, b);
    assert forall|v: Seq<bool>| v.len() == w implies (#[trigger] in_span(q.push(a).push(b), v) <==> in_span(
        q.push(b).push(a),
        v,
    )) by {
        lemma_xor(v, a, b);
        lemma_xor(v, b, a);
        lemma_span_push(q.push(a), b, v);
        lemma_span_push(q, a, v);
        lemma_span_push(q, a, xor(v, b));
        lemma_span_push(q.push(b), a, v);
        lemma_span_push(q, b, v);
        lemma_span_push(q, b, xor(v, a));
        assert(xor(xor(v, b), a) =~= xor(xor(v, a), b));
    }
    lemma_span_push(q.push(a), b, b);
    lemma_span_push(q, a, a);
    lemma_span_push(q, a, b);
    lemma_span_push(q.push(b), a, a);
    lemma_span_push(q, b, b);
    lemma_span_push(q, b, a);
    assert(xor(a, b) =~= xor(b, a));
    if in_span(q, a) && !in_span(q, b) {
        if in_span(q, xor(b, a)) {
            lemma_span_xor(q, xor(b, a), a, w);
            assert(xor(xor(b, a), a) =~= b);
        }
    }
    if in_span(q, b) && !in_span(q, a) {
        if in_span(q, xor(a, b)) {
            lemma_span_xor(q, xor(a, b), b, w);
            assert(xor(xor(a, b), b) =~= a);
        }
    }
}

/// The list with the vectors at positions `a` and `b` exchanged.
pub open spec fn swapped(p: Seq<Seq<bool>>, a: int, b: int) -> Seq<Seq<bool>> {
    p.update(a, p[b]).update(b, p[a])
}

/// Two vectors next to each other may change places: span and rank stay.
pub proof fn lemma_swap_neighbours(p: Seq<Seq<bool>>, i: int, w: nat)
    requires
        all_wide(p, w),
        0 <= i,
        i + 1 < p.len(),
    ensures
        same_span(p, swapped(p, i, i + 1), w),
        rk(p) == rk(swapped(p, i, i + 1)),
{
    let head = p.subrange(0, i);
    let tail = p.subrange(i + 2, p.len() as int);
    let a = p[i];
    let b = p[i + 1];
    assert(all_wide(head, w));
    assert(all_wide(tail, w));
    lemma_exchange(head, a, b, w);
    lemma_append(head.push(a).push(b), head.push(b).push(a), tail, w);
    assert(p =~= head.push(a).push(b) + tail);
    assert(swapped(p, i, i + 1) =~= head.push(b).push(a) + tail);
}

/// Any two vectors of a list may change places: span and rank stay.
pub proof fn lemma_swap(p: Seq<Seq<bool>>, a: int, b: int, w: nat)
    requires
        all_wide(p, w),
        0 <= a <= b < p.len(),
    ensures
        same_span(p, swapped(p, a, b), w),
        rk(p) == rk(swapped(p, a, b)),
    decreases b - a,
{
    if a == b {
        assert(swapped(p, a, b) =~= p);
    } else if a + 1 == b {
        lemma_swap_neighbours(p, a, w);
    } else {
        // bring the vector at `a` one place down, exchange it with the one at
        // `b`, and bring what came from `b` one place up
        let step_a = swapped(p, a, a + 1);
        lemma_swap_neighbours(p, a, w);
        assert(all_wide(step_a, w));
        let step_b = swapped(step_a, a + 1, b);
        lemma_swap(step_a, a + 1, b, w);
        assert(all_wide(step_b, w));
        let step_c = swapped(step_b, a, a + 1);
        lemma_swap_neighbours(step_b, a, w);
        assert(step_c =~= swapped(p, a, b));
        assert forall|v: Seq<bool>| v.len() == w implies (#[trigger] in_span(p, v) <==> in_span(
            swapped(p, a, b),
            v,
        )) by {
            assert(in_span(p, v) <==> in_span(step_a, v));
            assert(in_span(step_a, v) <==> in_span(step_b, v));
            assert(in_span(step_b, v) <==> in_span(step_c, v));
        }
    }
}

/// The last vector of a list may take the sum of itself and a vector of the
/// span of those before it as its new value: span and rank stay.
pub proof fn lemma_replace_last(head: Seq<Seq<bool>>, a: Seq<bool>, s: Seq<bool>, w: nat)
    requires
        all_wide(head, w),
        a.len() == w,
        s.len() == w,
        in_span(head, s),
    ensures
        same_span(head.push(a), head.push(xor(a, s)), w),
        rk(head.push(a)) == rk(head.push(xor(a, s))),
{
    let b = xor(a, s);
    lemma_xor(a, s, s);
    assert forall|v: Seq<bool>| v.len() == w implies (#[trigger] in_span(head.push(a), v) <==> in_span(
        head.push(b),
        v,
    )) by {
        lemma_span_push(head, a, v);
        lemma_span_push(head, b, v);
        lemma_xor(v, a, s);
        let va = xor(v, a);
        let vb = xor(v, b);
        assert(vb =~= xor(va, s));
        assert(xor(vb, s) =~= va);
        if in_span(head, va) {
            lemma_span_xor(head, va, s, w);
        }
        if in_span(head, vb) {
            lemma_span_xor(head, vb, s, w);
        }
    }
    lemma_span_push(head, a, a);
    lemma_span_push(head, b, b);
    assert(xor(b, s) =~= a);
    if in_span(head, a) {
        lemma_span_xor(head, a, s, w);
    }
    if in_span(head, b) {
        lemma_span_xor(head, b, s, w);
    }
}

/// A vector may take the sum of itself and a vector before it as its new
/// value: span and rank stay.
pub proof fn lemma_add_earlier(p: Seq<Seq<bool>>, src: int, dst: int, w: nat)
    requires
        all_wide(p, w),
        0 <= src < dst < p.len(),
    ensures
        same_span(p, p.update(dst, xor(p[dst], p[src])), w),
        rk(p) == rk(p.update(dst, xor(p[dst], p[src]))),
{
    let head = p.subrange(0, dst);
    let tail = p.subrange(dst + 1, p.len() as int);
    let a = p[dst];
    let s = p[src];
    let b = xor(a, s);
    assert(all_wide(head, w));
    assert(all_wide(tail, w));
    assert(head[src] == s);
    lemma_row_in_span(head, src, w);
    lemma_replace_last(head, a, s, w);
    lemma_append(head.push(a), head.push(b), tail, w);
    assert(p =~= head.push(a) + tail);
    assert(p.update(dst, b) =~= head.push(b) + tail);
}

/// The vector `v` with its entries at `a` and `b` exchanged (`swap`), or
/// with its entry at `a` added to its entry at `b` (otherwise).
pub open spec fn moved(swap: bool, a: int, b: int, v: Seq<bool>) -> Seq<bool> {
    Seq::new(
        v.len(),
        |j: int|
            if swap {
                if j == a {
                    v[b]
                } else if j == b {
                    v[a]
                } else {
                    v[j]
                }
            } else {
                if j == b {
                    v[j] != v[a]
                } else {
                    v[j]
                }
            },
    )
}

/// Every vector of the list with its entries moved in the same way.
pub open spec fn all_moved(swap: bool, a: int, b: int, p: Seq<Seq<bool>>) -> Seq<Seq<bool>> {
    Seq::new(p.len(), |i: int| moved(swap, a, b, p[i]))
}

/// Moving the entries is linear and undoes itself.
pub proof fn lemma_moved(swap: bool, a: int, b: int, u: Seq<bool>, v: Seq<bool>)
    requires
        u.len() == v.len(),
        0 <= a < u.len(),
        0 <= b < u.len(),
        a != b,
    ensures
        moved(swap, a, b, xor(u, v)) == xor(moved(swap, a, b, u), moved(swap, a, b, v)),
        moved(swap, a, b, moved(swap, a, b, u)) == u,
        moved(swap, a, b, zero(u.len())) == zero(u.len()),
        moved(swap, a, b, u).len() == u.len(),
{
    assert(moved(swap, a, b, xor(u, v)) =~= xor(moved(swap, a, b, u), moved(swap, a, b, v)));
    assert(moved(swap, a, b, moved(swap, a, b, u)) =~= u);
    assert(moved(swap, a, b, zero(u.len())) =~= zero(u.len()));
}

/// The moved list spans exactly the moved vectors of the span, and has the
/// same rank.
pub proof fn lemma_moved_span(swap: bool, a: int, b: int, p: Seq<Seq<bool>>, v: Seq<bool>, w: nat)
    requires
        all_wide(p, w),
        v.len() == w,
        0 <= a < w,
        0 <= b < w,
        a != b,
    ensures
        in_span(all_moved(swap, a, b, p), moved(swap, a, b, v)) <==> in_span(p, v),
        rk(all_moved(swap, a, b, p)) == rk(p),
    decreases p.len(),
{
    let mp = all_moved(swap, a, b, p);
    let mv = moved(swap, a, b, v);
    lemma_moved(swap, a, b, v, v);
    if p.len() == 0 {
        if mv == zero(mv.len()) {
            assert(moved(swap, a, b, mv) == v);
        }
    } else {
        let q = p.drop_last();
        let x = p.last();
        assert(all_wide(q, w));
        assert(mp.drop_last() =~= all_moved(swap, a, b, q));
        assert(mp.last() == moved(swap, a, b, x));
        lemma_moved(swap, a, b, v, x);
        lemma_xor(v, x, x);
        lemma_moved_span(swap, a, b, q, v, w);
        lemma_moved_span(swap, a, b, q, xor(v, x), w);
        lemma_moved_span(swap, a, b, q, x, w);
    }
}

/// A vector in the span of vectors that are all zero at position `j` is zero
/// at position `j`.
pub proof fn lemma_span_entry(p: Seq<Seq<bool>>, v: Seq<bool>, j: int, w: nat)
    requires
        all_wide(p, w),
        v.len() == w,
        0 <= j < w,
        forall|i: int| 0 <= i < p.len() ==> !(#[trigger] p[i])[j],
        in_span(p, v),
    ensures
        !v[j],
    decreases p.len(),
{
    if p.len() > 0 {
        let q = p.drop_last();
        assert(all_wide(q, w));
        assert forall|i: int| 0 <= i < q.len() implies !(#[trigger] q[i])[j] by {
            assert(q[i] == p[i]);
        }
        if in_span(q, v) {
            lemma_span_entry(q, v, j, w);
        } else {
            lemma_xor(v, p.last(), p.last());
            lemma_span_entry(q, xor(v, p.last()), j, w);
            assert(!p[p.len() - 1][j]);
        }
    }
}

/// `perm` is a permutation of `0 .. n`: it lists numbers below `n`, none of
/// them twice, `n` in all.
pub open spec fn is_permutation(perm: Seq<int>, n: nat) -> bool {
    &&& perm.len() == n
    &&& perm.no_duplicates()
    &&& forall|i: int| 0 <= i < n ==> 0 <= #[trigger] perm[i] < n
}

/// A permutation of `0 .. n` lists every number below `n`.
pub proof fn lemma_permutation_onto(perm: Seq<int>, n: nat, k: int)
    requires
        is_permutation(perm, n),
        0 <= k < n,
    ensures
        perm.contains(k),
{
    let range = vstd::set_lib::set_int_range(0, n as int);
    vstd::set_lib::lemma_int_range(0, n as int);
    perm.unique_seq_to_set();
    assert(perm.to_set().subset_of(range)) by {
        assert forall|x: int| perm.to_set().contains(x) implies range.contains(x) by {
            let i = choose|i: int| 0 <= i < perm.len() && perm[i] == x;
            assert(0 <= perm[i] < n);
        }
    }
    vstd::set_lib::lemma_len_subset(perm.to_set(), range);
    vstd::set_lib::lemma_subset_equality(perm.to_set(), range);
    assert(range.contains(k));
    assert(perm.to_set().contains(k));
}

/// The list in the order that `perm` gives: position `i` holds the vector
/// that was at position `perm[i]`.
pub open spec fn permuted(p: Seq<Seq<bool>>, perm: Seq<int>) -> Seq<Seq<bool>> {
    Seq::new(perm.len(), |i: int| p[perm[i]])
}

/// The vectors of a list may come in any order: span and rank stay.
pub proof fn lemma_permuted(p: Seq<Seq<bool>>, perm: Seq<int>, w: nat)
    requires
        all_wide(p, w),
        is_permutation(perm, p.len()),
    ensures
        same_span(p, permuted(p, perm), w),
        rk(p) == rk(permuted(p, perm)),
    decreases p.len(),
{
    let n = p.len() as int;
    let q = permuted(p, perm);
    if n == 0 {
        assert(q =~= p);
    } else {
        let last = perm[n - 1];
        let step_a = swapped(p, last, n - 1);
        lemma_swap(p, last, n - 1, w);
        assert(all_wide(step_a, w));
        let head = step_a.drop_last();
        assert(all_wide(head, w));
        let perm1 = Seq::new(
            (n - 1) as nat,
            |i: int|
                if perm[i] == n - 1 {
                    last
                } else {
                    perm[i]
                },
        );
        assert(is_permutation(perm1, head.len())) by {
            assert forall|i: int| 0 <= i < n - 1 implies 0 <= #[trigger] perm1[i] < n - 1 by {
                assert(0 <= perm[i] < n);
                assert(perm[i] != perm[n - 1]);
            }
            assert forall|i: int, j: int| 0 <= i < perm1.len() && 0 <= j < perm1.len() && i != j implies perm1[i]
                != perm1[j] by {
                assert(perm[i] != perm[j]);
                assert(perm[i] != perm[n - 1]);
                assert(perm[j] != perm[n - 1]);
            }
        }
        assert(q.drop_last() =~= permuted(head, perm1)) by {
            assert forall|i: int| 0 <= i < n - 1 implies q.drop_last()[i] == permuted(head, perm1)[i] by {
                assert(0 <= perm[i] < n);
                assert(perm[i] != perm[n - 1]);
            }
        }
        lemma_permuted(head, perm1, w);
        let a = step_a[n - 1];
        assert(a == q[n - 1]);
        assert(all_wide(seq![a], w));
        lemma_append(head, q.drop_last(), seq![a], w);
        assert(head + seq![a] =~= step_a);
        assert(q.drop_last() + seq![a] =~= q);
        assert forall|v: Seq<bool>| v.len() == w implies (#[trigger] in_span(p, v) <==> in_span(q, v)) by {
            assert(in_span(p, v) <==> in_span(step_a, v));
            assert(in_span(step_a, v) <==> in_span(q, v));
        }
    }
}

/// The vector with its entries in the order that `perm` gives: position `j`
/// holds the entry that was at position `perm[j]`.
pub open spec fn rearranged(v: Seq<bool>, perm: Seq<int>) -> Seq<bool> {
    Seq::new(perm.len(), |j: int| v[perm[j]])
}

/// Every vector of the list with its entries rearranged in the same way.
pub open spec fn all_rearranged(p: Seq<Seq<bool>>, perm: Seq<int>) -> Seq<Seq<bool>> {
    Seq::new(p.len(), |i: int| rearranged(p[i], perm))
}

/// The entries of all vectors of a list may come in any order, the same for
/// all: the rearranged list spans the rearranged vectors of the span, and its
/// rank stays.
pub proof fn lemma_rearranged(p: Seq<Seq<bool>>, perm: Seq<int>, v: Seq<bool>, w: nat)
    requires
        all_wide(p, w),
        v.len() == w,
        is_permutation(perm, w),
    ensures
        in_span(all_rearranged(p, perm), rearranged(v, perm)) <==> in_span(p, v),
        rk(all_rearranged(p, perm)) == rk(p),
    decreases p.len(),
{
    let mp = all_rearranged(p, perm);
    let mv = rearranged(v, perm);
    if p.len() == 0 {
        if mv == zero(mv.len()) {
            assert(v =~= zero(w)) by {
                assert forall|k: int| 0 <= k < w implies v[k] == false by {
                    lemma_permutation_onto(perm, w, k);
                    let j = choose|j: int| 0 <= j < perm.len() && perm[j] == k;
                    assert(mv[j] == v[perm[j]]);
                    assert(zero(mv.len())[j] == false);
                }
            }
        }
        if v == zero(w) {
            assert(mv =~= zero(mv.len()));
        }
    } else {
        let q = p.drop_last();
        let x = p.last();
        assert(all_wide(q, w));
        assert(mp.drop_last() =~= all_rearranged(q, perm));
        assert(mp.last() == rearranged(x, perm));
        assert(rearranged(xor(v, x), perm) =~= xor(mv, rearranged(x, perm)));
        lemma_xor(v, x, x);
        lemma_rearranged(q, perm, v, w);
        lemma_rearranged(q, perm, xor(v, x), w);
        lemma_rearranged(q, perm, x, w);
    }
}

/// More vectors span no less, and have no smaller rank.
pub proof fn lemma_span_of_more(p: Seq<Seq<bool>>, r: Seq<Seq<bool>>, v: Seq<bool>)
    ensures
        in_span(p, v) ==> in_span(p + r, v),
        rk(p + r) >= rk(p),
    decreases r.len(),
{
    if r.len() == 0 {
        assert(p + r =~= p);
    } else {
        let rest = r.drop_last();
        lemma_span_of_more(p, rest, v);
        assert(p + r =~= (p + rest).push(r.last()));
        lemma_span_push(p + rest, r.last(), v);
    }
}

/// Vectors of the span add nothing to the rank.
pub proof fn lemma_rank_with_spanned(p: Seq<Seq<bool>>, q: Seq<Seq<bool>>)
    requires
        forall|i: int| 0 <= i < q.len() ==> in_span(p, #[trigger] q[i]),
    ensures
        rk(p + q) == rk(p),
    decreases q.len(),
{
    if q.len() == 0 {
        assert(p + q =~= p);
    } else {
        let rest = q.drop_last();
        let a = q.last();
        assert forall|i: int| 0 <= i < rest.len() implies in_span(p, #[trigger] rest[i]) by {
            assert(rest[i] == q[i]);
        }
        lemma_rank_with_spanned(p, rest);
        assert(p + q =~= (p + rest).push(a));
        lemma_span_push(p + rest, a, a);
        assert(in_span(p, q[q.len() - 1]));
        lemma_span_of_more(p, rest, a);
    }
}

/// Vectors that all lie in the span of a list have at most the rank of the
/// list.
pub proof fn lemma_rank_of_spanned(p: Seq<Seq<bool>>, q: Seq<Seq<bool>>, w: nat)
    requires
        all_wide(p, w),
        all_wide(q, w),
        forall|i: int| 0 <= i < q.len() ==> in_span(p, #[trigger] q[i]),
    ensures
        rk(q) <= rk(p),
{
    lemma_rank_with_spanned(p, q);
    lemma_span_of_more(q, p, zero(w));
    // `q + p` is `p + q` in another order
    let n = (p.len() + q.len()) as int;
    let perm = Seq::new(
        n as nat,
        |i: int|
            if i < q.len() {
                i + p.len()
            } else {
                i - q.len()
            },
    );
    assert(is_permutation(perm, (p + q).len())) by {
        assert forall|i: int, j: int| 0 <= i < perm.len() && 0 <= j < perm.len() && i != j implies perm[i]
            != perm[j] by {}
    }
    assert(all_wide(p + q, w));
    lemma_permuted(p + q, perm, w);
    assert(permuted(p + q, perm) =~= q + p);
}

/// A list whose vector at each position `i` has a 1 at entry `i`, where all
/// vectors before it have a 0, has full rank.
pub proof fn lemma_rank_of_staircase(q: Seq<Seq<bool>>, w: nat, k: int)
    requires
        all_wide(q, w),
        q.len() <= w,
        0 <= k <= q.len(),
        forall|i: int| 0 <= i < q.len() ==> (#[trigger] q[i])[i],
        forall|i: int, j: int| 0 <= i < j < q.len() ==> !#[trigger] q[i][j],
    ensures
        rk(q.subrange(0, k)) == k,
    decreases k,
{
    if k == 0 {
        assert(q.subrange(0, 0) =~= Seq::<Seq<bool>>::empty());
    } else {
        lemma_rank_of_staircase(q, w, k - 1);
        let head = q.subrange(0, k - 1);
        let row = q[k - 1];
        assert(q.subrange(0, k) =~= head.push(row));
        lemma_span_push(head, row, row);
        assert(all_wide(head, w));
        assert forall|i: int| 0 <= i < head.len() implies !(#[trigger] head[i])[k - 1] by {
            assert(head[i] == q[i]);
            assert(!q[i][k - 1]);
        }
        assert(row[k - 1]);
        if in_span(head, row) {
            lemma_span_entry(head, row, k - 1, w);
        }
    }
}

} // verus!
