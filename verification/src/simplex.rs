//! Simplices as ordered vertex sequences: their facets, and the recovery of a
//! simplex from some of its facets.

use vstd::prelude::*;

verus! {

/// The simplex with the single vertex `v`.
pub open spec fn point(v: usize) -> Seq<usize> {
    seq![v]
}

/// The edge from `a` to `b`.
pub open spec fn edge(a: usize, b: usize) -> Seq<usize> {
    seq![a, b]
}

/// `f` is what is left of `t` once the vertex at position `p` is deleted.
pub open spec fn is_facet_at(f: Seq<usize>, t: Seq<usize>, p: int) -> bool {
    0 <= p < t.len() && t.remove(p) == f
}

/// `f` is a facet of `t`: `t` with exactly one vertex deleted, the others in
/// their order.
pub open spec fn is_facet(f: Seq<usize>, t: Seq<usize>) -> bool {
    exists|p: int| is_facet_at(f, t, p)
}

/// `t` is `f` with the vertex `v` put in at some position.
pub open spec fn extends(f: Seq<usize>, v: usize, t: Seq<usize>) -> bool {
    exists|p: int| #[trigger] is_facet_at(f, t, p) && t[p] == v
}

/// `a` stands somewhere before `b` in `s`.
pub open spec fn places(s: Seq<usize>, a: usize, b: usize) -> bool {
    exists|i: int, j: int| 0 <= i < j < s.len() && #[trigger] s[i] == a && #[trigger] s[j] == b
}

/// The vertex sequences of a list of simplices.
pub open spec fn views(subs: Seq<Vec<usize>>) -> Seq<Seq<usize>> {
    Seq::new(subs.len(), |k: int| subs[k]@)
}

/// Some sequence of `subs` places `a` before `b`.
pub open spec fn ordered_by(subs: Seq<Seq<usize>>, a: usize, b: usize) -> bool {
    exists|k: int| 0 <= k < subs.len() && #[trigger] places(subs[k], a, b)
}

/// `v` is a vertex of one of the first two sequences of `subs`.
pub open spec fn in_union(subs: Seq<Seq<usize>>, v: usize) -> bool {
    subs[0].contains(v) || subs[1].contains(v)
}

/// The sequences of `subs` agree on one linear order of the vertices of the
/// first two of them: any two such vertices are ordered by some sequence, no
/// two sequences contradict each other, and the order is transitive.
pub open spec fn linearly_ordered(subs: Seq<Seq<usize>>) -> bool {
    &&& forall|a: usize, b: usize|
        #![trigger ordered_by(subs, a, b)]
        in_union(subs, a) && in_union(subs, b) && a != b ==> ordered_by(subs, a, b) || ordered_by(
            subs,
            b,
            a,
        )
    &&& forall|a: usize, b: usize|
        #![trigger ordered_by(subs, a, b)]
        in_union(subs, a) && in_union(subs, b) ==> !(ordered_by(subs, a, b) && ordered_by(
            subs,
            b,
            a,
        ))
    &&& forall|a: usize, b: usize, c: usize|
        #![trigger ordered_by(subs, a, b), ordered_by(subs, b, c)]
        in_union(subs, a) && in_union(subs, b) && in_union(subs, c) && ordered_by(subs, a, b)
            && ordered_by(subs, b, c) ==> ordered_by(subs, a, c)
}

/// `t` lists the vertices of the first two sequences of `subs`, each once, in
/// the order on which the sequences of `subs` agree.
pub open spec fn is_combination(subs: Seq<Seq<usize>>, t: Seq<usize>) -> bool {
    &&& t.no_duplicates()
    &&& forall|v: usize| #[trigger] t.contains(v) <==> in_union(subs, v)
    &&& forall|i: int, j: int| 0 <= i < j < t.len() ==> ordered_by(subs, #[trigger] t[i], #[trigger] t[j])
}

/// The first position of `v` in `s`, if it occurs there.
pub fn position(s: &Vec<usize>, v: usize) -> (found: Option<usize>)
    ensures
        match found {
            Some(i) => i < s@.len() && s@[i as int] == v && forall|j: int|
                0 <= j < i ==> s@[j] != v,
            None => !s@.contains(v),
        },
{
    let n = s.len();
    let mut i: usize = 0;
    while i < n
        invariant
            n == s@.len(),
            i <= n,
            forall|j: int| 0 <= j < i ==> s@[j] != v,
        decreases n - i,
    {
        if s[i] == v {
            return Some(i);
        }
        i += 1;
    }
    None
}

/// A copy of `s`.
pub fn copy_of(s: &Vec<usize>) -> (copy: Vec<usize>)
    ensures
        copy@ == s@,
{
    let mut copy: Vec<usize> = Vec::new();
    let mut i: usize = 0;
    while i < s.len()
        invariant
            i <= s@.len(),
            copy@ == s@.subrange(0, i as int),
        decreases s@.len() - i,
    {
        copy.push(s[i]);
        assert(copy@ == s@.subrange(0, i + 1));
        i += 1;
    }
    assert(s@.subrange(0, i as int) == s@);
    copy
}

/// The vertices of `first` that are vertices of `second` too, in the order of
/// `first`.
pub(crate) fn common_vertices(first: &Vec<usize>, second: &Vec<usize>) -> (common: Vec<usize>)
    ensures
        forall|v: usize| #[trigger] common@.contains(v) <==> first@.contains(v) && second@.contains(v),
{
    let mut common: Vec<usize> = Vec::new();
    let mut i: usize = 0;
    while i < first.len()
        invariant
            i <= first@.len(),
            forall|v: usize|
                #[trigger] common@.contains(v) <==> first@.subrange(0, i as int).contains(v)
                    && second@.contains(v),
        decreases first@.len() - i,
    {
        let v = first[i];
        let ghost before = common@;
        let ghost seen = first@.subrange(0, i as int);
        let ghost seen_next = first@.subrange(0, i + 1);
        assert(seen_next == seen.push(v));
        let keep = position(second, v).is_some();
        if keep {
            common.push(v);
        }
        proof {
            assert(keep == second@.contains(v));
            assert forall|w: usize| #[trigger] common@.contains(w) <==> seen_next.contains(w)
                && second@.contains(w) by {
                if seen.contains(w) {
                    let k = choose|k: int| 0 <= k < seen.len() && seen[k] == w;
                    assert(seen_next[k] == w);
                }
                if w == v {
                    assert(seen_next[i as int] == v);
                }
                if seen_next.contains(w) {
                    let k = choose|k: int| 0 <= k < seen_next.len() && seen_next[k] == w;
                    if k < i {
                        assert(seen[k] == w);
                    }
                }
                if before.contains(w) {
                    let k = choose|k: int| 0 <= k < before.len() && before[k] == w;
                    assert(common@[k] == w);
                }
                if keep && w == v {
                    assert(common@[before.len() as int] == v);
                }
                if common@.contains(w) {
                    let k = choose|k: int| 0 <= k < common@.len() && common@[k] == w;
                    if k < before.len() {
                        assert(before[k] == w);
                    }
                }
            }
        }
        i += 1;
    }
    assert(first@.subrange(0, i as int) == first@);
    common
}

/// The facet of `simplex` that leaves out the vertex at position `p`.
pub fn facet(simplex: &Vec<usize>, p: usize) -> (face: Vec<usize>)
    requires
        p < simplex@.len(),
    ensures
        face@ == simplex@.remove(p as int),
{
    let n = simplex.len();
    let mut face: Vec<usize> = Vec::new();
    let mut j: usize = 0;
    while j < p
        invariant
            n == simplex@.len(),
            j <= p < n,
            face@ == simplex@.subrange(0, j as int),
        decreases p - j,
    {
        face.push(simplex[j]);
        assert(face@ == simplex@.subrange(0, j + 1));
        j += 1;
    }
    j = p + 1;
    while j < n
        invariant
            n == simplex@.len(),
            p < j <= n,
            face@ == simplex@.subrange(0, p as int) + simplex@.subrange(p + 1, j as int),
        decreases n - j,
    {
        face.push(simplex[j]);
        assert(face@ == simplex@.subrange(0, p as int) + simplex@.subrange(p + 1, j + 1));
        j += 1;
    }
    face
}

/// All facets of `simplex`: the one at position `i` leaves out the vertex at
/// position `i`.
pub fn faces(simplex: &Vec<usize>) -> (result: Vec<Vec<usize>>)
    ensures
        result@.len() == simplex@.len(),
        forall|i: int|
            0 <= i < simplex@.len() ==> (#[trigger] result@[i])@ == simplex@.remove(i),
{
    let n = simplex.len();
    let mut result: Vec<Vec<usize>> = Vec::new();
    let mut i: usize = 0;
    while i < n
        invariant
            n == simplex@.len(),
            i <= n,
            result@.len() == i,
            forall|k: int| 0 <= k < i ==> (#[trigger] result@[k])@ == simplex@.remove(k),
        decreases n - i,
    {
        let face = facet(simplex, i);
        result.push(face);
        i += 1;
    }
    result
}

/// Whether `a` stands before `b` in `s`.
pub fn places_before(s: &Vec<usize>, a: usize, b: usize) -> (yes: bool)
    requires
        s@.no_duplicates(),
    ensures
        yes == places(s@, a, b),
{
    match position(s, a) {
        Some(i) => match position(s, b) {
            Some(j) => {
                proof {
                    if i < j {
                        assert(s@[i as int] == a && s@[j as int] == b);
                    } else if places(s@, a, b) {
                        let (x, y) = choose|x: int, y: int|
                            0 <= x < y < s@.len() && #[trigger] s@[x] == a && #[trigger] s@[y] == b;
                        assert(x == i && y == j);
                    }
                }
                i < j
            },
            None => false,
        },
        None => false,
    }
}

/// Whether some simplex of `subs` places `a` before `b`.
pub fn precedes(subs: &Vec<Vec<usize>>, a: usize, b: usize) -> (yes: bool)
    requires
        forall|k: int| 0 <= k < subs@.len() ==> (#[trigger] subs@[k])@.no_duplicates(),
    ensures
        yes == ordered_by(views(subs@), a, b),
{
    let n = subs.len();
    let mut k: usize = 0;
    while k < n
        invariant
            n == subs@.len(),
            k <= n,
            forall|i: int| 0 <= i < subs@.len() ==> (#[trigger] subs@[i])@.no_duplicates(),
            forall|i: int| 0 <= i < k ==> !places(#[trigger] views(subs@)[i], a, b),
        decreases n - k,
    {
        if places_before(&subs[k], a, b) {
            assert(places(views(subs@)[k as int], a, b));
            return true;
        }
        k += 1;
    }
    false
}

/// The vertices of `first` followed by those of `second` that `first` lacks.
pub(crate) fn merged_vertices(first: &Vec<usize>, second: &Vec<usize>) -> (all: Vec<usize>)
    requires
        first@.no_duplicates(),
    ensures
        all@.no_duplicates(),
        forall|v: usize| #[trigger] all@.contains(v) <==> first@.contains(v) || second@.contains(v),
{
    let mut all: Vec<usize> = Vec::new();
    let mut i: usize = 0;
    while i < first.len()
        invariant
            i <= first@.len(),
            all@ == first@.subrange(0, i as int),
        decreases first@.len() - i,
    {
        all.push(first[i]);
        assert(all@ == first@.subrange(0, i + 1));
        i += 1;
    }
    assert(all@ == first@);
    let mut j: usize = 0;
    while j < second.len()
        invariant
            j <= second@.len(),
            all@.no_duplicates(),
            forall|v: usize|
                #[trigger] all@.contains(v) <==> first@.contains(v) || second@.subrange(
                    0,
                    j as int,
                ).contains(v),
        decreases second@.len() - j,
    {
        let v = second[j];
        let ghost before = all@;
        let ghost seen = second@.subrange(0, j as int);
        let ghost seen_next = second@.subrange(0, j + 1);
        assert(seen_next == seen.push(v));
        match position(&all, v) {
            Some(_) => {},
            None => {
                all.push(v);
                assert forall|w: usize| #[trigger] all@.contains(w) implies before.contains(w) || w
                    == v by {
                    let i = choose|i: int| 0 <= i < all@.len() && all@[i] == w;
                    if i < before.len() {
                        assert(before[i] == w);
                    }
                }
                assert forall|w: usize| before.contains(w) || w == v implies #[trigger] all@.contains(
                    w,
                ) by {
                    if w == v {
                        assert(all@[before.len() as int] == v);
                    } else {
                        let i = choose|i: int| 0 <= i < before.len() && before[i] == w;
                        assert(all@[i] == w);
                    }
                }
            },
        }
        assert forall|w: usize| #[trigger] seen_next.contains(w) <==> seen.contains(w) || w == v by {
            if seen_next.contains(w) {
                let i = choose|i: int| 0 <= i < seen_next.len() && seen_next[i] == w;
                if i < seen.len() {
                    assert(seen[i] == w);
                }
            }
            if seen.contains(w) {
                let i = choose|i: int| 0 <= i < seen.len() && seen[i] == w;
                assert(seen_next[i] == w);
            }
            if w == v {
                assert(seen_next[j as int] == v);
            }
        }
        j += 1;
    }
    assert(second@.subrange(0, j as int) == second@);
    all
}

/// Every sequence of `subs` is a face of `t`, and `t` has no vertex twice.
pub open spec fn are_faces_of(subs: Seq<Seq<usize>>, t: Seq<usize>) -> bool {
    t.no_duplicates() && forall|k: int| 0 <= k < subs.len() ==> is_face(#[trigger] subs[k], t)
}

/// No vertex of `rest` has to come before the one at position `m`: no
/// sequence of `subs` places any of them before it.
pub open spec fn is_free(subs: Seq<Seq<usize>>, rest: Seq<usize>, m: int) -> bool {
    forall|j: int| 0 <= j < rest.len() ==> !ordered_by(subs, #[trigger] rest[j], rest[m])
}

/// What a face places in order, the simplex places in the same order, and the
/// vertices of a face are vertices of the simplex.
pub proof fn lemma_face_keeps(s: Seq<usize>, t: Seq<usize>)
    requires
        is_face(s, t),
    ensures
        forall|a: usize, b: usize| #[trigger] places(s, a, b) ==> places(t, a, b),
        forall|v: usize| s.contains(v) ==> #[trigger] t.contains(v),
    decreases t.len(),
{
    if s != t {
        let p = choose|p: int| 0 <= p < t.len() && is_face(s, #[trigger] t.remove(p));
        let f = t.remove(p);
        lemma_face_keeps(s, f);
        assert forall|a: usize, b: usize| #[trigger] places(s, a, b) implies places(t, a, b) by {
            assert(places(f, a, b));
            lemma_places_in_facet(t, p, a, b);
        }
        assert forall|v: usize| s.contains(v) implies #[trigger] t.contains(v) by {
            assert(f.contains(v));
            let i = choose|i: int| 0 <= i < f.len() && f[i] == v;
            let ti = if i < p {
                i
            } else {
                i + 1
            };
            assert(t[ti] == v);
        }
    }
}

/// Of vertices that all occur in `t`, one occurs there first.
pub proof fn lemma_first_in(rest: Seq<usize>, t: Seq<usize>) -> (m: int)
    requires
        rest.len() > 0,
        forall|j: int| 0 <= j < rest.len() ==> t.contains(#[trigger] rest[j]),
    ensures
        0 <= m < rest.len(),
        forall|j: int| 0 <= j < rest.len() ==> t.index_of(rest[m]) <= t.index_of(#[trigger] rest[j]),
    decreases rest.len(),
{
    if rest.len() == 1 {
        0
    } else {
        let head = rest.drop_last();
        assert forall|j: int| 0 <= j < head.len() implies t.contains(#[trigger] head[j]) by {
            assert(head[j] == rest[j]);
        }
        let m = lemma_first_in(head, t);
        let last = rest.len() - 1;
        let best = if t.index_of(rest[last]) < t.index_of(head[m]) {
            last
        } else {
            m
        };
        assert forall|j: int| 0 <= j < rest.len() implies t.index_of(rest[best]) <= t.index_of(
            #[trigger] rest[j],
        ) by {
            if j < last {
                assert(head[j] == rest[j]);
                assert(t.index_of(head[m]) <= t.index_of(head[j]));
            }
        }
        best
    }
}

/// Among vertices of simplices that are all faces of one simplex, one is
/// free: the one that comes first in that simplex.
pub proof fn lemma_some_is_free(subs: Seq<Seq<usize>>, rest: Seq<usize>, t: Seq<usize>)
    requires
        subs.len() >= 2,
        are_faces_of(subs, t),
        rest.len() > 0,
        forall|j: int| 0 <= j < rest.len() ==> in_union(subs, #[trigger] rest[j]),
    ensures
        exists|m: int| 0 <= m < rest.len() && #[trigger] is_free(subs, rest, m),
{
    lemma_face_keeps(subs[0], t);
    lemma_face_keeps(subs[1], t);
    assert forall|j: int| 0 <= j < rest.len() implies t.contains(#[trigger] rest[j]) by {
        assert(in_union(subs, rest[j]));
    }
    let m = lemma_first_in(rest, t);
    assert forall|j: int| 0 <= j < rest.len() implies !ordered_by(subs, #[trigger] rest[j], rest[m]) by {
        if ordered_by(subs, rest[j], rest[m]) {
            let k = choose|k: int| 0 <= k < subs.len() && #[trigger] places(subs[k], rest[j], rest[m]);
            lemma_face_keeps(subs[k], t);
            assert(places(t, rest[j], rest[m]));
            let (x, y) = choose|x: int, y: int|
                0 <= x < y < t.len() && #[trigger] t[x] == rest[j] && #[trigger] t[y] == rest[m];
            let pj = t.index_of(rest[j]);
            let pm = t.index_of(rest[m]);
            assert(t.contains(rest[j]) && t.contains(rest[m]));
            assert(pj == x && pm == y);
            assert(t.index_of(rest[m]) <= t.index_of(rest[j]));
        }
    }
    assert(is_free(subs, rest, m));
}

/// Whether some simplex of `subs` places a vertex of `rest` before the one at
/// position `m`.
fn is_held_back(subs: &Vec<Vec<usize>>, rest: &Vec<usize>, m: usize) -> (held: bool)
    requires
        forall|k: int| 0 <= k < subs@.len() ==> (#[trigger] subs@[k])@.no_duplicates(),
        m < rest@.len(),
    ensures
        held == !is_free(views(subs@), rest@, m as int),
{
    let mut j: usize = 0;
    while j < rest.len()
        invariant
            j <= rest@.len(),
            m < rest@.len(),
            forall|k: int| 0 <= k < subs@.len() ==> (#[trigger] subs@[k])@.no_duplicates(),
            forall|i: int| 0 <= i < j ==> !ordered_by(views(subs@), #[trigger] rest@[i], rest@[m as int]),
        decreases rest@.len() - j,
    {
        if precedes(subs, rest[j], rest[m]) {
            return true;
        }
        j += 1;
    }
    false
}

/// The first position of `rest` whose vertex is free.
fn first_free(subs: &Vec<Vec<usize>>, rest: &Vec<usize>) -> (m: usize)
    requires
        forall|k: int| 0 <= k < subs@.len() ==> (#[trigger] subs@[k])@.no_duplicates(),
        exists|m: int| 0 <= m < rest@.len() && #[trigger] is_free(views(subs@), rest@, m),
    ensures
        m < rest@.len(),
        is_free(views(subs@), rest@, m as int),
{
    let mut i: usize = 0;
    while i < rest.len()
        invariant
            i <= rest@.len(),
            forall|k: int| 0 <= k < subs@.len() ==> (#[trigger] subs@[k])@.no_duplicates(),
            forall|c: int| 0 <= c < i ==> !#[trigger] is_free(views(subs@), rest@, c),
        decreases rest@.len() - i,
    {
        if !is_held_back(subs, rest, i) {
            return i;
        }
        i += 1;
    }
    proof {
        let m = choose|m: int| 0 <= m < rest@.len() && #[trigger] is_free(views(subs@), rest@, m);
        assert(!is_free(views(subs@), rest@, m));
    }
    0
}

/// Puts a simplex together from faces of it.
///
/// The vertices are those of the first two simplices of `sub_simplices`.
/// Wherever one of the given simplices places one of these vertices before
/// another, the result does so too. Where the given simplices order every two
/// of the vertices, as three facets of a simplex do, this leaves one sequence
/// only. Two facets leave the order of the two vertices open that each of
/// them lacks.
pub fn combine_simplices(sub_simplices: &Vec<Vec<usize>>) -> (simplex: Vec<usize>)
    requires
        sub_simplices@.len() >= 2,
        forall|k: int|
            0 <= k < sub_simplices@.len() ==> (#[trigger] sub_simplices@[k])@.no_duplicates(),
        exists|t: Seq<usize>| #[trigger] are_faces_of(views(sub_simplices@), t),
    ensures
        simplex@.no_duplicates(),
        forall|v: usize| #[trigger] simplex@.contains(v) <==> in_union(views(sub_simplices@), v),
        forall|a: usize, b: usize|
            in_union(views(sub_simplices@), a) && in_union(views(sub_simplices@), b) && #[trigger] ordered_by(
                views(sub_simplices@),
                a,
                b,
            ) ==> places(simplex@, a, b),
        linearly_ordered(views(sub_simplices@)) ==> is_combination(views(sub_simplices@), simplex@),
{
    let ghost subs = views(sub_simplices@);
    let ghost t = choose|t: Seq<usize>| #[trigger] are_faces_of(subs, t);
    let mut rest = merged_vertices(&sub_simplices[0], &sub_simplices[1]);
    assert(subs[0] == sub_simplices@[0]@ && subs[1] == sub_simplices@[1]@);
    let mut simplex: Vec<usize> = Vec::new();
    while rest.len() > 0
        invariant
            subs == views(sub_simplices@),
            subs.len() >= 2,
            are_faces_of(subs, t),
            forall|k: int|
                0 <= k < sub_simplices@.len() ==> (#[trigger] sub_simplices@[k])@.no_duplicates(),
            rest@.no_duplicates(),
            simplex@.no_duplicates(),
            forall|v: usize| !(rest@.contains(v) && simplex@.contains(v)),
            forall|v: usize| in_union(subs, v) <==> rest@.contains(v) || simplex@.contains(v),
            forall|i: int, j: int|
                0 <= i < j < simplex@.len() ==> !ordered_by(subs, #[trigger] simplex@[j], #[trigger] simplex@[i]),
            forall|i: int, j: int|
                0 <= i < simplex@.len() && 0 <= j < rest@.len() ==> !ordered_by(
                    subs,
                    #[trigger] rest@[j],
                    #[trigger] simplex@[i],
                ),
        decreases rest@.len(),
    {
        let ghost rest_before = rest@;
        let ghost done_before = simplex@;
        proof {
            assert forall|j: int| 0 <= j < rest@.len() implies in_union(subs, #[trigger] rest@[j]) by {
                assert(rest@.contains(rest@[j]));
            }
            lemma_some_is_free(subs, rest@, t);
        }
        let m = first_free(sub_simplices, &rest);
        let v = rest.remove(m);
        simplex.push(v);
        proof {
            lemma_remove_distinct(rest_before, m as int);
            assert(rest_before.contains(v));
            assert(!done_before.contains(v));
            assert forall|w: usize| #[trigger] simplex@.contains(w) <==> done_before.contains(w) || w == v by {
                if done_before.contains(w) {
                    let i = choose|i: int| 0 <= i < done_before.len() && done_before[i] == w;
                    assert(simplex@[i] == w);
                }
                if w == v {
                    assert(simplex@[done_before.len() as int] == v);
                }
                if simplex@.contains(w) {
                    let i = choose|i: int| 0 <= i < simplex@.len() && simplex@[i] == w;
                    if i < done_before.len() {
                        assert(done_before[i] == w);
                    }
                }
            }
            assert(simplex@.no_duplicates()) by {
                assert forall|i: int, j: int|
                    0 <= i < simplex@.len() && 0 <= j < simplex@.len() && i != j implies simplex@[i]
                    != simplex@[j] by {
                    if i < done_before.len() {
                        assert(done_before[i] == simplex@[i]);
                        assert(done_before.contains(simplex@[i]));
                    }
                    if j < done_before.len() {
                        assert(done_before[j] == simplex@[j]);
                        assert(done_before.contains(simplex@[j]));
                    }
                }
            }
            assert forall|i: int, j: int| 0 <= i < j < simplex@.len() implies !ordered_by(
                subs,
                #[trigger] simplex@[j],
                #[trigger] simplex@[i],
            ) by {
                assert(simplex@[i] == done_before[i]);
                if j < done_before.len() {
                    assert(simplex@[j] == done_before[j]);
                } else {
                    assert(simplex@[j] == rest_before[m as int]);
                }
            }
            assert forall|i: int, j: int| 0 <= i < simplex@.len() && 0 <= j < rest@.len() implies !ordered_by(
                subs,
                #[trigger] rest@[j],
                #[trigger] simplex@[i],
            ) by {
                let oj = if j < m {
                    j
                } else {
                    j + 1
                };
                assert(rest@[j] == rest_before[oj]);
                if i < done_before.len() {
                    assert(simplex@[i] == done_before[i]);
                } else {
                    assert(simplex@[i] == rest_before[m as int]);
                    assert(is_free(subs, rest_before, m as int));
                }
            }
        }
    }
    proof {
        assert forall|v: usize| #[trigger] simplex@.contains(v) <==> in_union(subs, v) by {
            if rest@.contains(v) {
                let i = choose|i: int| 0 <= i < rest@.len() && rest@[i] == v;
            }
        }
        assert forall|a: usize, b: usize|
            in_union(subs, a) && in_union(subs, b) && #[trigger] ordered_by(subs, a, b) implies places(
            simplex@,
            a,
            b,
        ) by {
            assert(simplex@.contains(a) && simplex@.contains(b));
            let i = choose|i: int| 0 <= i < simplex@.len() && simplex@[i] == a;
            let j = choose|j: int| 0 <= j < simplex@.len() && simplex@[j] == b;
            if i == j {
                let k = choose|k: int| 0 <= k < subs.len() && #[trigger] places(subs[k], a, b);
                assert(subs[k] == sub_simplices@[k]@);
                let (x, y) = choose|x: int, y: int|
                    0 <= x < y < subs[k].len() && #[trigger] subs[k][x] == a && #[trigger] subs[k][y] == b;
                assert(false);
            }
            if j < i {
                assert(!ordered_by(subs, simplex@[i], simplex@[j]));
            }
            assert(simplex@[i] == a && simplex@[j] == b);
        }
        if linearly_ordered(subs) {
            assert forall|i: int, j: int| 0 <= i < j < simplex@.len() implies ordered_by(
                subs,
                #[trigger] simplex@[i],
                #[trigger] simplex@[j],
            ) by {
                assert(simplex@.contains(simplex@[i]) && simplex@.contains(simplex@[j]));
                assert(in_union(subs, simplex@[i]) && in_union(subs, simplex@[j]));
                assert(!ordered_by(subs, simplex@[j], simplex@[i]));
            }
        }
    }
    simplex
}

/// `s` is a face of `t`: `t` itself, or `t` with some of its vertices deleted,
/// the others in their order.
pub open spec fn is_face(s: Seq<usize>, t: Seq<usize>) -> bool
    decreases t.len(),
{
    s == t || (s.len() < t.len() && exists|p: int| 0 <= p < t.len() && is_face(s, #[trigger] t.remove(p)))
}

/// A facet is a face.
pub proof fn lemma_facet_is_face(f: Seq<usize>, t: Seq<usize>)
    requires
        is_facet(f, t),
    ensures
        is_face(f, t),
{
    let p = choose|p: int| is_facet_at(f, t, p);
    assert(is_face(f, t.remove(p)));
}

/// A face has at most as many vertices as the simplex.
pub proof fn lemma_face_len(s: Seq<usize>, t: Seq<usize>)
    requires
        is_face(s, t),
    ensures
        s.len() <= t.len(),
        s.len() == t.len() ==> s == t,
{
}

/// A facet of a face of `t` is a face of `t`.
pub proof fn lemma_face_of_face(s: Seq<usize>, m: Seq<usize>, t: Seq<usize>)
    requires
        is_facet(s, m),
        is_face(m, t),
    ensures
        is_face(s, t),
    decreases t.len(),
{
    let q = choose|q: int| is_facet_at(s, m, q);
    if m == t {
        assert(is_face(s, t.remove(q)));
    } else {
        let p = choose|p: int| 0 <= p < t.len() && is_face(m, #[trigger] t.remove(p));
        lemma_face_len(m, t.remove(p));
        lemma_face_of_face(s, m, t.remove(p));
    }
}

/// What a sequence places in order, it still does with one more vertex.
pub proof fn lemma_places_in_facet(t: Seq<usize>, p: int, a: usize, b: usize)
    requires
        0 <= p < t.len(),
        places(t.remove(p), a, b),
    ensures
        places(t, a, b),
{
    let f = t.remove(p);
    let (i, j) = choose|i: int, j: int| 0 <= i < j < f.len() && #[trigger] f[i] == a && #[trigger] f[j] == b;
    let ni = if i < p {
        i
    } else {
        i + 1
    };
    let nj = if j < p {
        j
    } else {
        j + 1
    };
    assert(t[ni] == a && t[nj] == b);
}

/// The edge from `a` to `b` is a face of exactly the sequences that place `a`
/// before `b`.
pub proof fn lemma_edge_face(a: usize, b: usize, t: Seq<usize>)
    ensures
        is_face(edge(a, b), t) <==> places(t, a, b),
    decreases t.len(),
{
    if is_face(edge(a, b), t) {
        if edge(a, b) == t {
            assert(t[0] == a && t[1] == b);
        } else {
            let p = choose|p: int| 0 <= p < t.len() && is_face(edge(a, b), #[trigger] t.remove(p));
            lemma_edge_face(a, b, t.remove(p));
            lemma_places_in_facet(t, p, a, b);
        }
    }
    if places(t, a, b) {
        let (i, j) = choose|i: int, j: int| 0 <= i < j < t.len() && #[trigger] t[i] == a && #[trigger] t[j] == b;
        if t.len() == 2 {
            assert(t =~= edge(a, b));
        } else {
            let p = if i > 0 {
                0int
            } else if j > 1 {
                1int
            } else {
                2int
            };
            let f = t.remove(p);
            let ni = if i < p {
                i
            } else {
                i - 1
            };
            let nj = if j < p {
                j
            } else {
                j - 1
            };
            assert(f[ni] == a && f[nj] == b);
            lemma_edge_face(a, b, f);
        }
    }
}

/// A sequence without repeats, with one position deleted: no repeats, and
/// exactly the other vertices.
pub proof fn lemma_remove_distinct(s: Seq<usize>, i: int)
    requires
        s.no_duplicates(),
        0 <= i < s.len(),
    ensures
        s.remove(i).no_duplicates(),
        forall|w: usize| #[trigger] s.remove(i).contains(w) <==> s.contains(w) && w != s[i],
{
    let r = s.remove(i);
    assert forall|a: int, b: int| 0 <= a < r.len() && 0 <= b < r.len() && a != b implies r[a] != r[b] by {
        let oa = if a < i {
            a
        } else {
            a + 1
        };
        let ob = if b < i {
            b
        } else {
            b + 1
        };
        assert(r[a] == s[oa] && r[b] == s[ob]);
    }
    assert forall|w: usize| #[trigger] r.contains(w) <==> s.contains(w) && w != s[i] by {
        if r.contains(w) {
            let a = choose|a: int| 0 <= a < r.len() && r[a] == w;
            let oa = if a < i {
                a
            } else {
                a + 1
            };
            assert(s[oa] == w);
        }
        if s.contains(w) && w != s[i] {
            let oa = choose|oa: int| 0 <= oa < s.len() && s[oa] == w;
            let a = if oa < i {
                oa
            } else {
                oa - 1
            };
            assert(r[a] == w);
        }
    }
}

/// Two sequences without repeats that hold the same vertices, the second of
/// which keeps every pair in the order of the first, are the same sequence.
pub proof fn lemma_one_order(x: Seq<usize>, z: Seq<usize>)
    requires
        x.no_duplicates(),
        z.no_duplicates(),
        x.len() == z.len(),
        forall|v: usize| x.contains(v) <==> z.contains(v),
        forall|a: usize, b: usize| places(x, a, b) ==> places(z, a, b),
    ensures
        x == z,
    decreases x.len(),
{
    let n = x.len() as int;
    if n == 0 {
        assert(x =~= z);
    } else {
        let a = x[n - 1];
        assert(x.contains(a));
        let q = choose|q: int| 0 <= q < n && z[q] == a;
        if q < n - 1 {
            let b = z[n - 1];
            assert(z.contains(b));
            let i = choose|i: int| 0 <= i < n && x[i] == b;
            assert(i != n - 1);
            assert(x[i] == b && x[n - 1] == a);
            assert(places(x, b, a));
            let (i2, j2) = choose|i2: int, j2: int|
                0 <= i2 < j2 < z.len() && #[trigger] z[i2] == b && #[trigger] z[j2] == a;
            assert(i2 == n - 1 && j2 == q);
        }
        let xs = x.drop_last();
        let zs = z.drop_last();
        assert(xs =~= x.remove(n - 1));
        assert(zs =~= z.remove(n - 1));
        lemma_remove_distinct(x, n - 1);
        lemma_remove_distinct(z, n - 1);
        assert forall|c: usize, e: usize| places(xs, c, e) implies places(zs, c, e) by {
            lemma_places_in_facet(x, n - 1, c, e);
            let (i2, j2) = choose|i2: int, j2: int|
                0 <= i2 < j2 < z.len() && #[trigger] z[i2] == c && #[trigger] z[j2] == e;
            assert(xs.contains(e)) by {
                let (i3, j3) = choose|i3: int, j3: int|
                    0 <= i3 < j3 < xs.len() && #[trigger] xs[i3] == c && #[trigger] xs[j3] == e;
                assert(xs[j3] == e);
            }
            assert(j2 != n - 1);
            assert(zs[i2] == c && zs[j2] == e);
        }
        lemma_one_order(xs, zs);
        assert(x =~= xs.push(a));
        assert(z =~= zs.push(a));
    }
}

/// A sequence that is `f` with `v` put in has one vertex more: those of `f`
/// and `v`.
pub proof fn lemma_extends_vertices(f: Seq<usize>, v: usize, t: Seq<usize>)
    requires
        extends(f, v, t),
    ensures
        t.len() == f.len() + 1,
        forall|w: usize| t.contains(w) <==> f.contains(w) || w == v,
{
    let p = choose|p: int| #[trigger] is_facet_at(f, t, p) && t[p] == v;
    assert forall|w: usize| t.contains(w) <==> f.contains(w) || w == v by {
        if t.contains(w) {
            let i = choose|i: int| 0 <= i < t.len() && t[i] == w;
            if i != p {
                let oi = if i < p {
                    i
                } else {
                    i - 1
                };
                assert(f[oi] == w);
            }
        }
        if f.contains(w) {
            let oi = choose|oi: int| 0 <= oi < f.len() && f[oi] == w;
            let i = if oi < p {
                oi
            } else {
                oi + 1
            };
            assert(t[i] == w);
        }
        if w == v {
            assert(t[p] == w);
        }
    }
}

/// Two sequences without repeats that hold the same vertices are equally
/// long.
pub proof fn lemma_same_vertices_same_len(x: Seq<usize>, z: Seq<usize>)
    requires
        x.no_duplicates(),
        z.no_duplicates(),
        forall|v: usize| x.contains(v) <==> z.contains(v),
    ensures
        x.len() == z.len(),
{
    x.unique_seq_to_set();
    z.unique_seq_to_set();
    assert(x.to_set() =~= z.to_set()) by {
        assert forall|v: usize| x.to_set().contains(v) <==> z.to_set().contains(v) by {
            assert(x.contains(v) <==> z.contains(v));
        }
    }
}

/// A sequence without repeats that holds the vertices of `r` but one, and
/// places no two of them otherwise than `r` does, is a facet of `r`.
pub proof fn lemma_is_facet_by_order(f: Seq<usize>, r: Seq<usize>)
    requires
        f.no_duplicates(),
        r.no_duplicates(),
        r.len() == f.len() + 1,
        forall|v: usize| f.contains(v) ==> r.contains(v),
        forall|a: usize, b: usize| places(f, a, b) ==> places(r, a, b),
    ensures
        is_facet(f, r),
{
    // the vertex of `r` that `f` lacks
    f.unique_seq_to_set();
    r.unique_seq_to_set();
    if forall|i: int| 0 <= i < r.len() ==> f.contains(#[trigger] r[i]) {
        assert(r.to_set() =~= f.to_set()) by {
            assert forall|v: usize| r.to_set().contains(v) <==> f.to_set().contains(v) by {
                if r.contains(v) {
                    let i = choose|i: int| 0 <= i < r.len() && r[i] == v;
                    assert(f.contains(r[i]));
                }
            }
        }
        assert(false);
    }
    let p = choose|p: int| 0 <= p < r.len() && !f.contains(#[trigger] r[p]);
    let g = r.remove(p);
    lemma_remove_distinct(r, p);
    assert forall|v: usize| f.contains(v) implies g.contains(v) by {
        assert(r.contains(v));
    }
    // `g` holds nothing but the vertices of `f`: both have as many
    g.unique_seq_to_set();
    assert(f.to_set().subset_of(g.to_set())) by {
        assert forall|v: usize| f.to_set().contains(v) implies g.to_set().contains(v) by {
            assert(f.contains(v));
        }
    }
    vstd::set_lib::lemma_subset_equality(f.to_set(), g.to_set());
    assert forall|v: usize| f.contains(v) <==> g.contains(v) by {
        assert(f.to_set().contains(v) <==> g.to_set().contains(v));
    }
    assert forall|a: usize, b: usize| places(f, a, b) implies places(g, a, b) by {
        let (i, j) = choose|i: int, j: int| 0 <= i < j < f.len() && #[trigger] f[i] == a && #[trigger] f[j] == b;
        assert(f.contains(a) && f.contains(b));
        let (x, y) = choose|x: int, y: int| 0 <= x < y < r.len() && #[trigger] r[x] == a && #[trigger] r[y] == b;
        assert(x != p && y != p);
        let gx = if x < p {
            x
        } else {
            x - 1
        };
        let gy = if y < p {
            y
        } else {
            y - 1
        };
        assert(g[gx] == a && g[gy] == b);
    }
    lemma_one_order(f, g);
    assert(is_facet_at(f, r, p));
}

/// Two different facets of a simplex, put together: a sequence that lists
/// their vertices, each once, and places two of them as either facet does,
/// has both as facets and holds exactly the vertices of the simplex. It is a
/// permutation of the simplex in which both facets keep their order.
pub proof fn lemma_two_facets(t: Seq<usize>, subs: Seq<Seq<usize>>, r: Seq<usize>)
    requires
        t.no_duplicates(),
        subs.len() == 2,
        is_facet(subs[0], t),
        is_facet(subs[1], t),
        subs[0] != subs[1],
        r.no_duplicates(),
        forall|v: usize| r.contains(v) <==> in_union(subs, v),
        forall|a: usize, b: usize|
            in_union(subs, a) && in_union(subs, b) && #[trigger] ordered_by(subs, a, b) ==> places(r, a, b),
    ensures
        forall|v: usize| r.contains(v) <==> t.contains(v),
        r.len() == t.len(),
        is_facet(subs[0], r),
        is_facet(subs[1], r),
{
    let pa = choose|p: int| is_facet_at(subs[0], t, p);
    let pb = choose|p: int| is_facet_at(subs[1], t, p);
    assert(pa != pb);
    lemma_remove_distinct(t, pa);
    lemma_remove_distinct(t, pb);
    assert forall|v: usize| r.contains(v) <==> t.contains(v) by {
        assert(r.contains(v) <==> in_union(subs, v));
        if t.contains(v) && v == t[pa] {
            assert(v != t[pb]);
        }
    }
    lemma_same_vertices_same_len(r, t);
    assert forall|k: int, a: usize, b: usize| 0 <= k < 2 && #[trigger] places(subs[k], a, b) implies places(
        r,
        a,
        b,
    ) by {
        let (i, j) = choose|i: int, j: int|
            0 <= i < j < subs[k].len() && #[trigger] subs[k][i] == a && #[trigger] subs[k][j] == b;
        assert(subs[k].contains(a) && subs[k].contains(b));
        assert(ordered_by(subs, a, b));
    }
    assert forall|v: usize| subs[0].contains(v) implies r.contains(v) by {
        assert(in_union(subs, v));
    }
    assert forall|v: usize| subs[1].contains(v) implies r.contains(v) by {
        assert(in_union(subs, v));
    }
    lemma_is_facet_by_order(subs[0], r);
    lemma_is_facet_by_order(subs[1], r);
}

/// Simplices that agree on one linear order have one combination only.
pub proof fn lemma_combination_unique(subs: Seq<Seq<usize>>, first: Seq<usize>, second: Seq<usize>)
    requires
        linearly_ordered(subs),
        is_combination(subs, first),
        is_combination(subs, second),
    ensures
        first == second,
{
    assert forall|v: usize| first.contains(v) <==> second.contains(v) by {
        assert(first.contains(v) <==> in_union(subs, v));
        assert(second.contains(v) <==> in_union(subs, v));
    }
    lemma_same_vertices_same_len(first, second);
    assert forall|a: usize, b: usize| places(first, a, b) implies places(second, a, b) by {
        let (i, j) = choose|i: int, j: int|
            0 <= i < j < first.len() && #[trigger] first[i] == a && #[trigger] first[j] == b;
        assert(ordered_by(subs, first[i], first[j]));
        assert(first.contains(a) && first.contains(b));
        assert(second.contains(a) && second.contains(b));
        let ia = choose|ia: int| 0 <= ia < second.len() && second[ia] == a;
        let ib = choose|ib: int| 0 <= ib < second.len() && second[ib] == b;
        assert(a != b);
        if ib < ia {
            assert(ordered_by(subs, second[ib], second[ia]));
            assert(in_union(subs, a) && in_union(subs, b));
        } else {
            assert(second[ia] == a && second[ib] == b);
        }
    }
    lemma_one_order(first, second);
}

/// Three different facets of a simplex of dimension 2 or more fix it: they
/// agree on one linear order of its vertices, and the simplex is the only
/// sequence that lists these vertices in that order.
pub proof fn lemma_facets_fix_simplex(t: Seq<usize>, subs: Seq<Seq<usize>>)
    requires
        t.no_duplicates(),
        subs.len() >= 3,
        forall|k: int| 0 <= k < subs.len() ==> is_facet(#[trigger] subs[k], t),
        subs[0] != subs[1],
        subs[0] != subs[2],
        subs[1] != subs[2],
    ensures
        linearly_ordered(subs),
        is_combination(subs, t),
        forall|r: Seq<usize>| #[trigger] is_combination(subs, r) ==> r == t,
{
    let pa = choose|p: int| is_facet_at(subs[0], t, p);
    let pb = choose|p: int| is_facet_at(subs[1], t, p);
    let pc = choose|p: int| is_facet_at(subs[2], t, p);
    assert(pa != pb && pa != pc && pb != pc);
    lemma_remove_distinct(t, pa);
    lemma_remove_distinct(t, pb);
    assert forall|v: usize| in_union(subs, v) <==> t.contains(v) by {
        if t.contains(v) && v == t[pa] {
            assert(v != t[pb]);
        }
    }
    assert forall|a: usize, b: usize| ordered_by(subs, a, b) <==> places(t, a, b) by {
        if ordered_by(subs, a, b) {
            let k = choose|k: int| 0 <= k < subs.len() && #[trigger] places(subs[k], a, b);
            let p = choose|p: int| is_facet_at(subs[k], t, p);
            lemma_places_in_facet(t, p, a, b);
        }
        if places(t, a, b) {
            let (i, j) = choose|i: int, j: int| 0 <= i < j < t.len() && #[trigger] t[i] == a && #[trigger] t[j] == b;
            let k = if pa != i && pa != j {
                0int
            } else if pb != i && pb != j {
                1int
            } else {
                2int
            };
            let p = if k == 0 {
                pa
            } else if k == 1 {
                pb
            } else {
                pc
            };
            let f = t.remove(p);
            assert(subs[k] == f);
            let ni = if i < p {
                i
            } else {
                i - 1
            };
            let nj = if j < p {
                j
            } else {
                j - 1
            };
            assert(f[ni] == a && f[nj] == b);
            assert(places(subs[k], a, b));
        }
    }
    assert forall|a: usize, b: usize|
        #![trigger ordered_by(subs, a, b)]
        in_union(subs, a) && in_union(subs, b) && a != b implies ordered_by(subs, a, b) || ordered_by(
        subs,
        b,
        a,
    ) by {
        assert(t.contains(a) && t.contains(b));
        let i = choose|i: int| 0 <= i < t.len() && t[i] == a;
        let j = choose|j: int| 0 <= j < t.len() && t[j] == b;
        if i < j {
            assert(t[i] == a && t[j] == b);
            assert(places(t, a, b));
        } else {
            assert(t[j] == b && t[i] == a);
            assert(places(t, b, a));
        }
    }
    assert forall|a: usize, b: usize|
        #![trigger ordered_by(subs, a, b)]
        in_union(subs, a) && in_union(subs, b) implies !(ordered_by(subs, a, b) && ordered_by(subs, b, a)) by {
        if places(t, a, b) && places(t, b, a) {
            let (i, j) = choose|i: int, j: int| 0 <= i < j < t.len() && #[trigger] t[i] == a && #[trigger] t[j] == b;
            let (i2, j2) = choose|i2: int, j2: int|
                0 <= i2 < j2 < t.len() && #[trigger] t[i2] == b && #[trigger] t[j2] == a;
            assert(i == j2 && j == i2);
        }
    }
    assert forall|a: usize, b: usize, c: usize|
        #![trigger ordered_by(subs, a, b), ordered_by(subs, b, c)]
        in_union(subs, a) && in_union(subs, b) && in_union(subs, c) && ordered_by(subs, a, b) && ordered_by(
            subs,
            b,
            c,
        ) implies ordered_by(subs, a, c) by {
        let (i, j) = choose|i: int, j: int| 0 <= i < j < t.len() && #[trigger] t[i] == a && #[trigger] t[j] == b;
        let (i2, j2) = choose|i2: int, j2: int|
            0 <= i2 < j2 < t.len() && #[trigger] t[i2] == b && #[trigger] t[j2] == c;
        assert(j == i2);
        assert(t[i] == a && t[j2] == c);
        assert(places(t, a, c));
    }
    assert(is_combination(subs, t)) by {
        assert forall|i: int, j: int| 0 <= i < j < t.len() implies ordered_by(
            subs,
            #[trigger] t[i],
            #[trigger] t[j],
        ) by {
            assert(places(t, t[i], t[j]));
        }
    }
    assert forall|r: Seq<usize>| #[trigger] is_combination(subs, r) implies r == t by {
        assert forall|v: usize| r.contains(v) <==> t.contains(v) by {
            assert(r.contains(v) <==> in_union(subs, v));
        }
        lemma_same_vertices_same_len(r, t);
        assert forall|a: usize, b: usize| places(r, a, b) implies places(t, a, b) by {
            let (i, j) = choose|i: int, j: int| 0 <= i < j < r.len() && #[trigger] r[i] == a && #[trigger] r[j] == b;
            assert(ordered_by(subs, r[i], r[j]));
        }
        lemma_one_order(r, t);
    }
}

} // verus!
