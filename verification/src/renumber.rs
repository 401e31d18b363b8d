//! Renumbering the slots of a table so that they are `0, 1, ..` without a gap,
//! each simplex keeping its place in the order of the slots.

use crate::slots::{put, slots_in_use, sort_slots, table_pairs, take_slot};
use bimap::BiHashMap;
use vstd::prelude::*;

verus! {

/// The number of slots in `dom` that are smaller than `k`.
pub open spec fn slots_below(dom: Set<usize>, k: int) -> int
    decreases k,
{
    if k <= 0 {
        0
    } else {
        slots_below(dom, k - 1) + (if dom.contains((k - 1) as usize) {
            1int
        } else {
            0int
        })
    }
}

/// No two slots hold the same simplex.
pub open spec fn one_slot_each(pairs: Map<usize, Seq<usize>>) -> bool {
    forall|a: usize, b: usize|
        pairs.dom().contains(a) && pairs.dom().contains(b) && a != b ==> #[trigger] pairs[a]
            != #[trigger] pairs[b]
}

/// The slot to which the simplex in slot `k` moves: the number of slots in
/// use below it.
pub open spec fn new_slot(before: Map<usize, Seq<usize>>, k: usize) -> usize {
    slots_below(before.dom(), k as int) as usize
}

/// `after` holds the simplices of `before`, each in the slot given by the
/// number of slots that were in use below its own.
pub open spec fn is_compaction(before: Map<usize, Seq<usize>>, after: Map<usize, Seq<usize>>) -> bool {
    &&& forall|k: usize|
        before.dom().contains(k) ==> after.dom().contains(#[trigger] new_slot(before, k)) && after[new_slot(
            before,
            k,
        )] == before[k]
    &&& forall|i: usize|
        #[trigger] after.dom().contains(i) ==> exists|k: usize|
            before.dom().contains(k) && #[trigger] new_slot(before, k) == i
}

/// The slots in ascending order, each once: every one of them is at least its
/// own position.
proof fn lemma_position_bound(keys: Seq<usize>, j: int)
    requires
        forall|a: int, b: int| 0 <= a < b < keys.len() ==> keys[a] < keys[b],
        0 <= j < keys.len(),
    ensures
        keys[j] >= j,
    decreases j,
{
    if j > 0 {
        lemma_position_bound(keys, j - 1);
    }
}

/// With the slots of `dom` listed in ascending order, `j` slots lie below `m`
/// where the list reaches `m` at position `j`.
proof fn lemma_slots_below(dom: Set<usize>, keys: Seq<usize>, m: int, j: int)
    requires
        forall|a: int, b: int| 0 <= a < b < keys.len() ==> keys[a] < keys[b],
        forall|k: usize| #[trigger] keys.contains(k) <==> dom.contains(k),
        0 <= m <= usize::MAX + 1,
        0 <= j <= keys.len(),
        j < keys.len() ==> keys[j] >= m,
        j > 0 ==> keys[j - 1] < m,
    ensures
        slots_below(dom, m) == j,
    decreases m,
{
    if m > 0 {
        let prev = (m - 1) as usize;
        if dom.contains(prev) {
            assert(keys.contains(prev));
            let at = choose|at: int| 0 <= at < keys.len() && keys[at] == prev;
            assert(at == j - 1) by {
                if at >= j {
                    if at > j {
                        assert(keys[j] < keys[at]);
                    }
                }
                if j > 0 && at < j - 1 {
                    assert(keys[at] < keys[j - 1]);
                }
            }
            if j - 1 > 0 {
                assert(keys[j - 2] < keys[j - 1]);
            }
            lemma_slots_below(dom, keys, m - 1, j - 1);
        } else {
            if j > 0 {
                assert(keys.contains(keys[j - 1]));
            }
            lemma_slots_below(dom, keys, m - 1, j);
        }
    } else {
        if j > 0 {
            assert(keys[j - 1] < 0);
        }
    }
}

/// Renumbers the slots of `table` to `0, 1, ..` without a gap. The simplex
/// that had the smallest slot gets slot 0, the next one slot 1, and so on.
pub fn compact_slots(table: &mut BiHashMap<usize, Vec<usize>>)
    requires
        one_slot_each(table_pairs(*old(table))),
    ensures
        is_compaction(table_pairs(*old(table)), table_pairs(*final(table))),
        one_slot_each(table_pairs(*final(table))),
{
    let ghost orig = table_pairs(*table);
    let mut keys = slots_in_use(table);
    let ghost listed = keys@;
    sort_slots(&mut keys);
    proof {
        broadcast use vstd::seq_lib::to_multiset_contains;

        listed.lemma_multiset_has_no_duplicates();
        assert forall|x: usize| keys@.to_multiset().contains(x) implies keys@.to_multiset().count(x)
            == 1 by {}
        keys@.lemma_multiset_has_no_duplicates_conv();
        assert forall|k: usize| #[trigger] keys@.contains(k) <==> orig.dom().contains(k) by {
            assert(keys@.contains(k) <==> keys@.to_multiset().count(k) > 0);
            assert(listed.contains(k) <==> listed.to_multiset().count(k) > 0);
        }
        assert forall|a: int, b: int| 0 <= a < b < keys@.len() implies keys@[a] < keys@[b] by {
            assert(keys@[a] <= keys@[b]);
        }
    }
    let n = keys.len();
    proof {
        assert forall|j: int| 0 <= j < n implies orig.dom().contains(#[trigger] keys@[j]) by {
            assert(keys@.contains(keys@[j]));
        }
        assert forall|k: usize| #[trigger] orig.dom().contains(k) implies exists|j: int|
            0 <= j < n && #[trigger] keys@[j] == k by {
            assert(keys@.contains(k));
            let j = choose|j: int| 0 <= j < n && keys@[j] == k;
            assert(keys@[j] == k);
        }
    }
    let mut i: usize = 0;
    while i < n
        invariant
            n == keys@.len(),
            i <= n,
            one_slot_each(orig),
            forall|a: int, b: int| 0 <= a < b < keys@.len() ==> keys@[a] < keys@[b],
            forall|k: usize| #[trigger] keys@.contains(k) <==> orig.dom().contains(k),
            forall|s: usize|
                s < i ==> #[trigger] table_pairs(*table).dom().contains(s) && table_pairs(*table)[s]
                    == orig[keys@[s as int]],
            forall|j: int|
                i <= j < n ==> table_pairs(*table).dom().contains(#[trigger] keys@[j]) && table_pairs(
                    *table,
                )[keys@[j]] == orig[keys@[j]],
            forall|k: usize|
                #[trigger] table_pairs(*table).dom().contains(k) ==> k < i || exists|j: int|
                    i <= j < n && #[trigger] keys@[j] == k,
        decreases n - i,
    {
        let key = keys[i];
        let ghost cur = table_pairs(*table);
        proof {
            lemma_position_bound(keys@, i as int);
            assert forall|j: int| i < j < n implies #[trigger] keys@[j] > key by {}
        }
        if key != i {
            match take_slot(table, key) {
                Some(pair) => {
                    let ghost taken = table_pairs(*table);
                    let simplex = pair.1;
                    proof {
                        assert(simplex@ == orig[key]);
                        assert(keys@.contains(key));
                        assert forall|k: usize| taken.dom().contains(k) implies taken[k]
                            != simplex@ by {
                            assert(cur.dom().contains(k) && k != key);
                            if k < i {
                                assert(cur[k] == orig[keys@[k as int]]);
                                assert(keys@[k as int] < key);
                                assert(keys@.contains(keys@[k as int]));
                            } else {
                                let j = choose|j: int| i <= j < n && #[trigger] keys@[j] == k;
                                assert(keys@.contains(k));
                            }
                        }
                    }
                    put(table, i, simplex);
                    proof {
                        let now = table_pairs(*table);
                        assert forall|s: usize| s < i + 1 implies #[trigger] now.dom().contains(s)
                            && now[s] == orig[keys@[s as int]] by {
                            if s < i {
                                assert(cur.dom().contains(s));
                                assert(taken.dom().contains(s));
                            }
                        }
                        assert forall|j: int| i + 1 <= j < n implies now.dom().contains(
                            #[trigger] keys@[j],
                        ) && now[keys@[j]] == orig[keys@[j]] by {
                            assert(cur.dom().contains(keys@[j]));
                            assert(taken.dom().contains(keys@[j]));
                        }
                        assert forall|k: usize| #[trigger] now.dom().contains(k) implies k < i + 1
                            || exists|j: int| i + 1 <= j < n && #[trigger] keys@[j] == k by {
                            if k != i {
                                assert(taken.dom().contains(k));
                                assert(cur.dom().contains(k));
                                if k > i {
                                    let j = choose|j: int| i <= j < n && #[trigger] keys@[j] == k;
                                    assert(j != i);
                                }
                            }
                        }
                    }
                },
                None => {
                    assert(false);
                },
            }
        } else {
            proof {
                let now = table_pairs(*table);
                assert(now.dom().contains(keys@[i as int]) && now[keys@[i as int]] == orig[keys@[i as int]]);
                assert forall|s: usize| s < i + 1 implies #[trigger] now.dom().contains(s) && now[s]
                    == orig[keys@[s as int]] by {}
                assert forall|k: usize| #[trigger] now.dom().contains(k) implies k < i + 1 || exists|
                    j: int,
                | i + 1 <= j < n && #[trigger] keys@[j] == k by {
                    if k > i {
                        let j = choose|j: int| i <= j < n && #[trigger] keys@[j] == k;
                        assert(j != i);
                    }
                }
            }
        }
        i += 1;
    }
    proof {
        let now = table_pairs(*table);
        assert forall|j: int| 0 <= j < n implies new_slot(orig, #[trigger] keys@[j]) == j by {
            if j > 0 {
                assert(keys@[j - 1] < keys@[j]);
            }
            lemma_slots_below(orig.dom(), keys@, keys@[j] as int, j);
        }
        assert forall|k: usize| orig.dom().contains(k) implies now.dom().contains(
            #[trigger] new_slot(orig, k),
        ) && now[new_slot(orig, k)] == orig[k] by {
            assert(keys@.contains(k));
            let j = choose|j: int| 0 <= j < n && keys@[j] == k;
            assert(new_slot(orig, keys@[j]) == j);
        }
        assert forall|s: usize| #[trigger] now.dom().contains(s) implies exists|k: usize|
            orig.dom().contains(k) && #[trigger] new_slot(orig, k) == s by {
            assert(s < n);
            let k = keys@[s as int];
            assert(keys@.contains(k));
            assert(new_slot(orig, keys@[s as int]) == s);
        }
        assert forall|a: usize, b: usize|
            now.dom().contains(a) && now.dom().contains(b) && a != b implies #[trigger] now[a]
            != #[trigger] now[b] by {
            assert(now[a] == orig[keys@[a as int]]);
            assert(now[b] == orig[keys@[b as int]]);
            assert(keys@.contains(keys@[a as int]) && keys@.contains(keys@[b as int]));
            if a < b {
                assert(keys@[a as int] < keys@[b as int]);
            } else {
                assert(keys@[b as int] < keys@[a as int]);
            }
        }
    }
}

/// Where exactly the slots below `n` other than `gap` are in use, each slot
/// above the gap moves down by one and each slot below it stays.
pub proof fn lemma_one_gap(dom: Set<usize>, n: int, gap: int, k: int)
    requires
        0 <= gap < n <= usize::MAX,
        forall|s: usize| #[trigger] dom.contains(s) <==> s < n && s != gap,
        0 <= k <= n,
    ensures
        slots_below(dom, k) == (if k <= gap {
            k
        } else {
            k - 1
        }),
    decreases k,
{
    if k > 0 {
        lemma_one_gap(dom, n, gap, k - 1);
        assert(dom.contains((k - 1) as usize) <==> k - 1 != gap);
    }
}

} // verus!
