//! The simplex index table: a bijection between slot numbers and simplices,
//! held by `bimap`.
//!
//! The verifier does not look inside a `BiHashMap`. What it knows of one is
//! what the functions marked `external_body` below state, each under the name
//! of the `bimap` function that it calls.

use bimap::BiHashMap;
use vstd::prelude::*;

verus! {

#[verifier::external_type_specification]
#[verifier::external_body]
#[verifier::reject_recursive_types(L)]
#[verifier::reject_recursive_types(R)]
#[verifier::reject_recursive_types(LS)]
#[verifier::reject_recursive_types(RS)]
pub struct ExBiHashMap<L, R, LS, RS>(BiHashMap<L, R, LS, RS>);

/// The pairs that a table holds, as a map from the left value (the slot) to
/// the right value (the vertices of the simplex).
pub uninterp spec fn table_pairs(t: BiHashMap<usize, Vec<usize>>) -> Map<usize, Seq<usize>>;

/// The pairs of a table that holds nothing.
pub open spec fn no_pairs() -> Map<usize, Seq<usize>> {
    Map::empty()
}

/// The pairs of a table after `(slot, simplex)` is put in: the pair itself,
/// and the earlier pairs that share neither its slot nor its simplex.
pub open spec fn pairs_with(pairs: Map<usize, Seq<usize>>, slot: usize, simplex: Seq<usize>) -> Map<
    usize,
    Seq<usize>,
> {
    Map::new(
        |k: usize| k == slot || (pairs.dom().contains(k) && pairs[k] != simplex),
        |k: usize|
            if k == slot {
                simplex
            } else {
                pairs[k]
            },
    )
}

/// The pairs of a table without those that hold `simplex`.
pub open spec fn pairs_without(pairs: Map<usize, Seq<usize>>, simplex: Seq<usize>) -> Map<
    usize,
    Seq<usize>,
> {
    Map::new(|k: usize| pairs.dom().contains(k) && pairs[k] != simplex, |k: usize| pairs[k])
}

/// Some slot of `pairs` holds `simplex`.
pub open spec fn pairs_hold(pairs: Map<usize, Seq<usize>>, simplex: Seq<usize>) -> bool {
    exists|k: usize| #[trigger] pairs.dom().contains(k) && pairs[k] == simplex
}

/// `BiHashMap::new`: a table without pairs.
#[verifier::external_body]
pub(crate) fn new_table() -> (t: BiHashMap<usize, Vec<usize>>)
    ensures
        table_pairs(t) == no_pairs(),
{
    BiHashMap::new()
}

/// `BiHashMap::contains_right`: whether some slot holds `simplex`.
#[verifier::external_body]
pub(crate) fn holds_simplex(t: &BiHashMap<usize, Vec<usize>>, simplex: &Vec<usize>) -> (yes: bool)
    ensures
        yes == pairs_hold(table_pairs(*t), simplex@),
{
    t.contains_right(simplex)
}

/// `BiHashMap::get_by_right`: a slot that holds `simplex`, or `None` where no
/// slot does.
#[verifier::external_body]
pub(crate) fn slot_of(t: &BiHashMap<usize, Vec<usize>>, simplex: &Vec<usize>) -> (slot: Option<usize>)
    ensures
        match slot {
            Some(k) => table_pairs(*t).dom().contains(k) && table_pairs(*t)[k] == simplex@,
            None => !pairs_hold(table_pairs(*t), simplex@),
        },
{
    t.get_by_right(simplex).copied()
}

/// `BiHashMap::get_by_left`: a copy of the simplex in `slot`, or `None` where
/// the slot is not in use.
#[verifier::external_body]
pub(crate) fn simplex_in(t: &BiHashMap<usize, Vec<usize>>, slot: usize) -> (simplex: Option<Vec<usize>>)
    ensures
        match simplex {
            Some(s) => table_pairs(*t).dom().contains(slot) && table_pairs(*t)[slot] == s@,
            None => !table_pairs(*t).dom().contains(slot),
        },
{
    t.get_by_left(&slot).cloned()
}

/// `BiHashMap::insert`: puts the pair `(slot, simplex)` in. A pair that had
/// this slot, and a pair that had this simplex, leave the table.
#[verifier::external_body]
pub(crate) fn put(t: &mut BiHashMap<usize, Vec<usize>>, slot: usize, simplex: Vec<usize>)
    ensures
        table_pairs(*final(t)) == pairs_with(table_pairs(*old(t)), slot, simplex@),
{
    t.insert(slot, simplex);
}

/// `BiHashMap::remove_by_left`: takes the pair of `slot` out and returns it,
/// or returns `None` and changes nothing where the slot is not in use.
#[verifier::external_body]
pub(crate) fn take_slot(t: &mut BiHashMap<usize, Vec<usize>>, slot: usize) -> (pair: Option<
    (usize, Vec<usize>),
>)
    ensures
        table_pairs(*final(t)) == table_pairs(*old(t)).remove(slot),
        match pair {
            Some(p) => table_pairs(*old(t)).dom().contains(slot) && p.0 == slot && p.1@
                == table_pairs(*old(t))[slot],
            None => !table_pairs(*old(t)).dom().contains(slot),
        },
{
    t.remove_by_left(&slot)
}

/// `BiHashMap::remove_by_right`: takes the pair that holds `simplex` out and
/// returns it, or returns `None` and changes nothing where no slot holds it.
#[verifier::external_body]
pub(crate) fn take_simplex(t: &mut BiHashMap<usize, Vec<usize>>, simplex: &Vec<usize>) -> (pair:
    Option<(usize, Vec<usize>)>)
    ensures
        table_pairs(*final(t)) == pairs_without(table_pairs(*old(t)), simplex@),
        match pair {
            Some(p) => table_pairs(*old(t)).dom().contains(p.0) && table_pairs(*old(t))[p.0]
                == simplex@ && p.1@ == simplex@,
            None => !pairs_hold(table_pairs(*old(t)), simplex@),
        },
{
    t.remove_by_right(simplex)
}

/// `BiHashMap::left_values`, collected: every slot in use, each once, in the
/// order in which the table happens to hand them out.
#[verifier::external_body]
pub(crate) fn slots_in_use(t: &BiHashMap<usize, Vec<usize>>) -> (slots: Vec<usize>)
    ensures
        slots@.no_duplicates(),
        forall|k: usize| #[trigger] slots@.contains(k) <==> table_pairs(*t).dom().contains(k),
{
    t.left_values().copied().collect()
}

/// `sort` of the standard library on a list of slots: the same numbers, in
/// ascending order.
#[verifier::external_body]
pub(crate) fn sort_slots(slots: &mut Vec<usize>)
    ensures
        final(slots)@.to_multiset() == old(slots)@.to_multiset(),
        forall|i: int, j: int| 0 <= i < j < final(slots)@.len() ==> final(slots)@[i] <= final(slots)@[j],
{
    slots.sort();
}

} // verus!
