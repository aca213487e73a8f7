//! The host-delivered snapshots and the join that derives display positions.
//!
//! The host fully replaces both snapshots on every update: the ordered list
//! of groups, and the mapping from a group's host position to the items
//! inside it. An item's display position is the index of its group in the
//! group list; virtual and hidden items are excluded everywhere.

use vstd::prelude::*;
use crate::vecmap::assoc_map;

verus! {

/// A group as the host reports it: its host-assigned position and its
/// currently displayed label.
pub struct Group {
    pub position: u64,
    pub label: String,
}

/// An item as the host reports it. Virtual and hidden items take no part in
/// reconciliation or rename targeting.
pub struct Item {
    pub id: u64,
    pub is_virtual: bool,
    pub is_hidden: bool,
}

/// The item list the host reports for the group at one host position.
pub struct ItemGroup {
    pub position: u64,
    pub items: Vec<Item>,
}

pub open spec fn eligible_item(it: Item) -> bool {
    !it.is_virtual && !it.is_hidden
}

/// The item list of the first snapshot entry for `pos`, or empty when the
/// snapshot has none.
pub open spec fn items_of(igs: Seq<ItemGroup>, pos: u64) -> Seq<Item>
    decreases igs.len(),
{
    if igs.len() == 0 {
        Seq::empty()
    } else if igs[0].position == pos {
        igs[0].items@
    } else {
        items_of(igs.drop_first(), pos)
    }
}

/// The (item id, display index) pairs one item list contributes.
pub open spec fn pairs_of_list(items: Seq<Item>, d: u64) -> Seq<(u64, u64)>
    decreases items.len(),
{
    if items.len() == 0 {
        Seq::empty()
    } else {
        pairs_of_list(items.drop_last(), d) + if eligible_item(items.last()) {
            seq![(items.last().id, d)]
        } else {
            Seq::<(u64, u64)>::empty()
        }
    }
}

/// All (item id, display index) pairs of the joined snapshots, in
/// enumeration order: groups by display index, then their item lists.
pub open spec fn eligible_pairs(groups: Seq<Group>, igs: Seq<ItemGroup>) -> Seq<(u64, u64)>
    decreases groups.len(),
{
    if groups.len() == 0 {
        Seq::empty()
    } else {
        eligible_pairs(groups.drop_last(), igs) + pairs_of_list(
            items_of(igs, groups.last().position),
            (groups.len() - 1) as u64,
        )
    }
}

/// The current item-to-display-position mapping: the join of the two
/// snapshots restricted to eligible items, a later pair overriding an
/// earlier one with the same item id.
pub open spec fn eligible_map(groups: Seq<Group>, igs: Seq<ItemGroup>) -> Map<u64, u64> {
    assoc_map(eligible_pairs(groups, igs))
}

/// Every display index in the pair list is below the number of groups.
pub proof fn lemma_pairs_positions(groups: Seq<Group>, igs: Seq<ItemGroup>)
    ensures
        forall|i: int| 0 <= i < eligible_pairs(groups, igs).len()
            ==> eligible_pairs(groups, igs)[i].1 < groups.len(),
    decreases groups.len(),
{
    if groups.len() > 0 {
        lemma_pairs_positions(groups.drop_last(), igs);
        let tail = pairs_of_list(items_of(igs, groups.last().position), (groups.len() - 1) as u64);
        lemma_pairs_of_list_pos(items_of(igs, groups.last().position), (groups.len() - 1) as u64);
        assert forall|i: int| 0 <= i < eligible_pairs(groups, igs).len()
            implies eligible_pairs(groups, igs)[i].1 < groups.len() by {
            let head = eligible_pairs(groups.drop_last(), igs);
            if i < head.len() {
                assert(eligible_pairs(groups, igs)[i] == head[i]);
            } else {
                assert(eligible_pairs(groups, igs)[i] == tail[i - head.len()]);
            }
        }
    }
}

/// Every pair of one item list carries that list's display index.
pub proof fn lemma_pairs_of_list_pos(items: Seq<Item>, d: u64)
    ensures
        forall|i: int| 0 <= i < pairs_of_list(items, d).len() ==> pairs_of_list(items, d)[i].1 == d,
    decreases items.len(),
{
    if items.len() > 0 {
        lemma_pairs_of_list_pos(items.drop_last(), d);
        let head = pairs_of_list(items.drop_last(), d);
        assert forall|i: int| 0 <= i < pairs_of_list(items, d).len()
            implies pairs_of_list(items, d)[i].1 == d by {
            if i < head.len() {
                assert(pairs_of_list(items, d)[i] == head[i]);
            }
        }
    }
}

/// Every value of the eligible map is a display index below the number of
/// groups.
pub proof fn lemma_eligible_map_positions(groups: Seq<Group>, igs: Seq<ItemGroup>)
    ensures
        forall|id: u64| eligible_map(groups, igs).contains_key(id)
            ==> eligible_map(groups, igs)[id] < groups.len(),
{
    lemma_pairs_positions(groups, igs);
    assert forall|id: u64| eligible_map(groups, igs).contains_key(id)
        implies eligible_map(groups, igs)[id] < groups.len() by {
        lemma_assoc_value(eligible_pairs(groups, igs), id);
    }
}

/// The value an association list binds to a present key occurs in the list.
pub proof fn lemma_assoc_value<V>(s: Seq<(u64, V)>, k: u64)
    requires
        assoc_map(s).contains_key(k),
    ensures
        exists|i: int| 0 <= i < s.len() && s[i].0 == k && s[i].1 == assoc_map(s)[k],
    decreases s.len(),
{
    if s.len() > 0 {
        if s.last().0 == k {
            assert(s[s.len() - 1].0 == k && s[s.len() - 1].1 == assoc_map(s)[k]);
        } else {
            lemma_assoc_value(s.drop_last(), k);
            let i = choose|i: int|
                0 <= i < s.drop_last().len() && s.drop_last()[i].0 == k
                    && s.drop_last()[i].1 == assoc_map(s.drop_last())[k];
            assert(s[i].0 == k && s[i].1 == assoc_map(s)[k]);
        }
    }
}

} // verus!
