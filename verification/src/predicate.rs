//! Predicates: when the entries of a node meet the conditions of a step.
//!
//! An item is met by some entry whose value renders as the item's text; a
//! group is met when all its items are; a predicate is met when one of its
//! groups is.

use vstd::prelude::*;
use crate::document::{entry_views, Entry, EntryModel, Value, ValueModel};
use crate::path::{ItemModel, Predicate, PredicateGroup, PredicateItem};
use crate::text::{decimal, render_integer};

verus! {

/// The text that a value is compared by. Null has none, so that no item
/// matches it.
pub open spec fn rendered(v: ValueModel) -> Option<Seq<char>> {
    match v {
        ValueModel::String(s) => Some(s),
        ValueModel::Integer(i) => Some(decimal(i)),
        ValueModel::Float(s) => Some(s),
        ValueModel::Bool(b) => Some(
            if b {
                seq!['t', 'r', 'u', 'e']
            } else {
                seq!['f', 'a', 'l', 's', 'e']
            },
        ),
        ValueModel::Null => None,
    }
}

/// Whether the entry `e` meets the item: an argument for a positional item,
/// a property of the item's name for a named one, with the item's text as
/// its rendered value.
pub open spec fn entry_meets(item: ItemModel, e: EntryModel) -> bool {
    match item {
        ItemModel::Positional(text) => e.name is None && rendered(e.value) == Some(text),
        ItemModel::Named(name, text) => e.name == Some(name) && rendered(e.value) == Some(text),
    }
}

/// Whether some entry meets the item.
pub open spec fn item_holds(item: ItemModel, entries: Seq<EntryModel>) -> bool {
    exists|k: int| 0 <= k < entries.len() && entry_meets(item, #[trigger] entries[k])
}

/// Whether every item of the group holds.
pub open spec fn group_holds(group: Seq<ItemModel>, entries: Seq<EntryModel>) -> bool {
    forall|i: int| 0 <= i < group.len() ==> item_holds(#[trigger] group[i], entries)
}

/// Whether some group of the predicate holds.
pub open spec fn predicate_holds(groups: Seq<Seq<ItemModel>>, entries: Seq<EntryModel>) -> bool {
    exists|g: int| 0 <= g < groups.len() && group_holds(#[trigger] groups[g], entries)
}

/// A predicate with a single group holds exactly when every item of that
/// group holds.
pub proof fn lemma_single_group(group: Seq<ItemModel>, entries: Seq<EntryModel>)
    ensures
        predicate_holds(seq![group], entries) <==> (forall|i: int|
            0 <= i < group.len() ==> item_holds(#[trigger] group[i], entries)),
{
    let groups = seq![group];
    assert(groups[0] == group);
    if group_holds(group, entries) {
        assert(group_holds(groups[0], entries));
    }
}

/// A predicate holds exactly when at least one of its groups does: one made
/// of the groups of two others holds exactly when one of the two does.
pub proof fn lemma_groups_or(
    a: Seq<Seq<ItemModel>>,
    b: Seq<Seq<ItemModel>>,
    entries: Seq<EntryModel>,
)
    ensures
        predicate_holds(a + b, entries) <==> predicate_holds(a, entries) || predicate_holds(
            b,
            entries,
        ),
{
    let all = a + b;
    if predicate_holds(all, entries) {
        let g = choose|g: int| 0 <= g < all.len() && group_holds(#[trigger] all[g], entries);
        if g < a.len() {
            assert(all[g] == a[g]);
        } else {
            assert(all[g] == b[g - a.len()]);
        }
    }
    if predicate_holds(a, entries) {
        let g = choose|g: int| 0 <= g < a.len() && group_holds(#[trigger] a[g], entries);
        assert(all[g] == a[g]);
    }
    if predicate_holds(b, entries) {
        let g = choose|g: int| 0 <= g < b.len() && group_holds(#[trigger] b[g], entries);
        assert(all[g + a.len()] == b[g]);
    }
}

/// A group holds exactly when all its items do: one made of the items of two
/// others holds exactly when both do.
pub proof fn lemma_items_and(a: Seq<ItemModel>, b: Seq<ItemModel>, entries: Seq<EntryModel>)
    ensures
        group_holds(a + b, entries) <==> group_holds(a, entries) && group_holds(b, entries),
{
    let all = a + b;
    if group_holds(all, entries) {
        assert forall|i: int| 0 <= i < a.len() implies item_holds(#[trigger] a[i], entries) by {
            assert(all[i] == a[i]);
        }
        assert forall|i: int| 0 <= i < b.len() implies item_holds(#[trigger] b[i], entries) by {
            assert(all[i + a.len()] == b[i]);
        }
    }
    if group_holds(a, entries) && group_holds(b, entries) {
        assert forall|i: int| 0 <= i < all.len() implies item_holds(#[trigger] all[i], entries) by {
            if i < a.len() {
                assert(all[i] == a[i]);
            } else {
                assert(all[i] == b[i - a.len()]);
            }
        }
    }
}

/// The text that a value is compared by, if it has one.
pub fn render(v: &Value) -> (r: Option<String>)
    ensures
        match r {
            Some(text) => rendered(v@) == Some(text@),
            None => rendered(v@) is None,
        },
{
    proof {
        reveal_strlit("true");
        reveal_strlit("false");
    }
    match v {
        Value::String(s) => Some(s.clone()),
        Value::Integer(i) => Some(render_integer(*i)),
        Value::Float(s) => Some(s.clone()),
        Value::Bool(b) => {
            let text = if *b { "true" } else { "false" };
            assert(rendered(v@) == Some(text@)) by {
                assert(text@ =~= rendered(v@)->0);
            }
            Some(text.to_owned())
        },
        Value::Null => None,
    }
}

/// Whether the value renders as `text`.
fn renders_as(v: &Value, text: &String) -> (r: bool)
    ensures
        r == (rendered(v@) == Some(text@)),
{
    match render(v) {
        Some(t) => t == *text,
        None => false,
    }
}

/// Whether the entry meets the item.
fn meets(item: &PredicateItem, e: &Entry) -> (r: bool)
    ensures
        r == entry_meets(item@, e@),
{
    match item {
        PredicateItem::Positional(text) => e.name.is_none() && renders_as(&e.value, text),
        PredicateItem::Named(name, text) => {
            match &e.name {
                Some(n) => *n == *name && renders_as(&e.value, text),
                None => false,
            }
        },
    }
}

impl PredicateItem {
    /// Whether some entry meets the item.
    pub fn holds(&self, entries: &Vec<Entry>) -> (r: bool)
        ensures
            r == item_holds(self@, entry_views(entries@)),
    {
        let ghost model = entry_views(entries@);
        let mut k: usize = 0;
        while k < entries.len()
            invariant
                k <= entries.len(),
                model == entry_views(entries@),
                forall|j: int| 0 <= j < k ==> !entry_meets(self@, #[trigger] model[j]),
            decreases entries.len() - k,
        {
            assert(model[k as int] == entries@[k as int]@);
            if meets(self, &entries[k]) {
                return true;
            }
            k = k + 1;
        }
        false
    }
}

impl PredicateGroup {
    /// Whether every item of the group holds.
    pub fn holds(&self, entries: &Vec<Entry>) -> (r: bool)
        ensures
            r == group_holds(self@, entry_views(entries@)),
    {
        let ghost model = entry_views(entries@);
        let mut i: usize = 0;
        while i < self.items.len()
            invariant
                i <= self.items.len(),
                forall|j: int| 0 <= j < i ==> item_holds(#[trigger] self@[j], model),
                model == entry_views(entries@),
            decreases self.items.len() - i,
        {
            assert(self@[i as int] == self.items@[i as int]@);
            if !self.items[i].holds(entries) {
                return false;
            }
            i = i + 1;
        }
        true
    }
}

impl Predicate {
    /// Whether some group of the predicate holds.
    pub fn holds(&self, entries: &Vec<Entry>) -> (r: bool)
        ensures
            r == predicate_holds(self@, entry_views(entries@)),
    {
        let ghost model = entry_views(entries@);
        let mut g: usize = 0;
        while g < self.groups.len()
            invariant
                g <= self.groups.len(),
                forall|j: int| 0 <= j < g ==> !group_holds(#[trigger] self@[j], model),
                model == entry_views(entries@),
            decreases self.groups.len() - g,
        {
            assert(self@[g as int] == self.groups@[g as int]@);
            if self.groups[g].holds(entries) {
                return true;
            }
            g = g + 1;
        }
        false
    }
}

} // verus!
