//! Tables that hold one number per flow, keyed by socket id: what they add up to,
//! and the orders in which they can be walked.

use std::collections::HashMap;
use vstd::multiset::Multiset;
use vstd::prelude::*;
use vstd::std_specs::iter::IteratorSpec;

verus! {

broadcast use vstd::std_specs::hash::group_hash_axioms;

/// The sum of a sequence of numbers.
pub open spec fn sum(s: Seq<u32>) -> nat
    decreases s.len(),
{
    if s.len() == 0 {
        0
    } else {
        sum(s.drop_last()) + s.last() as nat
    }
}

/// The sum of all values in a table.
pub open spec fn total(table: Map<u32, u32>) -> nat
    decreases table.dom().len(),
{
    if table.dom().finite() && table.dom().len() > 0 {
        let key = table.dom().choose();
        table[key] as nat + total(table.remove(key))
    } else {
        0
    }
}

/// All values in a table, with repetition.
pub open spec fn values_of(table: Map<u32, u32>) -> Multiset<u32>
    decreases table.dom().len(),
{
    if table.dom().finite() && table.dom().len() > 0 {
        let key = table.dom().choose();
        values_of(table.remove(key)).insert(table[key])
    } else {
        Multiset::empty()
    }
}

/// `order` lists every entry of `table` once.
pub open spec fn enumerates(order: Seq<(u32, u32)>, table: Map<u32, u32>) -> bool {
    &&& forall|i: int|
        0 <= i < order.len() ==> table.contains_key((#[trigger] order[i]).0)
            && table[order[i].0] == order[i].1
    &&& forall|i: int, j: int|
        0 <= i < j < order.len() ==> (#[trigger] order[i]).0 != (#[trigger] order[j]).0
    &&& forall|k: u32| #[trigger]
        table.contains_key(k) ==> exists|i: int|
            0 <= i < order.len() && (#[trigger] order[i]).0 == k
}

/// The values in a listing, in its order.
pub open spec fn values_in(order: Seq<(u32, u32)>) -> Seq<u32> {
    order.map_values(|entry: (u32, u32)| entry.1)
}

/// No value is followed by a smaller one.
pub open spec fn ascends(s: Seq<u32>) -> bool {
    forall|i: int, j: int| 0 <= i < j < s.len() ==> s[i] <= s[j]
}

/// `order` lists every entry of `table` once, smaller values first. Entries with equal
/// values may come in either order.
pub open spec fn is_demand_order(order: Seq<(u32, u32)>, table: Map<u32, u32>) -> bool {
    enumerates(order, table) && ascends(values_in(order))
}

/// The values of a table from the smallest to the largest.
pub open spec fn ascending(table: Map<u32, u32>) -> Seq<u32> {
    values_in(choose|order: Seq<(u32, u32)>| is_demand_order(order, table))
}

/// The table that results from entering a listing from front to back.
pub open spec fn listed(order: Seq<(u32, u32)>) -> Map<u32, u32>
    decreases order.len(),
{
    if order.len() == 0 {
        Map::empty()
    } else {
        listed(order.drop_last()).insert(order.last().0, order.last().1)
    }
}

/// An entry accounts for its value in the total.
pub proof fn lemma_total_remove(table: Map<u32, u32>, key: u32)
    requires
        table.dom().finite(),
        table.contains_key(key),
    ensures
        total(table) == table[key] + total(table.remove(key)),
    decreases table.dom().len(),
{
    let first = table.dom().choose();
    if first != key {
        lemma_total_remove(table.remove(first), key);
        lemma_total_remove(table.remove(key), first);
        assert(table.remove(first).remove(key) =~= table.remove(key).remove(first));
    }
}

proof fn lemma_values_remove(table: Map<u32, u32>, key: u32)
    requires
        table.dom().finite(),
        table.contains_key(key),
    ensures
        values_of(table) == values_of(table.remove(key)).insert(table[key]),
    decreases table.dom().len(),
{
    let first = table.dom().choose();
    if first != key {
        lemma_values_remove(table.remove(first), key);
        lemma_values_remove(table.remove(key), first);
        let rest = table.remove(first).remove(key);
        assert(rest =~= table.remove(key).remove(first));
        assert(values_of(rest).insert(table[key]).insert(table[first]) =~= values_of(rest).insert(
            table[first],
        ).insert(table[key]));
    }
}

/// Whatever the listing of a table, it is as long as the table, and its values have the
/// table's total and repetitions.
pub proof fn lemma_enumeration(order: Seq<(u32, u32)>, table: Map<u32, u32>)
    requires
        enumerates(order, table),
    ensures
        table.dom().finite(),
        order.len() == table.len(),
        sum(values_in(order)) == total(table),
        values_in(order).to_multiset() == values_of(table),
    decreases order.len(),
{
    broadcast use vstd::seq_lib::group_to_multiset_ensures;

    if order.len() == 0 {
        assert(table.dom() =~= Set::empty());
        assert(values_in(order) =~= Seq::empty());
    } else {
        let rest = order.drop_last();
        let last = order.last();
        lemma_enumerates_drop_last(order, table);
        lemma_enumeration(rest, table.remove(last.0));
        assert(table.contains_key(last.0));
        assert(table.remove(last.0).dom() =~= table.dom().remove(last.0));
        assert(table.dom() =~= table.dom().remove(last.0).insert(last.0));
        lemma_total_remove(table, last.0);
        lemma_values_remove(table, last.0);
        assert(values_in(order).drop_last() =~= values_in(rest));
        assert(values_in(order) =~= values_in(rest).push(last.1));
    }
}

proof fn lemma_enumerates_drop_last(order: Seq<(u32, u32)>, table: Map<u32, u32>)
    requires
        enumerates(order, table),
        order.len() > 0,
    ensures
        enumerates(order.drop_last(), table.remove(order.last().0)),
{
    let rest = order.drop_last();
    let smaller = table.remove(order.last().0);
    assert forall|k: u32| #[trigger] smaller.contains_key(k) implies exists|i: int|
        0 <= i < rest.len() && (#[trigger] rest[i]).0 == k by {
        assert(table.contains_key(k));
        let i = choose|i: int| 0 <= i < order.len() && (#[trigger] order[i]).0 == k;
        assert(rest[i].0 == k);
    }
}

/// However ties fall, the values of a demand order are the table's values in ascending
/// order.
pub proof fn lemma_ascending_is(order: Seq<(u32, u32)>, table: Map<u32, u32>)
    requires
        is_demand_order(order, table),
    ensures
        ascending(table) == values_in(order),
{
    let chosen = choose|o: Seq<(u32, u32)>| is_demand_order(o, table);
    assert(is_demand_order(chosen, table));
    lemma_enumeration(order, table);
    lemma_enumeration(chosen, table);
    let leq = |a: u32, b: u32| a <= b;
    vstd::seq_lib::lemma_sorted_unique(values_in(order), values_in(chosen), leq);
}

proof fn lemma_enumerates_insert(
    order: Seq<(u32, u32)>,
    table: Map<u32, u32>,
    at: int,
    entry: (u32, u32),
)
    requires
        enumerates(order, table),
        !table.contains_key(entry.0),
        0 <= at <= order.len(),
    ensures
        enumerates(order.insert(at, entry), table.insert(entry.0, entry.1)),
{
    let longer = order.insert(at, entry);
    let larger = table.insert(entry.0, entry.1);
    assert forall|i: int| 0 <= i < longer.len() implies larger.contains_key(
        (#[trigger] longer[i]).0,
    ) && larger[longer[i].0] == longer[i].1 by {
        if i < at {
            assert(longer[i] == order[i]);
        } else if i > at {
            assert(longer[i] == order[i - 1]);
        }
    }
    assert forall|i: int, j: int| 0 <= i < j < longer.len() implies (#[trigger] longer[i]).0 != (
    #[trigger] longer[j]).0 by {
        let old_i = if i < at { i } else { i - 1 };
        let old_j = if j < at { j } else { j - 1 };
        if i != at {
            assert(longer[i] == order[old_i]);
        }
        if j != at {
            assert(longer[j] == order[old_j]);
        }
    }
    assert forall|k: u32| #[trigger] larger.contains_key(k) implies exists|i: int|
        0 <= i < longer.len() && (#[trigger] longer[i]).0 == k by {
        if k == entry.0 {
            assert(longer[at].0 == k);
        } else {
            assert(table.contains_key(k));
            let i = choose|i: int| 0 <= i < order.len() && (#[trigger] order[i]).0 == k;
            if i < at {
                assert(longer[i].0 == k);
            } else {
                assert(longer[i + 1].0 == k);
            }
        }
    }
}

/// Entering any listing of a table gives the table back.
pub proof fn lemma_listed(order: Seq<(u32, u32)>, table: Map<u32, u32>)
    requires
        enumerates(order, table),
    ensures
        listed(order) == table,
    decreases order.len(),
{
    if order.len() == 0 {
        assert(table =~= Map::empty());
    } else {
        lemma_enumerates_drop_last(order, table);
        lemma_listed(order.drop_last(), table.remove(order.last().0));
        assert(table.contains_key(order.last().0));
        assert(table =~= listed(order));
    }
}

/// Changing every value of a listing the same way lists the table with its values changed
/// that way, over the same sockets; its total is that of the changed values.
pub proof fn lemma_mapped_listing(
    order: Seq<(u32, u32)>,
    table: Map<u32, u32>,
    change: spec_fn(u32) -> u32,
    changed: Seq<(u32, u32)>,
)
    requires
        enumerates(order, table),
        changed.len() == order.len(),
        forall|i: int|
            0 <= i < changed.len() ==> #[trigger] changed[i] == (order[i].0, change(order[i].1)),
    ensures
        listed(changed) == table.map_values(change),
        listed(changed).dom() == table.dom(),
        total(table.map_values(change)) == sum(values_in(order).map_values(change)),
{
    let result = table.map_values(change);
    assert forall|i: int, j: int| 0 <= i < j < changed.len() implies (#[trigger] changed[i]).0 != (
    #[trigger] changed[j]).0 by {
        assert(order[i].0 != order[j].0);
    }
    assert forall|k: u32| #[trigger] result.contains_key(k) implies exists|i: int|
        0 <= i < changed.len() && (#[trigger] changed[i]).0 == k by {
        assert(table.contains_key(k));
        let i = choose|i: int| 0 <= i < order.len() && (#[trigger] order[i]).0 == k;
        assert(changed[i].0 == k);
    }
    lemma_listed(changed, result);
    lemma_enumeration(changed, result);
    assert(values_in(changed) =~= values_in(order).map_values(change));
    assert(result.dom() =~= table.dom());
}

/// Listings of the same sockets in the same order give tables over the same sockets.
pub proof fn lemma_listed_domain(left: Seq<(u32, u32)>, right: Seq<(u32, u32)>)
    requires
        left.len() == right.len(),
        forall|i: int| 0 <= i < left.len() ==> (#[trigger] left[i]).0 == (#[trigger] right[i]).0,
    ensures
        listed(left).dom() == listed(right).dom(),
    decreases left.len(),
{
    if left.len() > 0 {
        lemma_listed_domain(left.drop_last(), right.drop_last());
        assert(left.last().0 == right.last().0);
        assert(listed(left).dom() =~= listed(left.drop_last()).dom().insert(left.last().0));
        assert(listed(right).dom() =~= listed(right.drop_last()).dom().insert(right.last().0));
    }
}

proof fn lemma_largest(table: Map<u32, u32>) -> (key: u32)
    requires
        table.dom().finite(),
        table.dom().len() > 0,
    ensures
        table.contains_key(key),
        forall|k: u32| #[trigger] table.contains_key(k) ==> table[k] <= table[key],
    decreases table.dom().len(),
{
    let first = table.dom().choose();
    let rest = table.remove(first);
    if rest.dom().len() == 0 {
        assert forall|k: u32| #[trigger] table.contains_key(k) implies table[k]
            <= table[first] by {
            if k != first {
                assert(rest.dom().contains(k));
            }
        }
        first
    } else {
        let other = lemma_largest(rest);
        let key = if table[first] <= table[other] { other } else { first };
        assert forall|k: u32| #[trigger] table.contains_key(k) implies table[k] <= table[key] by {
            if k != first {
                assert(rest.contains_key(k));
            }
        }
        key
    }
}

/// Every finite table can be listed smaller values first, and [`ascending`] is what such
/// a listing shows.
pub proof fn lemma_demand_order(table: Map<u32, u32>) -> (order: Seq<(u32, u32)>)
    requires
        table.dom().finite(),
    ensures
        is_demand_order(order, table),
        ascending(table) == values_in(order),
    decreases table.dom().len(),
{
    let order = if table.dom().len() == 0 {
        Seq::empty()
    } else {
        let key = lemma_largest(table);
        let rest = lemma_demand_order(table.remove(key));
        lemma_enumerates_insert(rest, table.remove(key), rest.len() as int, (key, table[key]));
        assert(table.remove(key).insert(key, table[key]) =~= table);
        let order = rest.insert(rest.len() as int, (key, table[key]));
        let values = values_in(order);
        assert forall|i: int, j: int| 0 <= i < j < values.len() implies values[i]
            <= values[j] by {
            assert(values[i] == values_in(rest)[i]);
            assert(table.contains_key(order[i].0));
            if j < rest.len() {
                assert(values[j] == values_in(rest)[j]);
            }
        }
        order
    };
    lemma_ascending_is(order, table);
    order
}

/// A sum can be taken from the front.
pub proof fn lemma_sum_drop_first(s: Seq<u32>)
    requires
        s.len() > 0,
    ensures
        sum(s) == s[0] + sum(s.drop_first()),
    decreases s.len(),
{
    if s.len() == 1 {
        assert(s.drop_last() =~= Seq::empty());
        assert(s.drop_first() =~= Seq::empty());
    } else {
        lemma_sum_drop_first(s.drop_last());
        assert(s.drop_last().drop_first() =~= s.drop_first().drop_last());
    }
}

/// The first numbers of a sequence add up to no more than all of them.
pub proof fn lemma_sum_take(s: Seq<u32>, n: int)
    requires
        0 <= n <= s.len(),
    ensures
        sum(s.take(n)) <= sum(s),
    decreases s.len(),
{
    if n < s.len() {
        lemma_sum_take(s.drop_last(), n);
        assert(s.drop_last().take(n) =~= s.take(n));
    } else {
        assert(s.take(n) =~= s);
    }
}

/// Taking one number more adds that number.
pub proof fn lemma_sum_take_next(s: Seq<u32>, n: int)
    requires
        0 <= n < s.len(),
    ensures
        sum(s.take(n + 1)) == sum(s.take(n)) + s[n],
{
    assert(s.take(n + 1).drop_last() =~= s.take(n));
}

/// No value of a table is more than the table's total.
pub proof fn lemma_value_within_total(table: Map<u32, u32>, key: u32)
    requires
        table.dom().finite(),
        table.contains_key(key),
    ensures
        table[key] <= total(table),
{
    lemma_total_remove(table, key);
}

/// The values of a table in ascending order: as many as the table has entries, with its
/// total, and none more than that.
pub proof fn lemma_ascending(table: Map<u32, u32>)
    requires
        table.dom().finite(),
    ensures
        ascends(ascending(table)),
        ascending(table).len() == table.len(),
        sum(ascending(table)) == total(table),
        forall|i: int| 0 <= i < ascending(table).len() ==> ascending(table)[i] <= total(table),
{
    let order = lemma_demand_order(table);
    lemma_enumeration(order, table);
    assert forall|i: int| 0 <= i < ascending(table).len() implies ascending(table)[i]
        <= total(table) by {
        lemma_value_within_total(table, order[i].0);
    }
}

/// The total of a table with its values changed is that of its changed values.
pub proof fn lemma_mapped_total(table: Map<u32, u32>, change: spec_fn(u32) -> u32)
    requires
        table.dom().finite(),
    ensures
        total(table.map_values(change)) == sum(ascending(table).map_values(change)),
{
    let order = lemma_demand_order(table);
    let changed = Seq::new(order.len(), |i: int| (order[i].0, change(order[i].1)));
    lemma_mapped_listing(order, table, change, changed);
}

/// Lists the entries of a table, in no particular order.
pub fn list_entries(table: &HashMap<u32, u32>) -> (order: Vec<(u32, u32)>)
    ensures
        enumerates(order@, table@),
{
    let mut order: Vec<(u32, u32)> = Vec::new();
    let entries = table.iter();
    let ghost items = entries.remaining();
    for entry in it: entries
        invariant
            it.seq() == items,
            order@.len() == it.index(),
            forall|i: int|
                0 <= i < order@.len() ==> order@[i] == (*items[i].0, *items[i].1),
    {
        let (sock_id, value) = entry;
        order.push((*sock_id, *value));
    }
    proof {
        assert(order@.len() == items.len());
        assert forall|i: int| 0 <= i < order@.len() implies table@.contains_key(
            (#[trigger] order@[i]).0,
        ) && table@[order@[i].0] == order@[i].1 by {
            assert(table@.contains_key(*items[i].0));
        }
        assert forall|i: int, j: int| 0 <= i < j < order@.len() implies (#[trigger] order@[i]).0
            != (#[trigger] order@[j]).0 by {
            assert(table@.contains_key(*items[i].0) && table@.contains_key(*items[j].0));
            assert(items[i] != items[j]);
        }
        assert forall|k: u32| #[trigger] table@.contains_key(k) implies exists|i: int|
            0 <= i < order@.len() && (#[trigger] order@[i]).0 == k by {
            assert(items.contains((&k, &table@[k])));
            let i = choose|i: int| 0 <= i < items.len() && items[i] == (&k, &table@[k]);
            assert(order@[i].0 == k);
        }
    }
    order
}

/// Lists the sockets of a table, in no particular order.
pub fn list_socks<V>(table: &HashMap<u32, V>) -> (socks: Vec<u32>)
    ensures
        socks@.no_duplicates(),
        socks@.to_set() == table@.dom(),
        socks@.len() == table@.len(),
{
    let mut socks: Vec<u32> = Vec::new();
    let keys = table.keys();
    let ghost items = keys.remaining();
    for key in it: keys
        invariant
            it.seq() == items,
            socks@.len() == it.index(),
            forall|i: int| 0 <= i < socks@.len() ==> socks@[i] == *items[i],
    {
        socks.push(*key);
    }
    proof {
        assert(socks@ =~= items.unref());
    }
    socks
}

/// Lists the entries of a table, smaller values first.
pub fn list_by_demand(table: &HashMap<u32, u32>) -> (order: Vec<(u32, u32)>)
    ensures
        is_demand_order(order@, table@),
{
    let entries = list_entries(table);
    let mut order: Vec<(u32, u32)> = Vec::new();
    let ghost mut seen: Map<u32, u32> = Map::empty();
    let mut i: usize = 0;
    while i < entries.len()
        invariant
            i <= entries@.len(),
            enumerates(entries@, table@),
            enumerates(entries@.take(i as int), seen),
            is_demand_order(order@, seen),
        decreases entries@.len() - i,
    {
        let entry = entries[i];
        let mut at: usize = 0;
        while at < order.len() && order[at].1 <= entry.1
            invariant
                at <= order@.len(),
                forall|j: int| 0 <= j < at ==> (#[trigger] order@[j]).1 <= entry.1,
            decreases order@.len() - at,
        {
            at += 1;
        }
        let ghost before = order@;
        order.insert(at, entry);
        proof {
            if seen.contains_key(entry.0) {
                let taken = entries@.take(i as int);
                let j = choose|j: int| 0 <= j < taken.len() && (#[trigger] taken[j]).0 == entry.0;
                assert(entries@[j].0 == entries@[i as int].0);
            }
            lemma_enumerates_insert(before, seen, at as int, entry);
            lemma_enumerates_insert(entries@.take(i as int), seen, i as int, entry);
            assert(entries@.take(i as int).insert(i as int, entry) =~= entries@.take(i + 1));
            lemma_ascends_insert(before, at as int, entry);
            seen = seen.insert(entry.0, entry.1);
        }
        i += 1;
    }
    proof {
        assert(entries@.take(i as int) =~= entries@);
        lemma_listed(entries@, seen);
        lemma_listed(entries@, table@);
    }
    order
}

proof fn lemma_ascends_insert(order: Seq<(u32, u32)>, at: int, entry: (u32, u32))
    requires
        ascends(values_in(order)),
        0 <= at <= order.len(),
        forall|j: int| 0 <= j < at ==> (#[trigger] order[j]).1 <= entry.1,
        at < order.len() ==> entry.1 < order[at].1,
    ensures
        ascends(values_in(order.insert(at, entry))),
{
    let longer = values_in(order.insert(at, entry));
    let shorter = values_in(order);
    assert forall|i: int, j: int| 0 <= i < j < longer.len() implies longer[i] <= longer[j] by {
        let old_i = if i < at { i } else { i - 1 };
        let old_j = if j < at { j } else { j - 1 };
        if i == at {
            assert(longer[j] == shorter[old_j]);
            assert(shorter[at] <= shorter[old_j]);
        } else if j == at {
            assert(longer[i] == order[i].1);
        } else {
            assert(longer[i] == shorter[old_i] && longer[j] == shorter[old_j]);
        }
    }
}

/// Adds up the values of a table.
pub fn add_up(table: &HashMap<u32, u32>) -> (res: u32)
    requires
        total(table@) <= u32::MAX,
    ensures
        res == total(table@),
{
    let order = list_entries(table);
    let ghost values = values_in(order@);
    proof {
        lemma_enumeration(order@, table@);
    }
    let mut added: u32 = 0;
    let mut i: usize = 0;
    while i < order.len()
        invariant
            i <= order@.len(),
            values == values_in(order@),
            sum(values) <= u32::MAX,
            added == sum(values.take(i as int)),
        decreases order@.len() - i,
    {
        proof {
            lemma_sum_take_next(values, i as int);
            lemma_sum_take(values, i + 1);
        }
        added += order[i].1;
        i += 1;
    }
    assert(values.take(i as int) =~= values);
    added
}

/// Enters a listing into a table.
pub fn enter_all(table: &mut HashMap<u32, u32>, listing: &Vec<(u32, u32)>)
    ensures
        final(table)@ == old(table)@.union_prefer_right(listed(listing@)),
{
    let ghost before = table@;
    let mut i: usize = 0;
    assert(before.union_prefer_right(Map::empty()) =~= before);
    while i < listing.len()
        invariant
            i <= listing@.len(),
            table@ == before.union_prefer_right(listed(listing@.take(i as int))),
        decreases listing@.len() - i,
    {
        let (sock_id, value) = listing[i];
        table.insert(sock_id, value);
        proof {
            assert(listing@.take(i + 1).drop_last() =~= listing@.take(i as int));
            assert(table@ =~= before.union_prefer_right(listed(listing@.take(i + 1))));
        }
        i += 1;
    }
    assert(listing@.take(i as int) =~= listing@);
}

} // verus!
