//! Entries kept in a list, each key once, read as a map.

use vstd::prelude::*;
use crate::domain::count_allowed;

verus! {

/// No key stands twice in `list`.
pub open spec fn keys_distinct<V>(list: Seq<(Seq<i64>, V)>) -> bool {
    forall|i: int, j: int| 0 <= i < j < list.len() ==> list[i].0 != list[j].0
}

/// Whether `list` has an entry for `key`.
pub open spec fn has_key<V>(list: Seq<(Seq<i64>, V)>, key: Seq<i64>) -> bool {
    exists|i: int| 0 <= i < list.len() && (#[trigger] list[i]).0 == key
}

/// Where the entry for `key` stands in `list`.
pub open spec fn place_of<V>(list: Seq<(Seq<i64>, V)>, key: Seq<i64>) -> int {
    choose|i: int| 0 <= i < list.len() && (#[trigger] list[i]).0 == key
}

/// The map from the keys of `list` to their values.
pub open spec fn map_of<V>(list: Seq<(Seq<i64>, V)>) -> Map<Seq<i64>, V> {
    Map::new(|key: Seq<i64>| has_key(list, key), |key: Seq<i64>| list[place_of(list, key)].1)
}

/// The keys of `list` in its order.
pub open spec fn keys_of<V>(list: Seq<(Seq<i64>, V)>) -> Seq<Seq<i64>> {
    Seq::new(list.len(), |i: int| list[i].0)
}

/// The map of a list of distinct keys takes each key to the value that
/// stands with it.
pub proof fn lemma_map_of_entry<V>(list: Seq<(Seq<i64>, V)>, i: int)
    requires
        keys_distinct(list),
        0 <= i < list.len(),
    ensures
        map_of(list).dom().contains(list[i].0),
        map_of(list)[list[i].0] == list[i].1,
        place_of(list, list[i].0) == i,
{
    assert(has_key(list, list[i].0));
    let j = place_of(list, list[i].0);
    if i < j {
        assert(list[i].0 != list[j].0);
    } else if j < i {
        assert(list[j].0 != list[i].0);
    }
}

/// An entry with a new key at the end of the list is an insertion into the
/// map.
pub proof fn lemma_map_of_push<V>(list: Seq<(Seq<i64>, V)>, key: Seq<i64>, value: V)
    requires
        keys_distinct(list),
        !has_key(list, key),
    ensures
        keys_distinct(list.push((key, value))),
        map_of(list.push((key, value))) == map_of(list).insert(key, value),
{
    let more = list.push((key, value));
    let last = list.len() as int;
    assert forall|i: int, j: int| 0 <= i < j < more.len() implies more[i].0 != more[j].0 by {
        assert(more[i] == list[i]);
        if j < last {
            assert(more[j] == list[j]);
        }
    }
    let goal = map_of(list).insert(key, value);
    assert forall|p: Seq<i64>| map_of(more).dom().contains(p) == goal.dom().contains(p) by {
        if has_key(more, p) {
            let i = place_of(more, p);
            if i < last {
                assert(list[i].0 == p);
            }
        }
        if has_key(list, p) {
            let i = place_of(list, p);
            assert(more[i].0 == p);
        }
        if p == key {
            assert(more[last].0 == p);
        }
    }
    assert forall|p: Seq<i64>| map_of(more).dom().contains(p) implies map_of(more)[p] == goal[p] by {
        let i = place_of(more, p);
        lemma_map_of_entry(more, i);
        if i < last {
            assert(more[i] == list[i]);
            lemma_map_of_entry(list, i);
        }
    }
    assert(map_of(more) =~= goal);
}

/// A new value at a place of the list is an insertion into the map at the
/// key of that place.
pub proof fn lemma_map_of_update<V>(list: Seq<(Seq<i64>, V)>, i: int, value: V)
    requires
        keys_distinct(list),
        0 <= i < list.len(),
    ensures
        keys_distinct(list.update(i, (list[i].0, value))),
        map_of(list.update(i, (list[i].0, value))) == map_of(list).insert(list[i].0, value),
{
    let key = list[i].0;
    let next = list.update(i, (key, value));
    assert forall|a: int, b: int| 0 <= a < b < next.len() implies next[a].0 != next[b].0 by {
        assert(next[a].0 == list[a].0);
        assert(next[b].0 == list[b].0);
    }
    let goal = map_of(list).insert(key, value);
    assert forall|p: Seq<i64>| map_of(next).dom().contains(p) == goal.dom().contains(p) by {
        if has_key(next, p) {
            let k = place_of(next, p);
            assert(list[k].0 == p);
        }
        if has_key(list, p) {
            let k = place_of(list, p);
            assert(next[k].0 == p);
        }
        if p == key {
            assert(next[i].0 == p);
        }
    }
    assert forall|p: Seq<i64>| map_of(next).dom().contains(p) implies map_of(next)[p] == goal[p] by {
        let k = place_of(next, p);
        lemma_map_of_entry(next, k);
        lemma_map_of_entry(list, k);
    }
    assert(map_of(next) =~= goal);
}

/// Taking an entry out of the list removes its key from the map.
pub proof fn lemma_map_of_remove<V>(list: Seq<(Seq<i64>, V)>, i: int)
    requires
        keys_distinct(list),
        0 <= i < list.len(),
    ensures
        keys_distinct(list.remove(i)),
        map_of(list.remove(i)) == map_of(list).remove(list[i].0),
{
    let key = list[i].0;
    let rest = list.remove(i);
    assert forall|a: int| 0 <= a < rest.len() implies rest[a] == list[if a < i {
        a
    } else {
        a + 1
    }] by {}
    assert forall|a: int, b: int| 0 <= a < b < rest.len() implies rest[a].0 != rest[b].0 by {
        let a0 = if a < i { a } else { a + 1 };
        let b0 = if b < i { b } else { b + 1 };
        assert(rest[a] == list[a0]);
        assert(rest[b] == list[b0]);
    }
    let goal = map_of(list).remove(key);
    assert forall|p: Seq<i64>| map_of(rest).dom().contains(p) == goal.dom().contains(p) by {
        if has_key(rest, p) {
            let k = place_of(rest, p);
            let k0 = if k < i { k } else { k + 1 };
            assert(list[k0].0 == p);
            if p == key {
                lemma_map_of_entry(list, i);
                lemma_map_of_entry(list, k0);
            }
        }
        if has_key(list, p) && p != key {
            let k = place_of(list, p);
            let k1 = if k < i { k } else { k - 1 };
            assert(rest[k1].0 == p);
        }
    }
    assert forall|p: Seq<i64>| map_of(rest).dom().contains(p) implies map_of(rest)[p] == goal[p] by {
        let k = place_of(rest, p);
        let k0 = if k < i { k } else { k + 1 };
        lemma_map_of_entry(rest, k);
        assert(rest[k] == list[k0]);
        lemma_map_of_entry(list, k0);
    }
    assert(map_of(rest) =~= goal);
}

/// A list of distinct keys has as many entries as its map has keys.
pub proof fn lemma_map_of_len<V>(list: Seq<(Seq<i64>, V)>)
    requires
        keys_distinct(list),
    ensures
        map_of(list).dom().finite(),
        map_of(list).dom().len() == list.len(),
{
    let keys = keys_of(list);
    assert(keys.no_duplicates());
    keys.unique_seq_to_set();
    assert(keys.to_set() =~= map_of(list).dom()) by {
        assert forall|p: Seq<i64>| keys.to_set().contains(p) implies has_key(list, p) by {
            let i = choose|i: int| 0 <= i < keys.len() && keys[i] == p;
            assert(list[i].0 == p);
        }
        assert forall|p: Seq<i64>| has_key(list, p) implies keys.to_set().contains(p) by {
            let i = place_of(list, p);
            assert(keys[i] == p);
        }
    }
}

/// How many tiles of a universe of `tiles` a domain has lost.
pub open spec fn lost(mask: Seq<bool>, tiles: nat) -> nat {
    if count_allowed(mask) <= tiles {
        (tiles - count_allowed(mask)) as nat
    } else {
        0
    }
}

/// How many tiles the domains of `list` have lost together.
pub open spec fn lost_sum(list: Seq<(Seq<i64>, Seq<bool>)>, tiles: nat) -> nat
    decreases list.len(),
{
    if list.len() == 0 {
        0
    } else {
        lost_sum(list.drop_last(), tiles) + lost(list.last().1, tiles)
    }
}

/// The domains of a list have lost at most every tile each.
pub proof fn lemma_lost_sum_bound(list: Seq<(Seq<i64>, Seq<bool>)>, tiles: nat)
    ensures
        lost_sum(list, tiles) <= list.len() * tiles,
    decreases list.len(),
{
    if list.len() > 0 {
        lemma_lost_sum_bound(list.drop_last(), tiles);
        assert((list.len() - 1) * tiles + tiles == list.len() * tiles) by (nonlinear_arith);
    }
}

/// A new entry at a place of the list changes the sum by the difference of
/// what the two entries have lost.
pub proof fn lemma_lost_sum_update(
    list: Seq<(Seq<i64>, Seq<bool>)>,
    tiles: nat,
    i: int,
    entry: (Seq<i64>, Seq<bool>),
)
    requires
        0 <= i < list.len(),
    ensures
        lost_sum(list.update(i, entry), tiles) + lost(list[i].1, tiles) == lost_sum(list, tiles)
            + lost(entry.1, tiles),
    decreases list.len(),
{
    let next = list.update(i, entry);
    if i == list.len() - 1 {
        assert(next.drop_last() =~= list.drop_last());
    } else {
        lemma_lost_sum_update(list.drop_last(), tiles, i, entry);
        assert(next.drop_last() =~= list.drop_last().update(i, entry));
    }
}

/// Taking an entry out of the list takes what it has lost out of the sum.
pub proof fn lemma_lost_sum_remove(list: Seq<(Seq<i64>, Seq<bool>)>, tiles: nat, i: int)
    requires
        0 <= i < list.len(),
    ensures
        lost_sum(list.remove(i), tiles) + lost(list[i].1, tiles) == lost_sum(list, tiles),
    decreases list.len(),
{
    let rest = list.remove(i);
    if i == list.len() - 1 {
        assert(rest =~= list.drop_last());
    } else {
        lemma_lost_sum_remove(list.drop_last(), tiles, i);
        assert(rest.drop_last() =~= list.drop_last().remove(i));
        assert(rest.last() == list.last());
    }
}

} // verus!
