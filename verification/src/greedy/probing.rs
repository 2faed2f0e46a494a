//! What open addressing with linear probing guarantees.
//!
//! A table is seen as the key each index holds, if any. A key is looked for at
//! its remainder and then at every index after it, until the key or an empty
//! index turns up; nothing is ever removed.
use vstd::arithmetic::div_mod;
use vstd::prelude::*;

use crate::math;

verus! {

/// The index `d` steps after the one a key starts at.
pub open spec fn step(n: int, key: int, d: int) -> int {
    (key + d) % n
}

/// The first `d` indices a key is looked for at hold other keys.
pub open spec fn passes(keys: Seq<Option<int>>, key: int, d: int) -> bool {
    forall|e: int|
        0 <= e < d ==> (#[trigger] keys[step(keys.len() as int, key, e)]) is Some
            && keys[step(keys.len() as int, key, e)] != Some(key)
}

/// A key that is in the table is found before any empty index.
pub open spec fn reachable(keys: Seq<Option<int>>, i: int) -> bool {
    keys[i] is Some ==> keys[i]->0 >= 0 && exists|d: int|
        0 <= d < keys.len() && #[trigger] step(keys.len() as int, keys[i]->0, d) == i && passes(
            keys,
            keys[i]->0,
            d,
        )
}

/// Every key of the table is found.
pub open spec fn table_ok(keys: Seq<Option<int>>) -> bool {
    forall|i: int| 0 <= i < keys.len() ==> #[trigger] reachable(keys, i)
}

/// Where a search for a key stops.
pub open spec fn stops_at(keys: Seq<Option<int>>, key: int, i: int) -> bool {
    &&& 0 <= i < keys.len()
    &&& keys[i] is None || keys[i] == Some(key)
    &&& exists|d: int|
        0 <= d < keys.len() && #[trigger] step(keys.len() as int, key, d) == i && passes(keys, key, d)
}

/// How many of the first `to` indices hold a key.
pub open spec fn occupied(keys: Seq<Option<int>>, to: int) -> int
    decreases to,
{
    if to <= 0 {
        0
    } else {
        occupied(keys, to - 1) + if keys[to - 1] is Some {
            1int
        } else {
            0
        }
    }
}

/// The index that holds a key.
pub open spec fn index_of(keys: Seq<Option<int>>, key: int) -> int {
    choose|i: int| 0 <= i < keys.len() && #[trigger] keys[i] == Some(key)
}

/// Whether some index holds a key.
pub open spec fn holds(keys: Seq<Option<int>>, key: int) -> bool {
    exists|i: int| 0 <= i < keys.len() && #[trigger] keys[i] == Some(key)
}

/// Counts stay within what was counted.
pub proof fn lemma_occupied_bounds(keys: Seq<Option<int>>, to: int)
    requires
        0 <= to,
    ensures
        0 <= occupied(keys, to) <= to,
    decreases to,
{
    if to > 0 {
        lemma_occupied_bounds(keys, to - 1);
    }
}

/// A table that is not full has an empty index.
pub proof fn lemma_has_room(keys: Seq<Option<int>>, to: int) -> (i: int)
    requires
        0 <= to,
        occupied(keys, to) < to,
    ensures
        0 <= i < to,
        keys[i] is None,
    decreases to,
{
    if keys[to - 1] is None {
        to - 1
    } else {
        lemma_has_room(keys, to - 1)
    }
}

/// Filling one index counts once.
pub proof fn lemma_occupied_update(keys: Seq<Option<int>>, i: int, key: int, to: int)
    requires
        0 <= i < keys.len(),
        0 <= to <= keys.len(),
    ensures
        occupied(keys.update(i, Some(key)), to) == occupied(keys, to) + if i < to && keys[i] is None {
            1int
        } else {
            0
        },
    decreases to,
{
    if to > 0 {
        lemma_occupied_update(keys, i, key, to - 1);
    }
}

/// An empty table counts nothing and finds everything it holds.
pub proof fn lemma_empty_table(keys: Seq<Option<int>>, to: int)
    requires
        0 <= to <= keys.len(),
        forall|i: int| 0 <= i < keys.len() ==> #[trigger] keys[i] is None,
    ensures
        occupied(keys, to) == 0,
        table_ok(keys),
    decreases to,
{
    if to > 0 {
        lemma_empty_table(keys, to - 1);
    }
}

/// Every index is one of the steps of every key.
pub proof fn lemma_steps_cover(n: int, key: int, i: int) -> (d: int)
    requires
        n > 0,
        0 <= key,
        0 <= i < n,
    ensures
        0 <= d < n,
        step(n, key, d) == i,
{
    div_mod::lemma_mod_bound(key, n);
    let h = key % n;
    let d = if i >= h {
        i - h
    } else {
        i - h + n
    };
    math::lemma_mod_offset(key, d, n);
    d
}

/// A search in a table with room stops before it has tried every index.
pub proof fn lemma_search_stops(keys: Seq<Option<int>>, key: int)
    requires
        0 <= key,
        keys.len() > 0,
        occupied(keys, keys.len() as int) < keys.len(),
    ensures
        !passes(keys, key, keys.len() as int),
{
    let i = lemma_has_room(keys, keys.len() as int);
    let d = lemma_steps_cover(keys.len() as int, key, i);
    if passes(keys, key, keys.len() as int) {
        assert(keys[step(keys.len() as int, key, d)] is Some);
    }
}

/// A search that stops at an empty index proves the key is nowhere; one that
/// stops at the key has found its only index.
pub proof fn lemma_search_decides(keys: Seq<Option<int>>, key: int, i: int)
    requires
        table_ok(keys),
        stops_at(keys, key, i),
    ensures
        keys[i] is None ==> !holds(keys, key),
        keys[i] is Some ==> holds(keys, key) && index_of(keys, key) == i,
{
    let n = keys.len() as int;
    let di = choose|d: int|
        0 <= d < keys.len() && #[trigger] step(n, key, d) == i && passes(keys, key, d);
    assert forall|j: int| 0 <= j < n && #[trigger] keys[j] == Some(key) implies j == i by {
        assert(reachable(keys, j));
        let dj = choose|d: int|
            0 <= d < keys.len() && #[trigger] step(n, keys[j]->0, d) == j && passes(keys, keys[j]->0, d);
        if di < dj {
            assert(keys[step(n, key, di)] is Some && keys[step(n, key, di)] != Some(key));
        } else if dj < di {
            assert(keys[step(n, key, dj)] != Some(key));
        }
    }
}

/// Filling the index a search stopped at keeps every key findable.
pub proof fn lemma_insert_keeps_table(keys: Seq<Option<int>>, key: int, i: int)
    requires
        0 <= key,
        table_ok(keys),
        stops_at(keys, key, i),
    ensures
        table_ok(keys.update(i, Some(key))),
{
    let n = keys.len() as int;
    let after = keys.update(i, Some(key));
    lemma_search_decides(keys, key, i);
    assert forall|j: int| 0 <= j < after.len() implies #[trigger] reachable(after, j) by {
        if j == i {
            let d = choose|d: int|
                0 <= d < keys.len() && #[trigger] step(n, key, d) == i && passes(keys, key, d);
            assert forall|e: int| 0 <= e < d implies (#[trigger] after[step(n, key, e)]) is Some
                && after[step(n, key, e)] != Some(key) by {
                assert(keys[step(n, key, e)] is Some);
                assert(keys[step(n, key, e)] != Some(key));
                if step(n, key, e) == i {
                    assert(keys[i] is Some && keys[i] != Some(key));
                }
            }
            assert(step(n, after[j]->0, d) == j && passes(after, after[j]->0, d));
        } else if keys[j] is Some {
            assert(reachable(keys, j));
            let other = keys[j]->0;
            let d = choose|d: int|
                0 <= d < keys.len() && #[trigger] step(n, other, d) == j && passes(keys, other, d);
            assert forall|e: int| 0 <= e < d implies (#[trigger] after[step(n, other, e)]) is Some
                && after[step(n, other, e)] != Some(other) by {
                assert(keys[step(n, other, e)] is Some);
                if step(n, other, e) == i && other == key {
                    assert(keys[i] == Some(key) ==> false) by {
                        assert(keys[step(n, other, e)] != Some(other));
                    }
                    assert(holds(keys, key)) by {
                        assert(keys[j] == Some(key));
                    }
                }
            }
            assert(step(n, after[j]->0, d) == j && passes(after, after[j]->0, d));
        }
    }
}

/// After filling the index a search stopped at, the table holds that key there
/// and every other key where it was.
pub proof fn lemma_insert_lookup(keys: Seq<Option<int>>, key: int, i: int, other: int)
    requires
        0 <= key,
        table_ok(keys),
        stops_at(keys, key, i),
    ensures
        ({
            let after = keys.update(i, Some(key));
            &&& holds(after, key) && index_of(after, key) == i
            &&& other != key ==> holds(after, other) == holds(keys, other) && (holds(keys, other)
                ==> index_of(after, other) == index_of(keys, other) && index_of(keys, other) != i)
        }),
{
    let n = keys.len() as int;
    let after = keys.update(i, Some(key));
    lemma_search_decides(keys, key, i);
    lemma_insert_keeps_table(keys, key, i);
    assert(after[i] == Some(key));
    lemma_only_index(after, key, i);
    if other != key {
        if holds(keys, other) {
            let j = index_of(keys, other);
            assert(keys[j] == Some(other));
            assert(after[j] == Some(other));
            lemma_only_index(after, other, j);
        }
        if holds(after, other) {
            let j = index_of(after, other);
            assert(after[j] == Some(other));
            assert(keys[j] == Some(other));
        }
    }
}

/// A key has one index.
pub proof fn lemma_only_index(keys: Seq<Option<int>>, key: int, i: int)
    requires
        table_ok(keys),
        0 <= i < keys.len(),
        keys[i] == Some(key),
    ensures
        holds(keys, key),
        index_of(keys, key) == i,
{
    assert(reachable(keys, i));
    let n = keys.len() as int;
    let d = choose|d: int|
        0 <= d < keys.len() && #[trigger] step(n, keys[i]->0, d) == i && passes(keys, keys[i]->0, d);
    assert(step(n, key, d) == i && passes(keys, key, d));
    assert(stops_at(keys, key, i));
    lemma_search_decides(keys, key, i);
}

/// The keys the first `to` indices hold.
pub open spec fn key_set(keys: Seq<Option<int>>, to: int) -> Set<int>
    decreases to,
{
    if to <= 0 {
        Set::empty()
    } else if keys[to - 1] is Some {
        key_set(keys, to - 1).insert(keys[to - 1]->0)
    } else {
        key_set(keys, to - 1)
    }
}

/// Keys are distinct, so a table holds no more of them than there are.
pub proof fn lemma_occupied_limit(keys: Seq<Option<int>>, limit: int, to: int)
    requires
        0 <= to <= keys.len(),
        0 <= limit,
        table_ok(keys),
        forall|i: int|
            0 <= i < keys.len() && (#[trigger] keys[i]) is Some ==> 0 <= keys[i]->0 < limit,
    ensures
        occupied(keys, to) <= limit,
{
    lemma_key_set(keys, limit, to);
    vstd::set_lib::lemma_int_range(0, limit);
    vstd::set_lib::lemma_len_subset(key_set(keys, to), vstd::set_lib::set_int_range(0, limit));
}

/// The keys of a prefix are as many as its occupied indices.
proof fn lemma_key_set(keys: Seq<Option<int>>, limit: int, to: int)
    requires
        0 <= to <= keys.len(),
        table_ok(keys),
        forall|i: int|
            0 <= i < keys.len() && (#[trigger] keys[i]) is Some ==> 0 <= keys[i]->0 < limit,
    ensures
        key_set(keys, to).finite(),
        key_set(keys, to).len() == occupied(keys, to),
        key_set(keys, to).subset_of(vstd::set_lib::set_int_range(0, limit)),
        forall|k: int| #[trigger] key_set(keys, to).contains(k) ==> exists|i: int|
            0 <= i < to && #[trigger] keys[i] == Some(k),
    decreases to,
{
    if to > 0 {
        lemma_key_set(keys, limit, to - 1);
        if keys[to - 1] is Some {
            let k = keys[to - 1]->0;
            if key_set(keys, to - 1).contains(k) {
                let i = choose|i: int| 0 <= i < to - 1 && #[trigger] keys[i] == Some(k);
                lemma_only_index(keys, k, i);
                lemma_only_index(keys, k, to - 1);
            }
            assert forall|j: int| #[trigger] key_set(keys, to).contains(j) implies exists|i: int|
                0 <= i < to && #[trigger] keys[i] == Some(j) by {
                if j == k {
                    assert(keys[to - 1] == Some(j));
                } else {
                    let i = choose|i: int| 0 <= i < to - 1 && #[trigger] keys[i] == Some(j);
                    assert(keys[i] == Some(j));
                }
            }
        }
    }
}

} // verus!
