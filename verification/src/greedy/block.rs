//! Blocks that fill downwards and keep the newest positions stored into them.
use vstd::arithmetic::div_mod;
use vstd::arithmetic::power2;
use vstd::bits;
use vstd::prelude::*;

use crate::backend::{Backend, BackendKind};
use crate::greedy::search;
use crate::greedy::search::{
    consider, probe_last_distances, read_u32, scan_bucket, tag_equality, write_back, Best, Found,
    MatchQuery, SearchResult, MAX_MATCH,
};
use crate::math;

verus! {

/// The slot of an `n`-slot block that a store made after `count` others goes to.
pub open spec fn store_slot(n: int, count: int) -> int {
    n - 1 - count % n
}

/// How many of `count` stores a block of `n` slots still holds.
pub open spec fn kept_count(n: int, count: int) -> int {
    if count < n {
        count
    } else {
        n
    }
}

/// What a block `count` stores deep holds, newest first.
pub open spec fn kept<T>(cells: Seq<T>, count: int) -> Seq<T> {
    let n = cells.len() as int;
    Seq::new(
        kept_count(n, count) as nat,
        |age: int| cells[store_slot(n, count - 1 - age)],
    )
}

/// The first `limit` elements, or all of them.
pub open spec fn truncated<T>(s: Seq<T>, limit: int) -> Seq<T> {
    if s.len() <= limit {
        s
    } else {
        s.take(limit)
    }
}

/// What a store does to what a bucket holds: the newest comes first, the oldest
/// is forgotten, and a counter that wraps to zero forgets everything.
pub open spec fn pushed<T>(held: Seq<T>, value: T, count: u16, limit: int) -> Seq<T> {
    if count == 0xFFFF {
        Seq::empty()
    } else {
        truncated(seq![value] + held, limit)
    }
}

/// Writing a block's next slot pushes what it holds.
pub proof fn lemma_kept_push<T>(cells: Seq<T>, count: int, value: T)
    requires
        cells.len() > 0,
        count >= 0,
    ensures
        0 <= store_slot(cells.len() as int, count) < cells.len(),
        kept(cells.update(store_slot(cells.len() as int, count), value), count + 1) == truncated(
            seq![value] + kept(cells, count),
            cells.len() as int,
        ),
{
    let n = cells.len() as int;
    div_mod::lemma_mod_bound(count, n);
    let slot = store_slot(n, count);
    let after = kept(cells.update(slot, value), count + 1);
    let expected = truncated(seq![value] + kept(cells, count), n);
    assert(after.len() == expected.len());
    assert forall|age: int| 0 <= age < after.len() implies after[age] == expected[age] by {
        if age > 0 {
            // Another of the last `n` stores lies in another slot.
            let other = count - age;
            div_mod::lemma_mod_bound(other, n);
            math::lemma_mod_offset(other, age, n);
            assert(store_slot(n, other) != slot);
            assert(kept(cells, count)[age - 1] == cells[store_slot(n, count - 1 - (age - 1))]);
        }
    }
    assert(after =~= expected);
}

/// Ageing from the newest slot reaches the slots of the earlier stores.
pub proof fn lemma_aged(n: int, count: int, age: int)
    requires
        n > 0,
        0 <= age < n,
        age < count,
    ensures
        0 <= store_slot(n, count - 1) < n,
        0 <= store_slot(n, count - 1 - age) < n,
        search::aged_slot(n, store_slot(n, count - 1), age) == store_slot(n, count - 1 - age),
{
    let newest = store_slot(n, count - 1);
    div_mod::lemma_mod_bound(count - 1, n);
    div_mod::lemma_mod_bound(count - 1 - age, n);
    math::lemma_mod_offset(count - 1 - age, age, n);
    math::lemma_mod_offset(newest, age, n);
    div_mod::lemma_small_mod(newest as nat, n as nat);
}

/// The positions a search visits, from the one of this age on: all of them, or
/// those with the right tag.
pub open spec fn picked(positions: Seq<u32>, tags: Option<Seq<u8>>, tag: u8, age: int) -> Seq<u32>
    decreases positions.len() - age,
{
    if age >= positions.len() {
        Seq::empty()
    } else {
        let rest = picked(positions, tags, tag, age + 1);
        if tags is None || tags->0[age] == tag {
            seq![positions[age]] + rest
        } else {
            rest
        }
    }
}

/// Whether a search through a block looks at its tags.
pub open spec fn filters(backend: BackendKind, n: int) -> bool {
    backend != BackendKind::Scalar && (n == 16 || n == 32)
}

/// The scan's candidates are the picked positions.
proof fn lemma_candidates(
    bucket: Seq<u32>,
    tags: Option<Seq<u8>>,
    tag: u8,
    equal: u32,
    count: int,
    age: int,
)
    requires
        bucket.len() > 0,
        0 <= age <= kept_count(bucket.len() as int, count),
        count > 0,
        tags is Some ==> tags->0.len() == bucket.len() && bucket.len() <= 32,
        forall|i: int|
            0 <= i < bucket.len() && i < 32 ==> (#[trigger] math::word_bit(equal as u64, i) <==> tags is None
                || tags->0[i] == tag),
    ensures
        search::candidates_from(
            bucket,
            equal,
            store_slot(bucket.len() as int, count - 1),
            kept_count(bucket.len() as int, count),
            age,
        ) == picked(
            kept(bucket, count),
            if tags is Some {
                Some(kept(tags->0, count))
            } else {
                None
            },
            tag,
            age,
        ),
    decreases bucket.len() - age,
{
    let n = bucket.len() as int;
    if age < kept_count(n, count) {
        lemma_aged(n, count, age);
        lemma_candidates(bucket, tags, tag, equal, count, age + 1);
        let slot = store_slot(n, count - 1 - age);
        assert(kept(bucket, count)[age] == bucket[slot]);
        if tags is Some {
            assert(kept(tags->0, count)[age] == tags->0[slot]);
        }
        if n <= 32 {
            assert(math::word_bit(equal as u64, slot) <==> tags is None || tags->0[slot] == tag);
        }
    }
}

/// What a bucket search leaves: the cached distances first, then the candidates.
pub open spec fn bucket_result(
    query: &MatchQuery,
    out: SearchResult,
    depth: int,
    candidates: Seq<u32>,
) -> SearchResult {
    let (probed_len, probed) = search::probed(
        query,
        0,
        search::distances_for(depth),
        out.len as int,
        Found { len: 0, distance: 0, score: out.score },
    );
    let best_len = if probed_len < 3 {
        3
    } else {
        probed_len
    };
    let best = Best {
        len: best_len as u32,
        word: search::half_at(query.data@, query.here() + best_len - 3),
    };
    search::written_back(out, search::judged_all(query, candidates, best, probed).1)
}

/// Runs the cached-distance probes and the bucket scan for one search.
///
/// `bucket` is the bucket's slots, `count` stores deep; `tags` is its tags, or
/// `None` for an untagged shape; `depth` is the shape's full depth, which fixes
/// how many cached distances are probed first.
pub fn search_bucket(
    backend: Backend,
    query: &MatchQuery,
    out: &mut SearchResult,
    tag: u8,
    count: u16,
    bucket: &[u32],
    tags: Option<&[u8]>,
    depth: usize,
)
    requires
        query.wf(),
        old(out).len <= MAX_MATCH,
        0 < bucket@.len() <= 0x1_0000,
        tags is Some ==> tags->0@.len() == bucket@.len() && bucket@.len() <= 32,
    ensures
        *final(out) == bucket_result(
            query,
            *old(out),
            depth as int,
            picked(
                kept(bucket@, count as int),
                if tags is Some && filters(backend.of(), bucket@.len() as int) {
                    Some(kept(tags->0@, count as int))
                } else {
                    None
                },
                tag,
                0,
            ),
        ),
        final(out).score >= old(out).score,
        final(out).score == old(out).score ==> *final(out) == *old(out),
        final(out).score > old(out).score ==> final(out).len_code_delta == 0 && final(out).len >= 2
            && query.genuine(final(out).len as int, final(out).distance as int) && final(out).distance
            <= query.max_backward,
        final(out).len <= MAX_MATCH,
{
    let n: usize = bucket.len();
    let available: usize = if (count as usize) < n {
        count as usize
    } else {
        n
    };
    let equal: u32 = match tags {
        Some(tags) if available != 0 => tag_equality(backend, tags, tag),
        _ => 0xFFFF_FFFF,
    };
    let (best_len, seed) = probe_last_distances(backend, query, out, depth);
    let mut found: Found = seed;
    let ghost used: Option<Seq<u8>> = if tags is Some && filters(backend.of(), n as int) {
        Some(tags->0@)
    } else {
        None
    };
    if available != 0 {
        proof {
            assert forall|i: int| 0 <= i < n && i < 32 implies (#[trigger] math::word_bit(
                equal as u64,
                i,
            ) <==> used is None || used->0[i] == tag) by {
                if tags is None {
                    math::lemma_all_ones(i);
                }
            }
            lemma_candidates(bucket@, used, tag, equal, count as int, 0);
            div_mod::lemma_mod_bound(count - 1, n as int);
        }
        let newest: usize = n - 1 - (count as usize - 1) % n;
        scan_bucket(backend, query, bucket, equal, newest, available, best_len, &mut found);
    } else {
        assert(kept(bucket@, count as int) =~= Seq::<u32>::empty());
    }
    write_back(out, found);
}

/// The position a chain node holds.
pub open spec fn node_position(node: u64) -> u32 {
    node as u32
}

/// The one-based index of the next older node; zero at the end.
pub open spec fn node_link(node: u64) -> int {
    (node >> 32) as int
}

/// Every node links to an older one.
pub open spec fn chain_ok(chain: Seq<u64>) -> bool {
    forall|i: int| 0 <= i < chain.len() ==> #[trigger] node_link(chain[i]) <= i
}

/// The newest `limit` positions of a chain, from a one-based link on.
pub open spec fn chain_list(chain: Seq<u64>, link: int, limit: int) -> Seq<u32>
    decreases limit,
{
    if limit <= 0 || link < 1 || link > chain.len() {
        Seq::empty()
    } else {
        seq![node_position(chain[link - 1])] + chain_list(
            chain,
            node_link(chain[link - 1]),
            limit - 1,
        )
    }
}

/// Appending a node changes no list that starts before it.
pub proof fn lemma_chain_frame(chain: Seq<u64>, node: u64, link: int, limit: int)
    requires
        chain_ok(chain),
        link <= chain.len(),
    ensures
        chain_list(chain.push(node), link, limit) == chain_list(chain, link, limit),
    decreases limit,
{
    if limit > 0 && link >= 1 {
        assert(node_link(chain[link - 1]) <= link - 1);
        lemma_chain_frame(chain, node, node_link(chain[link - 1]), limit - 1);
    }
}

/// A shorter list of a chain is the longer one cut off.
pub proof fn lemma_chain_cut(chain: Seq<u64>, link: int, limit: int, shorter: int)
    requires
        0 <= shorter <= limit,
    ensures
        chain_list(chain, link, shorter) == truncated(chain_list(chain, link, limit), shorter),
        chain_list(chain, link, limit).len() <= limit,
    decreases limit,
{
    if limit > 0 && 1 <= link <= chain.len() {
        let next = node_link(chain[link - 1]);
        let whole = chain_list(chain, link, limit);
        let tail = chain_list(chain, next, limit - 1);
        if shorter > 0 {
            lemma_chain_cut(chain, next, limit - 1, shorter - 1);
            assert(chain_list(chain, link, shorter) =~= truncated(whole, shorter));
        } else {
            lemma_chain_cut(chain, next, limit - 1, 0);
            assert(chain_list(chain, link, 0) =~= truncated(whole, 0));
        }
    } else {
        assert(chain_list(chain, link, shorter) =~= truncated(
            chain_list(chain, link, limit),
            shorter,
        ));
    }
}

/// Every position of an unfiltered bucket is visited.
pub proof fn lemma_picked_all(positions: Seq<u32>, tag: u8, age: int)
    requires
        0 <= age <= positions.len(),
    ensures
        picked(positions, None, tag, age) == positions.skip(age),
    decreases positions.len() - age,
{
    if age < positions.len() {
        lemma_picked_all(positions, tag, age + 1);
        assert(positions.skip(age) =~= seq![positions[age]] + positions.skip(age + 1));
    } else {
        assert(positions.skip(age) =~= Seq::<u32>::empty());
    }
}

/// Runs the cached-distance probes and a compact chain walk for one search.
///
/// `head` names the newest node of the bucket's chain and `count` how many
/// stores the bucket has seen; the walk visits the newest `depth` of them in the
/// order a block scan would, judging each with the same filter.
pub fn search_chain(
    backend: Backend,
    query: &MatchQuery,
    out: &mut SearchResult,
    count: u16,
    head: u32,
    chain: &[u64],
    depth: usize,
)
    requires
        query.wf(),
        old(out).len <= MAX_MATCH,
    ensures
        *final(out) == bucket_result(
            query,
            *old(out),
            depth as int,
            chain_list(chain@, head as int, kept_count(depth as int, count as int)),
        ),
        final(out).score >= old(out).score,
        final(out).score == old(out).score ==> *final(out) == *old(out),
        final(out).score > old(out).score ==> final(out).len_code_delta == 0 && final(out).len >= 2
            && query.genuine(final(out).len as int, final(out).distance as int) && final(out).distance
            <= query.max_backward,
        final(out).len <= MAX_MATCH,
{
    let (best_len, seed) = probe_last_distances(backend, query, out, depth);
    let mut found: Found = seed;
    let mut remaining: usize = if (count as usize) < depth {
        count as usize
    } else {
        depth
    };
    let mut link: usize = head as usize;
    let cur_ix_masked: usize = query.cur_ix & query.mask;
    let mut best = Best {
        len: best_len as u32,
        word: read_u32(query.data, cur_ix_masked + best_len - 3),
    };
    let ghost whole = search::judged_all(
        query,
        chain_list(chain@, link as int, remaining as int),
        best,
        found,
    );
    while remaining != 0 && link != 0 && link <= chain.len()
        invariant_except_break
            search::judged_all(
                query,
                chain_list(chain@, link as int, remaining as int),
                best,
                found,
            ) == whole,
        invariant
            query.wf(),
            3 <= best.len <= MAX_MATCH,
            found.sound(query),
            found.improves(Found { len: 0, distance: 0, score: out.score }),
        ensures
            whole.1 == found,
            found.sound(query),
            found.improves(Found { len: 0, distance: 0, score: out.score }),
        decreases remaining,
    {
        let node: u64 = chain[link - 1];
        let ghost rest = chain_list(chain@, node_link(node), remaining - 1);
        assert((seq![node_position(node)] + rest).drop_first() =~= rest);
        proof {
            bits::lemma_u64_shr_is_div(node, 32);
            power2::lemma2_to64();
        }
        if !consider(backend, query, node as u32, &mut best, &mut found) {
            break;
        }
        link = (node >> 32) as usize;
        remaining -= 1;
    }
    write_back(out, found);
}

/// A position lies outside what a query may reach.
pub open spec fn out_of_reach(query: &MatchQuery, position: u32) -> bool {
    position > query.cur_ix || query.cur_ix - position > query.max_backward
}

/// The bytes at a position agree with the query in fewer than four places.
pub open spec fn hopeless(query: &MatchQuery, position: u32) -> bool {
    search::agreement(
        query.data@,
        ((position as usize) & query.mask) as int,
        query.here(),
        query.max_length as int,
    ) < 4
}

/// Candidates out of reach leave a scan as it was.
proof fn lemma_beyond(
    query: &MatchQuery,
    positions: Seq<u32>,
    tags: Seq<u8>,
    tag: u8,
    age: int,
    best: Best,
    found: Found,
)
    requires
        0 <= age <= positions.len(),
        forall|i: int| age <= i < positions.len() ==> out_of_reach(query, #[trigger] positions[i]),
    ensures
        search::judged_all(query, picked(positions, Some(tags), tag, age), best, found) == (
            best,
            found,
        ),
    decreases positions.len() - age,
{
    if age < positions.len() {
        lemma_beyond(query, positions, tags, tag, age + 1, best, found);
        let rest = picked(positions, Some(tags), tag, age + 1);
        assert((seq![positions[age]] + rest)[0] == positions[age]);
    }
}

/// Skipping candidates by their tags changes no search, as long as the tags
/// only rule out candidates that agree in fewer than four bytes and the
/// candidates come newest first.
pub proof fn lemma_filter_harmless(
    query: &MatchQuery,
    positions: Seq<u32>,
    tags: Seq<u8>,
    tag: u8,
    age: int,
    best: Best,
    found: Found,
)
    requires
        0 <= age <= positions.len(),
        forall|i: int, j: int| 0 <= i < j < positions.len() ==> positions[j] < positions[i],
        positions.len() > 0 ==> positions[0] <= query.cur_ix,
        forall|i: int|
            0 <= i < positions.len() && tags[i] != tag ==> hopeless(query, #[trigger] positions[i]),
    ensures
        search::judged_all(query, picked(positions, Some(tags), tag, age), best, found).1
            == search::judged_all(query, positions.skip(age), best, found).1,
    decreases positions.len() - age,
{
    if age < positions.len() {
        let rest = picked(positions, Some(tags), tag, age + 1);
        let (goes_on, next_best, next_found) = search::judged(query, positions[age], best, found);
        assert(positions.skip(age)[0] == positions[age]);
        assert(positions.skip(age).drop_first() =~= positions.skip(age + 1));
        if tags[age] == tag {
            assert((seq![positions[age]] + rest).drop_first() =~= rest);
            lemma_filter_harmless(query, positions, tags, tag, age + 1, next_best, next_found);
        } else if out_of_reach(query, positions[age]) {
            assert forall|i: int| age + 1 <= i < positions.len() implies out_of_reach(
                query,
                #[trigger] positions[i],
            ) by {
                assert(positions[i] < positions[age]);
                if age > 0 {
                    assert(positions[age] < positions[0]);
                }
            }
            lemma_beyond(query, positions, tags, tag, age + 1, best, found);
        } else {
            assert(hopeless(query, positions[age]));
            lemma_filter_harmless(query, positions, tags, tag, age + 1, best, found);
        }
    }
}

} // verus!
