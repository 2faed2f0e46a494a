//! Pricing the commands that could start or end at a position.
use vstd::prelude::*;

use crate::backend::Backend;
use crate::greedy::backward_references;
use crate::greedy::search;
use crate::greedy::search::{measure, MAX_MATCH};
use crate::greedy::tables::{COPY_EXTRA, INS_EXTRA};
use crate::hq::candidates;
use crate::hq::candidates::{locate, prefix_match_length, BackwardMatch};
use crate::hq::nodes;
use crate::hq::nodes::{CostModel, PosData, StartPosQueue, ZopfliNode};
use crate::hq::path;
use crate::hq::path::{compute_distance_cache, compute_distance_shortcut, Stretch};
use crate::shared::command;
use crate::shared::command::{
    combine_length_codes, copy_length_code, insert_length_code, prefix_encode_copy_distance,
    NUM_DISTANCE_SHORT_CODES,
};
use crate::shared::distance::DistanceParams;
use crate::shared::match_len;

verus! {

/// Which cached distance a short code starts from.
pub const DISTANCE_CACHE_INDEX: [usize; NUM_DISTANCE_SHORT_CODES] = [
    0, 1, 2, 3, 0, 0, 0, 0, 0, 0, 1, 1, 1, 1, 1, 1,
];

/// What a short code adds to it.
pub const DISTANCE_CACHE_OFFSET: [i64; NUM_DISTANCE_SHORT_CODES] = [
    0, 0, 0, 0, -1, 1, -2, 2, -3, 3, -1, 1, -2, 2, -3, 3,
];

/// How much a search tries at each position.
#[derive(Copy, Clone, Debug, PartialEq, Eq, Structural)]
pub struct Effort {
    /// Copies longer than this are not tried at every shorter length.
    pub max_zopfli_len: usize,
    /// How many command starts are expanded.
    pub max_zopfli_candidates: usize,
}

/// The distances of a start are those its path leaves cached.
pub open spec fn start_ok<P: Copy>(
    stretch: &Stretch,
    nodes: Seq<ZopfliNode<P>>,
    entry: PosData<P>,
    done: int,
) -> bool {
    &&& entry.pos < done
    &&& entry.pos == 0 || nodes[entry.pos as int].reached()
    &&& entry.distance_cache@ == stretch.path_cache(nodes, entry.pos as int)
}

/// What holds of the nodes and the queue once the first positions are evaluated,
/// whatever commands cost.
pub open spec fn progress<P: Copy>(
    stretch: &Stretch,
    nodes: Seq<ZopfliNode<P>>,
    queue: Seq<PosData<P>>,
    done: int,
) -> bool {
    &&& 0 <= done <= stretch.num_bytes + 1
    &&& stretch.sound(nodes, done)
    &&& stretch.shortcuts_ok(nodes, done)
    &&& queue.len() <= nodes::QUEUE_SIZE
    &&& forall|i: int| 0 <= i < queue.len() ==> #[trigger] start_ok(stretch, nodes, queue[i], done)
}

/// The node of a command from `start` that copies `len` bytes to `pos + len`.
pub open spec fn arrival<P: Copy>(
    old: ZopfliNode<P>,
    pos: int,
    start: int,
    len: int,
    length_code: int,
    distance: int,
    short_code: int,
    cost: P,
) -> ZopfliNode<P> {
    ZopfliNode {
        copy_length: len as usize,
        length_code: length_code as usize,
        distance: distance as usize,
        short_code: short_code as usize,
        insert_length: (pos - start) as usize,
        cost,
        shortcut: old.shortcut,
        next: old.next,
    }
}

/// A cheaper command to a later position keeps everything in order.
proof fn lemma_arrival<P: Copy>(
    stretch: &Stretch,
    nodes: Seq<ZopfliNode<P>>,
    queue: Seq<PosData<P>>,
    pos: int,
    node: ZopfliNode<P>,
)
    requires
        stretch.wf(),
        progress(stretch, nodes, queue, pos + 1),
        0 <= pos,
        node.copy_length >= 2,
        pos + node.copy_length <= stretch.num_bytes,
        node.insert_length <= pos,
        pos - node.insert_length == 0 || nodes[pos - node.insert_length].reached(),
        stretch.reproduces(pos, node.copy_length as int, node.distance as int),
        node.distance <= 0x7FFF_FFFF,
        node.short_code <= 16,
        node.length_code <= MAX_MATCH,
        node.short_code > 0 ==> node.distance <= stretch.reach(pos) + stretch.gap,
        node.short_code > 0 ==> backward_references::decoded_distance(
            node.short_code - 1,
            stretch.path_cache(nodes, pos - node.insert_length),
        ) == node.distance,
    ensures
        progress(stretch, nodes.update(pos + node.copy_length, node), queue, pos + 1),
{
    let i = pos + node.copy_length;
    let after = nodes.update(i, node);
    assert forall|j: int| 0 <= j <= pos implies #[trigger] path::same_command(nodes[j], after[j]) by {}
    assert forall|j: int| 1 <= j <= stretch.num_bytes implies #[trigger] stretch.settled(
        after,
        j,
        pos + 1,
    ) by {
        assert(stretch.settled(nodes, j, pos + 1));
        if after[j].reached() {
            let start = path::start_of(after, j);
            stretch.lemma_cache_frame(nodes, after, start);
        }
    }
    assert forall|j: int| 0 <= j < pos + 1 implies (#[trigger] after[j]).shortcut
        == stretch.shortcut_of(after, j) by {
        assert(nodes[j].shortcut == stretch.shortcut_of(nodes, j));
        if j > 0 {
            assert(stretch.settled(nodes, j, pos + 1));
        }
    }
    assert forall|j: int| 0 <= j < queue.len() implies #[trigger] start_ok(
        stretch,
        after,
        queue[j],
        pos + 1,
    ) by {
        assert(start_ok(stretch, nodes, queue[j], pos + 1));
        stretch.lemma_cache_frame(nodes, after, queue[j].pos as int);
    }
}

/// Records a command where the caller found it cheaper.
fn record<P: Copy>(
    nodes: &mut Vec<ZopfliNode<P>>,
    pos: usize,
    start: usize,
    len: usize,
    length_code: usize,
    distance: usize,
    short_code: usize,
    cost: P,
)
    requires
        start <= pos,
        pos + len < old(nodes)@.len(),
    ensures
        final(nodes)@ == old(nodes)@.update(
            pos + len,
            arrival(
                old(nodes)@[pos + len],
                pos as int,
                start as int,
                len as int,
                length_code as int,
                distance as int,
                short_code as int,
                cost,
            ),
        ),
{
    assert(nodes.len() <= usize::MAX);
    let here = nodes[pos + len];
    let node = ZopfliNode {
        copy_length: len,
        length_code,
        distance,
        short_code,
        insert_length: pos - start,
        cost,
        shortcut: here.shortcut,
        next: here.next,
    };
    nodes.set(pos + len, node);
}

/// The shortest copy that could still improve a later position, from a length on.
pub open spec fn least_len<C: CostModel>(
    model: &C,
    nodes: Seq<ZopfliNode<C::Price>>,
    num_bytes: int,
    pos: int,
    cost: C::Price,
    len: int,
    bucket: int,
    offset: int,
) -> int
    decreases num_bytes + 2 - len,
{
    if len <= num_bytes && pos + len <= num_bytes && model.at_most_of(nodes[pos + len].cost, cost) {
        if len + 1 == offset {
            least_len(
                model,
                nodes,
                num_bytes,
                pos,
                model.plus_of(cost, model.bits_of(1)),
                len + 1,
                2 * bucket,
                offset + bucket,
            )
        } else {
            least_len(model, nodes, num_bytes, pos, cost, len + 1, bucket, offset)
        }
    } else {
        len
    }
}

/// Returns the shortest copy that could still improve a later position.
///
/// Anything shorter reaches a position that is already cheaper to arrive at than
/// the best case here. The floor rises by a bit at each copy-length bucket,
/// because a longer copy needs an extra length bit.
pub fn compute_minimum_copy_length<C: CostModel>(
    model: &C,
    start_cost: C::Price,
    nodes: &Vec<ZopfliNode<C::Price>>,
    num_bytes: usize,
    pos: usize,
) -> (len: usize)
    requires
        nodes@.len() == num_bytes + 1,
        num_bytes <= MAX_MATCH,
        pos <= num_bytes,
    ensures
        2 <= len,
        len <= num_bytes - pos + 1 || len == 2,
        len == least_len(model, nodes@, num_bytes as int, pos as int, start_cost, 2, 4, 10),
{
    let mut min_cost: C::Price = start_cost;
    let mut len: usize = 2;
    let mut next_len_bucket: usize = 4;
    let mut next_len_offset: usize = 10;
    while pos + len <= num_bytes && model.at_most(nodes[pos + len].cost, min_cost)
        invariant
            nodes@.len() == num_bytes + 1,
            num_bytes <= MAX_MATCH,
            pos <= num_bytes,
            2 <= len,
            len <= num_bytes - pos + 1 || len == 2,
            len < next_len_offset,
            next_len_offset == next_len_bucket + 6,
            4 <= next_len_bucket,
            next_len_bucket <= 2 * MAX_MATCH + 8,
            least_len(
                model,
                nodes@,
                num_bytes as int,
                pos as int,
                min_cost,
                len as int,
                next_len_bucket as int,
                next_len_offset as int,
            ) == least_len(model, nodes@, num_bytes as int, pos as int, start_cost, 2, 4, 10),
        decreases num_bytes + 2 - len,
    {
        len += 1;
        if len == next_len_offset {
            min_cost = model.plus(min_cost, model.bits(1));
            next_len_offset += next_len_bucket;
            next_len_bucket *= 2;
        }
    }
    len
}

/// Where a search stands.
pub struct Search<P> {
    /// The cheapest command found to each position.
    pub nodes: Seq<ZopfliNode<P>>,
    /// The starts worth expanding, the most promising first.
    pub queue: Seq<PosData<P>>,
}

/// A start and what is known there.
pub open spec fn is_start<C: CostModel>(
    stretch: &Stretch,
    model: &C,
    nodes: Seq<ZopfliNode<C::Price>>,
    pos: int,
    entry: PosData<C::Price>,
) -> bool {
    &&& entry.pos == pos
    &&& entry.distance_cache@ == stretch.path_cache(nodes, pos)
    &&& entry.cost == nodes[pos].cost
    &&& entry.costdiff == model.minus_of(nodes[pos].cost, model.literals_of(0, pos))
}

/// The start at a position.
pub open spec fn start_at<C: CostModel>(
    stretch: &Stretch,
    model: &C,
    nodes: Seq<ZopfliNode<C::Price>>,
    pos: int,
) -> PosData<C::Price> {
    choose|entry: PosData<C::Price>| is_start(stretch, model, nodes, pos, entry)
}

/// There is one start at a position.
proof fn lemma_start_at<C: CostModel>(
    stretch: &Stretch,
    model: &C,
    nodes: Seq<ZopfliNode<C::Price>>,
    pos: int,
    entry: PosData<C::Price>,
)
    requires
        is_start(stretch, model, nodes, pos, entry),
    ensures
        start_at(stretch, model, nodes, pos) == entry,
{
    let other = start_at(stretch, model, nodes, pos);
    assert forall|i: int| 0 <= i < 4 implies other.distance_cache[i] == entry.distance_cache[i] by {
        assert(other.distance_cache@[i] == entry.distance_cache@[i]);
    }
    assert(other.distance_cache =~= entry.distance_cache);
}

/// A position is evaluated: its shortcut is recorded, and it is queued if getting
/// there is no dearer than spelling everything out as literals.
pub open spec fn evaluated<C: CostModel>(
    stretch: &Stretch,
    model: &C,
    pos: int,
    search: Search<C::Price>,
) -> Search<C::Price> {
    let node = search.nodes[pos];
    let nodes = search.nodes.update(
        pos,
        ZopfliNode { shortcut: stretch.shortcut_of(search.nodes, pos) as usize, ..node },
    );
    Search {
        nodes,
        queue: if (pos == 0 || node.reached()) && model.at_most_of(
            node.cost,
            model.literals_of(0, pos),
        ) {
            nodes::queued(model, search.queue, start_at(stretch, model, nodes, pos))
        } else {
            search.queue
        },
    }
}

/// Records the shortcut of `pos` and queues it if it is worth starting from:
/// if getting there is no dearer than spelling everything out as literals.
pub fn evaluate_node<C: CostModel>(
    stretch: &Stretch,
    model: &C,
    pos: usize,
    queue: &mut StartPosQueue<C::Price>,
    nodes: &mut Vec<ZopfliNode<C::Price>>,
)
    requires
        stretch.wf(),
        progress(stretch, old(nodes)@, old(queue).entries@, pos as int),
        pos <= stretch.num_bytes,
    ensures
        progress(stretch, final(nodes)@, final(queue).entries@, pos + 1),
        (Search { nodes: final(nodes)@, queue: final(queue).entries@ }) == evaluated(
            stretch,
            model,
            pos as int,
            (Search { nodes: old(nodes)@, queue: old(queue).entries@ }),
        ),
        final(nodes)@ == old(nodes)@.update(
            pos as int,
            (ZopfliNode {
                shortcut: stretch.shortcut_of(old(nodes)@, pos as int) as usize,
                ..old(nodes)@[pos as int]
            }),
        ),
        final(queue).entries@ == old(queue).entries@ || exists|k: int, entry: PosData<C::Price>|
            entry.pos == pos && entry.cost == old(nodes)@[pos as int].cost && final(queue).entries@
                == #[trigger] nodes::with_room(old(queue).entries@).insert(k, entry),
{
    let ghost before = nodes@;
    let ghost starts = queue.entries@;
    let shortcut: usize = compute_distance_shortcut(stretch, pos, nodes);
    let mut node = nodes[pos];
    node.shortcut = shortcut;
    nodes.set(pos, node);
    proof {
        assert forall|j: int| 0 <= j < before.len() implies #[trigger] path::same_command(
            before[j],
            nodes@[j],
        ) by {}
        lemma_sound_later(stretch, before, pos as int, pos + 1);
        stretch.lemma_sound_frame(before, nodes@, pos + 1);
        assert forall|j: int| 0 <= j < pos + 1 implies (#[trigger] nodes@[j]).shortcut
            == stretch.shortcut_of(nodes@, j) by {
            if j < pos {
                assert(before[j].shortcut == stretch.shortcut_of(before, j));
            }
            if j > 0 {
                assert(stretch.settled(before, j, pos as int));
            }
        }
        assert forall|j: int| 0 <= j < starts.len() implies #[trigger] start_ok(
            stretch,
            nodes@,
            starts[j],
            pos + 1,
        ) by {
            assert(start_ok(stretch, before, starts[j], pos as int));
            stretch.lemma_cache_frame(before, nodes@, starts[j].pos as int);
        }
    }
    let literals = model.literal_costs(0, pos);
    if (pos == 0 || node.is_reached()) && model.at_most(node.cost, literals) {
        let distance_cache = compute_distance_cache(stretch, pos, nodes, Ghost(pos + 1));
        let entry = PosData {
            pos,
            distance_cache,
            cost: node.cost,
            costdiff: model.minus(node.cost, literals),
        };
        proof {
            lemma_start_at(stretch, model, nodes@, pos as int, entry);
        }
        queue.push(model, entry);
        proof {
            let kept = nodes::with_room(starts);
            let k = choose|k: int|
                0 <= k <= kept.len() && queue.entries@ == #[trigger] kept.insert(k, entry);
            assert(queue.entries@ == kept.insert(k, entry));
            assert forall|j: int| 0 <= j < queue.entries@.len() implies #[trigger] start_ok(
                stretch,
                nodes@,
                queue.entries@[j],
                pos + 1,
            ) by {
                if j < k {
                    assert(queue.entries@[j] == starts[j]);
                    assert(start_ok(stretch, nodes@, starts[j], pos + 1));
                } else if j > k {
                    assert(queue.entries@[j] == starts[j - 1]);
                    assert(start_ok(stretch, nodes@, starts[j - 1], pos + 1));
                }
            }
        }
    }
}

/// What was sound with fewer positions evaluated still is.
proof fn lemma_sound_later<P: Copy>(stretch: &Stretch, nodes: Seq<ZopfliNode<P>>, done: int, later: int)
    requires
        stretch.sound(nodes, done),
        done <= later,
    ensures
        stretch.sound(nodes, later),
{
    assert forall|i: int| 1 <= i <= stretch.num_bytes implies #[trigger] stretch.settled(
        nodes,
        i,
        later,
    ) by {
        assert(stretch.settled(nodes, i, done));
    }
}

/// Nodes up to a position are as they were.
pub open spec fn kept_to<P: Copy>(
    before: Seq<ZopfliNode<P>>,
    after: Seq<ZopfliNode<P>>,
    pos: int,
) -> bool {
    &&& before.len() == after.len()
    &&& forall|j: int| 0 <= j <= pos ==> #[trigger] after[j] == before[j]
}

/// A reported copy is one some command makes.
pub open spec fn longest_ok<P: Copy>(
    before: int,
    longest: int,
    nodes: Seq<ZopfliNode<P>>,
    pos: int,
) -> bool {
    &&& before <= longest
    &&& longest == before || {
        &&& 2 <= longest
        &&& pos + longest < nodes.len()
        &&& nodes[pos + longest].reached()
    }
}

/// The costs of a command before its copy length is chosen.
pub struct Quote<P> {
    /// With a distance that costs nothing.
    pub free: P,
    /// With its distance.
    pub priced: P,
    /// The insert code.
    pub insert_code: usize,
}

/// What a command costs.
pub open spec fn cost_of<C: CostModel>(
    model: &C,
    quote: Quote<C::Price>,
    length_code: int,
    short_code: int,
) -> C::Price {
    let copy_code = command::copy_code(length_code);
    let code = command::combined(quote.insert_code as int, copy_code, short_code == 1);
    let base = if code < 128 {
        quote.free
    } else {
        quote.priced
    };
    model.plus_of(model.plus_of(base, model.bits_of(COPY_EXTRA@[copy_code])), model.command_of(code))
}

/// The nodes once copies of one distance were offered at every length from `len` to
/// `longest`: a copy is recorded where it is cheaper than what was known. Beside it
/// the longest copy recorded so far.
pub open spec fn offered<C: CostModel>(
    model: &C,
    pos: int,
    start: int,
    quote: Quote<C::Price>,
    distance: int,
    short_code: int,
    word_code: Option<usize>,
    len: int,
    longest: int,
    nodes: Seq<ZopfliNode<C::Price>>,
    reported: int,
) -> (Seq<ZopfliNode<C::Price>>, int)
    decreases longest + 1 - len,
{
    if len > longest {
        (nodes, reported)
    } else {
        let length_code = match word_code {
            Some(code) => code as int,
            None => len,
        };
        let cost = cost_of(model, quote, length_code, short_code);
        let here = nodes[pos + len];
        let cheaper = model.below_of(cost, here.cost);
        offered(
            model,
            pos,
            start,
            quote,
            distance,
            short_code,
            word_code,
            len + 1,
            longest,
            if cheaper {
                nodes.update(
                    pos + len,
                    arrival(here, pos, start, len, length_code, distance, short_code, cost),
                )
            } else {
                nodes
            },
            if cheaper && len > reported {
                len
            } else {
                reported
            },
        )
    }
}

/// Offers copies of one distance at every length from `shortest` to `longest`.
fn offer_lengths<C: CostModel>(
    stretch: &Stretch,
    model: &C,
    pos: usize,
    entry: &PosData<C::Price>,
    quote: &Quote<C::Price>,
    shortest: usize,
    longest: usize,
    distance: usize,
    short_code: usize,
    word_code: Option<usize>,
    result: usize,
    nodes: &mut Vec<ZopfliNode<C::Price>>,
    Ghost(queue): Ghost<Seq<PosData<C::Price>>>,
) -> (reported: usize)
    requires
        stretch.wf(),
        progress(stretch, old(nodes)@, queue, pos + 1),
        start_ok(stretch, old(nodes)@, *entry, pos + 1),
        2 <= shortest,
        longest >= shortest ==> pos + longest <= stretch.num_bytes,
        forall|len: int|
            shortest <= len <= longest ==> #[trigger] stretch.reproduces(
                pos as int,
                len,
                distance as int,
            ),
        distance <= 0x7FFF_FFFF,
        short_code <= 16,
        short_code > 0 ==> distance <= stretch.reach(pos as int) + stretch.gap,
        short_code > 0 ==> backward_references::decoded_distance(
            short_code - 1,
            entry.distance_cache@,
        ) == distance,
        word_code matches Some(code) ==> 2 <= code <= MAX_MATCH,
        quote.insert_code < 24,
        result <= stretch.num_bytes - pos,
    ensures
        progress(stretch, final(nodes)@, queue, pos + 1),
        start_ok(stretch, final(nodes)@, *entry, pos + 1),
        kept_to(old(nodes)@, final(nodes)@, pos as int),
        reported <= stretch.num_bytes - pos,
        longest_ok(result as int, reported as int, final(nodes)@, pos as int),
        (final(nodes)@, reported as int) == offered(
            model,
            pos as int,
            entry.pos as int,
            *quote,
            distance as int,
            short_code as int,
            word_code,
            shortest as int,
            longest as int,
            old(nodes)@,
            result as int,
        ),
        forall|j: int|
            0 <= j < old(nodes)@.len() && old(nodes)@[j].reached() ==> (#[trigger] final(nodes)@[j]).reached(),
{
    let ghost first = nodes@;
    let mut reported: usize = result;
    let mut len: usize = shortest;
    let ghost whole = offered(
        model,
        pos as int,
        entry.pos as int,
        *quote,
        distance as int,
        short_code as int,
        word_code,
        shortest as int,
        longest as int,
        first,
        result as int,
    );
    while len <= longest
        invariant
            offered(
                model,
                pos as int,
                entry.pos as int,
                *quote,
                distance as int,
                short_code as int,
                word_code,
                len as int,
                longest as int,
                nodes@,
                reported as int,
            ) == whole,
            stretch.wf(),
            progress(stretch, nodes@, queue, pos + 1),
            start_ok(stretch, nodes@, *entry, pos + 1),
            kept_to(first, nodes@, pos as int),
            2 <= shortest <= len,
            longest >= shortest ==> pos + longest <= stretch.num_bytes,
            forall|l: int|
                shortest <= l <= longest ==> #[trigger] stretch.reproduces(
                    pos as int,
                    l,
                    distance as int,
                ),
            distance <= 0x7FFF_FFFF,
            short_code <= 16,
            short_code > 0 ==> distance <= stretch.reach(pos as int) + stretch.gap,
            short_code > 0 ==> backward_references::decoded_distance(
                short_code - 1,
                entry.distance_cache@,
            ) == distance,
            word_code matches Some(code) ==> 2 <= code <= MAX_MATCH,
            quote.insert_code < 24,
            result <= stretch.num_bytes - pos,
            reported <= stretch.num_bytes - pos,
            longest_ok(result as int, reported as int, nodes@, pos as int),
            forall|j: int|
                0 <= j < first.len() && first[j].reached() ==> (#[trigger] nodes@[j]).reached(),
        decreases longest + 1 - len,
    {
        let length_code: usize = match word_code {
            Some(code) => code,
            None => len,
        };
        let copy_code: usize = copy_length_code(length_code);
        let command: usize = combine_length_codes(quote.insert_code, copy_code, short_code == 1);
        let base = if command < 128 {
            quote.free
        } else {
            quote.priced
        };
        let cost = model.plus(
            model.plus(base, model.bits(COPY_EXTRA[copy_code])),
            model.command_cost(command),
        );
        if model.below(cost, nodes[pos + len].cost) {
            let ghost before = nodes@;
            record(nodes, pos, entry.pos, len, length_code, distance, short_code, cost);
            proof {
                assert(stretch.reproduces(pos as int, len as int, distance as int));
                lemma_arrival(stretch, before, queue, pos as int, nodes@[pos + len]);
                assert forall|j: int| 0 <= j <= pos implies #[trigger] path::same_command(
                    before[j],
                    nodes@[j],
                ) by {}
                stretch.lemma_cache_frame(before, nodes@, entry.pos as int);
            }
            if len > reported {
                reported = len;
            }
        }
        len += 1;
    }
    reported
}

/// The nodes once the copies reachable through the distances cached at a start were
/// offered, from a short code on: each only at lengths the ones before did not reach.
pub open spec fn cached_tried<C: CostModel>(
    stretch: &Stretch,
    model: &C,
    pos: int,
    entry: PosData<C::Price>,
    insert_code: usize,
    base_cost: C::Price,
    j: int,
    best_len: int,
    nodes: Seq<ZopfliNode<C::Price>>,
    reported: int,
) -> (Seq<ZopfliNode<C::Price>>, int)
    decreases 16 - j,
{
    if j >= 16 || best_len >= stretch.num_bytes - pos || stretch.here(pos) + best_len
        > stretch.mask {
        (nodes, reported)
    } else {
        let distance = backward_references::decoded_distance(j, entry.distance_cache@);
        let len = if distance <= 0 {
            0
        } else {
            cached_len(stretch, pos, distance, best_len)
        };
        if len > best_len {
            let quote = Quote {
                free: base_cost,
                priced: model.plus_of(base_cost, model.distance_of(j)),
                insert_code,
            };
            let (after, longest) = offered(
                model,
                pos,
                entry.pos as int,
                quote,
                distance,
                j + 1,
                None,
                best_len + 1,
                len,
                nodes,
                reported,
            );
            cached_tried(
                stretch,
                model,
                pos,
                entry,
                insert_code,
                base_cost,
                j + 1,
                len,
                after,
                longest,
            )
        } else {
            cached_tried(
                stretch,
                model,
                pos,
                entry,
                insert_code,
                base_cost,
                j + 1,
                best_len,
                nodes,
                reported,
            )
        }
    }
}

/// Offers the copies reachable through the distances cached at a start.
fn try_cached<C: CostModel>(
    stretch: &Stretch,
    backend: Backend,
    model: &C,
    pos: usize,
    entry: &PosData<C::Price>,
    insert_code: usize,
    base_cost: C::Price,
    min_len: usize,
    result: usize,
    nodes: &mut Vec<ZopfliNode<C::Price>>,
    Ghost(queue): Ghost<Seq<PosData<C::Price>>>,
) -> (reported: usize)
    requires
        stretch.wf(),
        progress(stretch, old(nodes)@, queue, pos + 1),
        start_ok(stretch, old(nodes)@, *entry, pos + 1),
        2 <= min_len,
        min_len <= MAX_MATCH + 1,
        pos <= stretch.num_bytes,
        insert_code < 24,
        result <= stretch.num_bytes - pos,
    ensures
        progress(stretch, final(nodes)@, queue, pos + 1),
        start_ok(stretch, final(nodes)@, *entry, pos + 1),
        kept_to(old(nodes)@, final(nodes)@, pos as int),
        reported <= stretch.num_bytes - pos,
        longest_ok(result as int, reported as int, final(nodes)@, pos as int),
        (final(nodes)@, reported as int) == cached_tried(
            stretch,
            model,
            pos as int,
            *entry,
            insert_code,
            base_cost,
            0,
            min_len - 1,
            old(nodes)@,
            result as int,
        ),
        forall|j: int|
            0 <= j < old(nodes)@.len() && old(nodes)@[j].reached() ==> (#[trigger] final(nodes)@[j]).reached(),
{
    let ghost first = nodes@;
    let max_len: usize = stretch.num_bytes - pos;
    let mut reported: usize = result;
    let mut best_len: usize = min_len - 1;
    let mut j: usize = 0;
    let ghost whole = cached_tried(
        stretch,
        model,
        pos as int,
        *entry,
        insert_code,
        base_cost,
        0,
        min_len - 1,
        first,
        result as int,
    );
    proof {
        stretch.lemma_cache_ok(first, entry.pos as int, pos + 1);
    }
    while j < NUM_DISTANCE_SHORT_CODES && best_len < max_len
        invariant_except_break
            cached_tried(
                stretch,
                model,
                pos as int,
                *entry,
                insert_code,
                base_cost,
                j as int,
                best_len as int,
                nodes@,
                reported as int,
            ) == whole,
        invariant
            stretch.wf(),
            progress(stretch, nodes@, queue, pos + 1),
            start_ok(stretch, nodes@, *entry, pos + 1),
            kept_to(first, nodes@, pos as int),
            path::distances_ok(entry.distance_cache@),
            j <= NUM_DISTANCE_SHORT_CODES,
            1 <= best_len,
            pos <= stretch.num_bytes,
            max_len == stretch.num_bytes - pos,
            insert_code < 24,
            result <= stretch.num_bytes - pos,
            reported <= stretch.num_bytes - pos,
            longest_ok(result as int, reported as int, nodes@, pos as int),
            forall|i: int|
                0 <= i < first.len() && first[i].reached() ==> (#[trigger] nodes@[i]).reached(),
        ensures
            (nodes@, reported as int) == whole,
            progress(stretch, nodes@, queue, pos + 1),
            start_ok(stretch, nodes@, *entry, pos + 1),
            kept_to(first, nodes@, pos as int),
            reported <= stretch.num_bytes - pos,
            longest_ok(result as int, reported as int, nodes@, pos as int),
            forall|i: int|
                0 <= i < first.len() && first[i].reached() ==> (#[trigger] nodes@[i]).reached(),
        decreases NUM_DISTANCE_SHORT_CODES - j,
    {
        let here: usize = (stretch.block_start + pos) & stretch.mask;
        if best_len > stretch.mask || here > stretch.mask - best_len {
            break;
        }
        let backward: i64 = entry.distance_cache[DISTANCE_CACHE_INDEX[j]] as i64
            + DISTANCE_CACHE_OFFSET[j];
        let short: usize = j;
        j += 1;
        assert(backward == backward_references::decoded_distance(
            short as int,
            entry.distance_cache@,
        )) by {
            lemma_short_code(short as int, entry.distance_cache@);
        }
        if backward <= 0 {
            continue;
        }
        let distance: usize = backward as usize;
        let len: usize = cached_length(stretch, backend, pos, distance, best_len);
        if len > best_len {
            let quote = Quote {
                free: base_cost,
                priced: model.plus(base_cost, model.distance_cost(short)),
                insert_code,
            };
            let ghost before = nodes@;
            let ghost held = reported as int;
            proof {
                assert forall|l: int| best_len + 1 <= l <= len implies #[trigger] stretch.reproduces(
                    pos as int,
                    l,
                    distance as int,
                ) by {
                    stretch.lemma_shorter_copy(pos as int, len as int, l, distance as int);
                }
            }
            reported = offer_lengths(
                stretch,
                model,
                pos,
                entry,
                &quote,
                best_len + 1,
                len,
                distance,
                short + 1,
                None,
                reported,
                nodes,
                Ghost(queue),
            );
            best_len = len;
        }
    }
    reported
}

/// The distance of a short code is the cached one it starts from, moved.
proof fn lemma_short_code(short: int, cache: Seq<i32>)
    requires
        0 <= short < 16,
    ensures
        backward_references::decoded_distance(short, cache) == cache[DISTANCE_CACHE_INDEX@[short] as int]
            + DISTANCE_CACHE_OFFSET@[short],
{
}

/// How many leading bytes two strings share, at most `limit`.
pub open spec fn shared_len(left: Seq<u8>, right: Seq<u8>, limit: int) -> int {
    let shorter = if left.len() < right.len() {
        left.len() as int
    } else {
        right.len() as int
    };
    let whole = if limit < shorter {
        limit
    } else {
        shorter
    };
    choose|k: int| match_len::is_match_length(left, right, whole, k)
}

/// Where an attached byte lies.
pub open spec fn place_of(attached: Seq<Vec<u8>>, logical: int) -> (int, int) {
    choose|place: (int, int)| candidates::lies_in(attached, logical, place.0, place.1)
}

/// An attached byte lies in one place.
proof fn lemma_place(attached: Seq<Vec<u8>>, logical: int, k: int, offset: int)
    requires
        candidates::lies_in(attached, logical, k, offset),
    ensures
        place_of(attached, logical) == (k, offset),
{
    let place = place_of(attached, logical);
    assert(candidates::lies_in(attached, logical, (k, offset).0, (k, offset).1));
    assert(candidates::lies_in(attached, logical, place.0, place.1));
    if place.0 < k {
        candidates::lemma_before_grows(attached, place.0 + 1, k);
    }
    if k < place.0 {
        candidates::lemma_before_grows(attached, k + 1, place.0);
    }
}

/// How long a copy at a distance is, or zero where it is not longer than `best_len`,
/// reaches bytes that are not held, or would name a word.
pub open spec fn cached_len(stretch: &Stretch, at: int, distance: int, best_len: int) -> int {
    let data = stretch.data@;
    let here = stretch.here(at);
    let max_len = stretch.num_bytes - at;
    if here + best_len >= data.len() {
        0
    } else if distance <= stretch.reach(at) {
        let back = stretch.back(at, distance);
        if back + best_len > stretch.mask || back + best_len >= data.len() || data[here + best_len]
            != data[back + best_len] {
            0
        } else {
            search::agreement(data, back, here, max_len)
        }
    } else if distance <= stretch.reach(at) + stretch.gap {
        let (k, offset) = place_of(
            stretch.attached@,
            stretch.reach(at) + stretch.gap - distance,
        );
        let source = stretch.attached@[k]@.skip(offset);
        let limit = if source.len() < max_len {
            source.len() as int
        } else {
            max_len
        };
        if best_len >= limit || source[best_len] != data[here + best_len] {
            0
        } else {
            shared_len(source, data.skip(here), limit)
        }
    } else {
        0
    }
}

/// Returns how long a copy at `distance` is, or zero where it is not longer than
/// `best_len`, reaches bytes that are not held, or would name a word.
fn cached_length(
    stretch: &Stretch,
    backend: Backend,
    pos: usize,
    distance: usize,
    best_len: usize,
) -> (len: usize)
    requires
        stretch.wf(),
        pos <= stretch.num_bytes,
        1 <= distance,
        1 <= best_len < stretch.num_bytes - pos,
        stretch.here(pos as int) + best_len <= stretch.mask,
    ensures
        len <= stretch.num_bytes - pos,
        len == cached_len(stretch, pos as int, distance as int, best_len as int),
        len > best_len ==> stretch.reproduces(pos as int, len as int, distance as int) && distance
            <= stretch.reach(pos as int) + stretch.gap,
{
    let position: usize = stretch.block_start + pos;
    let reach: usize = if position < stretch.limit {
        position
    } else {
        stretch.limit
    };
    let here: usize = position & stretch.mask;
    let max_len: usize = stretch.num_bytes - pos;
    if best_len >= stretch.data.len() || here >= stretch.data.len() - best_len {
        return 0;
    }
    let continuation: u8 = stretch.data[here + best_len];
    if distance <= reach {
        let back: usize = (position - distance) & stretch.mask;
        if best_len > stretch.mask || back > stretch.mask - best_len || back >= stretch.data.len()
            - best_len || continuation
            != stretch.data[back + best_len] {
            return 0;
        }
        measure(backend, stretch.data, back, here, max_len)
    } else if distance <= reach + stretch.gap {
        let logical: usize = reach + stretch.gap - distance;
        match locate(stretch.attached, logical) {
            None => 0,
            Some((segment, offset)) => {
                proof {
                    lemma_place(
                        stretch.attached@,
                        logical as int,
                        segment as int,
                        offset as int,
                    );
                }
                let source = stretch.attached[segment].as_slice();
                let candidate = &source[offset..source.len()];
                let target = &stretch.data[here..stretch.data.len()];
                let limit: usize = if candidate.len() < max_len {
                    candidate.len()
                } else {
                    max_len
                };
                if best_len >= limit || candidate[best_len] != continuation {
                    return 0;
                }
                assert(candidate@ =~= stretch.attached@[segment as int]@.skip(offset as int));
                assert(target@ =~= stretch.data@.skip(here as int));
                let len: usize = prefix_match_length(candidate, target, limit);
                proof {
                    let shorter = if candidate@.len() < target@.len() {
                        candidate@.len() as int
                    } else {
                        target@.len() as int
                    };
                    let whole = if limit < shorter {
                        limit as int
                    } else {
                        shorter
                    };
                    match_len::lemma_match_length_unique(
                        candidate@,
                        target@,
                        whole,
                        shared_len(candidate@, target@, limit as int),
                        len as int,
                    );
                    if len > 0 {
                        assert(stretch.held_in(
                            segment as int,
                            pos as int,
                            len as int,
                            distance as int,
                        ));
                    }
                }
                len
            },
        }
    } else {
        0
    }
}

/// The nodes once the copies that were found at a position were offered, from one
/// of them on: each only at lengths the ones before did not reach.
pub open spec fn found_tried<C: CostModel>(
    stretch: &Stretch,
    model: &C,
    effort: Effort,
    distances: DistanceParams,
    pos: int,
    entry: PosData<C::Price>,
    insert_code: usize,
    base_cost: C::Price,
    found: Seq<BackwardMatch>,
    i: int,
    len: int,
    nodes: Seq<ZopfliNode<C::Price>>,
    reported: int,
) -> (Seq<ZopfliNode<C::Price>>, int)
    decreases found.len() - i,
{
    if i < 0 || i >= found.len() {
        (nodes, reported)
    } else {
        let copy = found[i];
        let word = copy.distance > stretch.reach(pos) + stretch.gap;
        let symbol = command::spelled(
            copy.distance + 15,
            distances.num_direct as int,
            distances.postfix_bits as int,
        );
        let quote = Quote {
            free: base_cost,
            priced: model.plus_of(
                model.plus_of(base_cost, model.bits_of(symbol.num_extra)),
                model.distance_of(symbol.symbol as int),
            ),
            insert_code,
        };
        let from = if len < copy.length && (word || copy.length > effort.max_zopfli_len) {
            copy.length as int
        } else {
            len
        };
        if from <= copy.length {
            let (after, longest) = offered(
                model,
                pos,
                entry.pos as int,
                quote,
                copy.distance as int,
                0,
                if word {
                    Some(copy.length_code)
                } else {
                    None
                },
                from,
                copy.length as int,
                nodes,
                reported,
            );
            found_tried(
                stretch,
                model,
                effort,
                distances,
                pos,
                entry,
                insert_code,
                base_cost,
                found,
                i + 1,
                copy.length + 1,
                after,
                longest,
            )
        } else {
            found_tried(
                stretch,
                model,
                effort,
                distances,
                pos,
                entry,
                insert_code,
                base_cost,
                found,
                i + 1,
                from,
                nodes,
                reported,
            )
        }
    }
}

/// Offers the copies that were found at a position.
///
/// A dictionary word has only one meaningful length, and of a very long copy no
/// shorter prefix is examined.
fn try_found<C: CostModel>(
    stretch: &Stretch,
    model: &C,
    effort: &Effort,
    distances: &DistanceParams,
    pos: usize,
    entry: &PosData<C::Price>,
    insert_code: usize,
    base_cost: C::Price,
    min_len: usize,
    found: &[BackwardMatch],
    result: usize,
    nodes: &mut Vec<ZopfliNode<C::Price>>,
    Ghost(queue): Ghost<Seq<PosData<C::Price>>>,
) -> (reported: usize)
    requires
        stretch.wf(),
        distances.num_direct <= 120,
        distances.postfix_bits <= 3,
        progress(stretch, old(nodes)@, queue, pos + 1),
        start_ok(stretch, old(nodes)@, *entry, pos + 1),
        2 <= min_len <= MAX_MATCH + 1,
        pos <= stretch.num_bytes,
        insert_code < 24,
        result <= stretch.num_bytes - pos,
        forall|i: int|
            0 <= i < found@.len() ==> stretch.genuine(pos as int, #[trigger] found@[i]),
    ensures
        progress(stretch, final(nodes)@, queue, pos + 1),
        start_ok(stretch, final(nodes)@, *entry, pos + 1),
        kept_to(old(nodes)@, final(nodes)@, pos as int),
        reported <= stretch.num_bytes - pos,
        longest_ok(result as int, reported as int, final(nodes)@, pos as int),
        (final(nodes)@, reported as int) == found_tried(
            stretch,
            model,
            *effort,
            *distances,
            pos as int,
            *entry,
            insert_code,
            base_cost,
            found@,
            0,
            min_len as int,
            old(nodes)@,
            result as int,
        ),
        forall|j: int|
            0 <= j < old(nodes)@.len() && old(nodes)@[j].reached() ==> (#[trigger] final(nodes)@[j]).reached(),
{
    let ghost first = nodes@;
    let position: usize = stretch.block_start + pos;
    let reach: usize = if position < stretch.limit {
        position
    } else {
        stretch.limit
    };
    let mut reported: usize = result;
    let mut len: usize = min_len;
    let mut i: usize = 0;
    let ghost whole = found_tried(
        stretch,
        model,
        *effort,
        *distances,
        pos as int,
        *entry,
        insert_code,
        base_cost,
        found@,
        0,
        min_len as int,
        first,
        result as int,
    );
    while i < found.len()
        invariant
            found_tried(
                stretch,
                model,
                *effort,
                *distances,
                pos as int,
                *entry,
                insert_code,
                base_cost,
                found@,
                i as int,
                len as int,
                nodes@,
                reported as int,
            ) == whole,
            stretch.wf(),
            distances.num_direct <= 120,
            distances.postfix_bits <= 3,
            progress(stretch, nodes@, queue, pos + 1),
            start_ok(stretch, nodes@, *entry, pos + 1),
            kept_to(first, nodes@, pos as int),
            i <= found@.len(),
            2 <= len <= MAX_MATCH + 1,
            pos <= stretch.num_bytes,
            reach == stretch.reach(pos as int),
            insert_code < 24,
            result <= stretch.num_bytes - pos,
            reported <= stretch.num_bytes - pos,
            longest_ok(result as int, reported as int, nodes@, pos as int),
            forall|k: int|
                0 <= k < found@.len() ==> stretch.genuine(pos as int, #[trigger] found@[k]),
            forall|j: int|
                0 <= j < first.len() && first[j].reached() ==> (#[trigger] nodes@[j]).reached(),
        decreases found@.len() - i,
    {
        let offered: BackwardMatch = found[i];
        assert(stretch.genuine(pos as int, offered));
        let word: bool = offered.distance > reach + stretch.gap;
        let code: usize = offered.distance + NUM_DISTANCE_SHORT_CODES - 1;
        let symbol = prefix_encode_copy_distance(
            code,
            distances.num_direct as usize,
            distances.postfix_bits as usize,
        );
        let priced = model.plus(
            model.plus(base_cost, model.bits(symbol.num_extra)),
            model.distance_cost(symbol.symbol),
        );
        let quote = Quote { free: base_cost, priced, insert_code };
        let length: usize = offered.length;
        if len < length && (word || length > effort.max_zopfli_len) {
            len = length;
        }
        if len <= length {
            proof {
                assert forall|l: int| len <= l <= length implies #[trigger] stretch.reproduces(
                    pos as int,
                    l,
                    offered.distance as int,
                ) by {
                    if !word {
                        stretch.lemma_shorter_copy(
                            pos as int,
                            length as int,
                            l,
                            offered.distance as int,
                        );
                    }
                }
            }
            reported = offer_lengths(
                stretch,
                model,
                pos,
                entry,
                &quote,
                len,
                length,
                offered.distance,
                0,
                if word {
                    Some(offered.length_code)
                } else {
                    None
                },
                reported,
                nodes,
                Ghost(queue),
            );
            len = length + 1;
        }
        i += 1;
    }
    reported
}

/// What a start costs before its copy: the way there, and the insert code.
pub open spec fn base_of<C: CostModel>(model: &C, pos: int, entry: PosData<C::Price>) -> C::Price {
    model.plus_of(
        model.plus_of(
            entry.costdiff,
            model.bits_of(INS_EXTRA@[command::insert_code(pos - entry.pos)]),
        ),
        model.literals_of(0, pos),
    )
}

/// The nodes once starts were expanded, from the `k`th on: each through its cached
/// distances, the first two through the copies that were found as well.
pub open spec fn expanded<C: CostModel>(
    stretch: &Stretch,
    model: &C,
    effort: Effort,
    distances: DistanceParams,
    pos: int,
    found: Seq<BackwardMatch>,
    queue: Seq<PosData<C::Price>>,
    min_len: int,
    k: int,
    starts: int,
    nodes: Seq<ZopfliNode<C::Price>>,
    longest: int,
) -> (Seq<ZopfliNode<C::Price>>, int)
    decreases starts - k,
{
    if k >= starts {
        (nodes, longest)
    } else {
        let entry = queue[k];
        let insert_code = command::insert_code(pos - entry.pos) as usize;
        let base_cost = base_of(model, pos, entry);
        let (cached, so_far) = cached_tried(
            stretch,
            model,
            pos,
            entry,
            insert_code,
            base_cost,
            0,
            min_len - 1,
            nodes,
            longest,
        );
        let (after, reported) = if k < 2 {
            found_tried(
                stretch,
                model,
                effort,
                distances,
                pos,
                entry,
                insert_code,
                base_cost,
                found,
                0,
                min_len,
                cached,
                so_far,
            )
        } else {
            (cached, so_far)
        };
        expanded(
            stretch,
            model,
            effort,
            distances,
            pos,
            found,
            queue,
            min_len,
            k + 1,
            starts,
            after,
            reported,
        )
    }
}

/// The search once the commands that could start at a position were priced, and the
/// longest copy that was worth recording.
pub open spec fn updated<C: CostModel>(
    stretch: &Stretch,
    model: &C,
    effort: Effort,
    distances: DistanceParams,
    pos: int,
    found: Seq<BackwardMatch>,
    search: Search<C::Price>,
) -> (Search<C::Price>, int) {
    let ready = evaluated(stretch, model, pos, search);
    if ready.queue.len() == 0 {
        (ready, 0)
    } else {
        let lead = ready.queue[0];
        let min_cost = model.plus_of(
            model.plus_of(lead.cost, model.least_of()),
            model.literals_of(lead.pos as int, pos),
        );
        let min_len = least_len(
            model,
            ready.nodes,
            stretch.num_bytes as int,
            pos,
            min_cost,
            2,
            4,
            10,
        );
        let starts = if effort.max_zopfli_candidates < ready.queue.len() {
            effort.max_zopfli_candidates as int
        } else {
            ready.queue.len() as int
        };
        let (nodes, longest) = expanded(
            stretch,
            model,
            effort,
            distances,
            pos,
            found,
            ready.queue,
            min_len,
            0,
            starts,
            ready.nodes,
            0,
        );
        (Search { nodes, queue: ready.queue }, longest)
    }
}

/// Prices every command that could start at `pos`, returning the longest copy
/// that was worth recording.
///
/// First come the copies reachable through the distance cache, from each of the
/// queued starts in turn, then the matches that were found, but only from the
/// two cheapest starts: a further start with the same distances rarely pays.
/// Whatever commands cost, every command recorded is a real one: it copies bytes
/// that are there, from a start some path reaches.
pub fn update_nodes<C: CostModel>(
    stretch: &Stretch,
    backend: Backend,
    model: &C,
    effort: &Effort,
    distances: &DistanceParams,
    pos: usize,
    found: &[BackwardMatch],
    queue: &mut StartPosQueue<C::Price>,
    nodes: &mut Vec<ZopfliNode<C::Price>>,
) -> (longest: usize)
    requires
        stretch.wf(),
        distances.num_direct <= 120,
        distances.postfix_bits <= 3,
        progress(stretch, old(nodes)@, old(queue).entries@, pos as int),
        pos <= stretch.num_bytes,
        forall|i: int|
            0 <= i < found@.len() ==> stretch.genuine(pos as int, #[trigger] found@[i]),
    ensures
        progress(stretch, final(nodes)@, final(queue).entries@, pos + 1),
        ((Search { nodes: final(nodes)@, queue: final(queue).entries@ }), longest as int)
            == updated(
            stretch,
            model,
            *effort,
            *distances,
            pos as int,
            found@,
            (Search { nodes: old(nodes)@, queue: old(queue).entries@ }),
        ),
        final(nodes)@.len() == old(nodes)@.len(),
        forall|j: int| 0 <= j < pos ==> (#[trigger] final(nodes)@[j]) == old(nodes)@[j],
        final(nodes)@[pos as int] == (ZopfliNode {
            shortcut: stretch.shortcut_of(old(nodes)@, pos as int) as usize,
            ..old(nodes)@[pos as int]
        }),
        longest <= stretch.num_bytes - pos,
        longest_ok(0, longest as int, final(nodes)@, pos as int),
        forall|j: int|
            0 <= j < old(nodes)@.len() && old(nodes)@[j].reached() ==> (#[trigger] final(nodes)@[j]).reached(),
{
    evaluate_node(stretch, model, pos, queue, nodes);
    if queue.entries.len() == 0 {
        return 0;
    }
    let ghost first = nodes@;
    let lead = queue.entries[0];
    assert(start_ok(stretch, nodes@, queue.entries@[0], pos + 1));
    let min_cost = model.plus(
        model.plus(lead.cost, model.min_cost_cmd()),
        model.literal_costs(lead.pos, pos),
    );
    let min_len: usize = compute_minimum_copy_length(
        model,
        min_cost,
        nodes,
        stretch.num_bytes,
        pos,
    );
    let starts: usize = if effort.max_zopfli_candidates < queue.entries.len() {
        effort.max_zopfli_candidates
    } else {
        queue.entries.len()
    };
    let mut longest: usize = 0;
    let mut k: usize = 0;
    let ghost whole = expanded(
        stretch,
        model,
        *effort,
        *distances,
        pos as int,
        found@,
        queue.entries@,
        min_len as int,
        0,
        starts as int,
        first,
        0,
    );
    while k < starts
        invariant
            expanded(
                stretch,
                model,
                *effort,
                *distances,
                pos as int,
                found@,
                queue.entries@,
                min_len as int,
                k as int,
                starts as int,
                nodes@,
                longest as int,
            ) == whole,
            stretch.wf(),
            distances.num_direct <= 120,
            distances.postfix_bits <= 3,
            progress(stretch, nodes@, queue.entries@, pos + 1),
            starts <= queue.entries@.len(),
            k <= starts,
            pos <= stretch.num_bytes,
            2 <= min_len <= MAX_MATCH + 1,
            kept_to(first, nodes@, pos as int),
            longest <= stretch.num_bytes - pos,
            longest_ok(0, longest as int, nodes@, pos as int),
            forall|i: int|
                0 <= i < found@.len() ==> stretch.genuine(pos as int, #[trigger] found@[i]),
            forall|j: int|
                0 <= j < first.len() && first[j].reached() ==> (#[trigger] nodes@[j]).reached(),
        decreases starts - k,
    {
        let entry = queue.entries[k];
        assert(start_ok(stretch, nodes@, queue.entries@[k as int], pos + 1));
        let insert_code: usize = insert_length_code(pos - entry.pos);
        let base_cost = model.plus(
            model.plus(entry.costdiff, model.bits(INS_EXTRA[insert_code])),
            model.literal_costs(0, pos),
        );
        longest = try_cached(
            stretch,
            backend,
            model,
            pos,
            &entry,
            insert_code,
            base_cost,
            min_len,
            longest,
            nodes,
            Ghost(queue.entries@),
        );
        // Beyond the second start only new cached distances help, and those have
        // just been tried.
        if k < 2 {
            longest = try_found(
                stretch,
                model,
                effort,
                distances,
                pos,
                &entry,
                insert_code,
                base_cost,
                min_len,
                found,
                longest,
                nodes,
                Ghost(queue.entries@),
            );
        }
        k += 1;
    }
    longest
}

} // verus!
