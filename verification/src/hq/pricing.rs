//! What the search's prices stand for: every node costs what the commands on the way to it
//! cost, and no command that was offered would have cost less.
use vstd::arithmetic::power2;
use vstd::prelude::*;

use crate::greedy::backward_references;
use crate::greedy::search;
use crate::greedy::search::MAX_MATCH;
use crate::greedy::tables::{COPY_BASE, COPY_EXTRA, INS_BASE, INS_EXTRA};
use crate::hq::candidates::BackwardMatch;
use crate::hq::nodes;
use crate::hq::nodes::{CostModel, PosData, ZopfliNode};
use crate::hq::params::HqParams;
use crate::hq::path;
use crate::hq::path::Stretch;
use crate::hq::update;
use crate::hq::update::{Effort, Quote, Search};
use crate::hq::zopfli;
use crate::shared::command;
use crate::shared::distance::DistanceParams;
use crate::shared::fast_log;
use crate::shared::match_len;

verus! {

/// The code of a command: it has a say in how a distance is written, since the last
/// distance needs none beside a short insert and a short copy.
pub open spec fn code_of(insert: int, length_code: int, short_code: int) -> int {
    command::combined(
        command::insert_code(insert),
        command::copy_code(length_code),
        short_code == 1,
    )
}

/// A price with that of a distance on top: a short code is a symbol without extra bits,
/// any other distance a symbol and the extra bits it asks for.
pub open spec fn with_distance<C: CostModel>(
    model: &C,
    distances: DistanceParams,
    distance: int,
    short_code: int,
    price: C::Price,
) -> C::Price {
    if short_code > 0 {
        model.plus_of(price, model.distance_of(short_code - 1))
    } else {
        let symbol = command::spelled(
            distance + 15,
            distances.num_direct as int,
            distances.postfix_bits as int,
        );
        model.plus_of(
            model.plus_of(price, model.bits_of(symbol.num_extra)),
            model.distance_of(symbol.symbol as int),
        )
    }
}

/// What it costs to get to the end of a command that starts where `way` has been paid and
/// whose literals end at `at`: the way, the insert length's extra bits, the literals, the
/// distance with a code of 128 or more and only then, the copy length's extra bits, and
/// the code.
pub open spec fn arrival_price<C: CostModel>(
    model: &C,
    distances: DistanceParams,
    at: int,
    insert: int,
    length_code: int,
    distance: int,
    short_code: int,
    way: C::Price,
) -> C::Price {
    let code = code_of(insert, length_code, short_code);
    let started = model.minus_of(way, model.literals_of(0, at - insert));
    let inserted = model.plus_of(
        model.plus_of(started, model.bits_of(INS_EXTRA@[command::insert_code(insert)])),
        model.literals_of(0, at),
    );
    let addressed = if code >= 128 {
        with_distance(model, distances, distance, short_code, inserted)
    } else {
        inserted
    };
    model.plus_of(
        model.plus_of(addressed, model.bits_of(COPY_EXTRA@[command::copy_code(length_code)])),
        model.command_of(code),
    )
}

/// A node costs what its command costs on top of the way to its start.
pub open spec fn is_priced<C: CostModel>(
    model: &C,
    distances: DistanceParams,
    nodes: Seq<ZopfliNode<C::Price>>,
    i: int,
    done: int,
) -> bool {
    nodes[i].reached() ==> {
        &&& 0 <= path::start_of(nodes, i) < i
        &&& path::start_of(nodes, i) < done
        &&& nodes[i].cost == arrival_price(
            model,
            distances,
            i - nodes[i].copy_length,
            nodes[i].insert_length as int,
            nodes[i].length_code as int,
            nodes[i].distance as int,
            nodes[i].short_code as int,
            nodes[path::start_of(nodes, i)].cost,
        )
    }
}

/// All nodes cost what their commands cost; these start where all is decided.
pub open spec fn all_priced<C: CostModel>(
    model: &C,
    distances: DistanceParams,
    nodes: Seq<ZopfliNode<C::Price>>,
    done: int,
) -> bool {
    forall|i: int| 1 <= i < nodes.len() ==> #[trigger] is_priced(model, distances, nodes, i, done)
}

/// A start is known by what its node costs, and by how much less than literals that is.
pub open spec fn start_priced<C: CostModel>(
    model: &C,
    nodes: Seq<ZopfliNode<C::Price>>,
    entry: PosData<C::Price>,
    done: int,
) -> bool {
    &&& entry.pos < done
    &&& entry.pos < nodes.len()
    &&& entry.cost == nodes[entry.pos as int].cost
    &&& entry.costdiff == model.minus_of(
        nodes[entry.pos as int].cost,
        model.literals_of(0, entry.pos as int),
    )
}

/// All starts are known by what their nodes cost.
pub open spec fn starts_priced<C: CostModel>(
    model: &C,
    nodes: Seq<ZopfliNode<C::Price>>,
    queue: Seq<PosData<C::Price>>,
    done: int,
) -> bool {
    forall|k: int| 0 <= k < queue.len() ==> #[trigger] start_priced(model, nodes, queue[k], done)
}

/// Prices compare as numbers do: nothing is below itself, and what is below something is
/// below whatever that is below.
pub open spec fn is_ordered<C: CostModel>(model: &C) -> bool {
    &&& forall|a: C::Price| !#[trigger] model.below_of(a, a)
    &&& forall|a: C::Price, b: C::Price, c: C::Price|
        #![trigger model.below_of(a, b), model.below_of(b, c)]
        model.below_of(a, b) && model.below_of(b, c) ==> model.below_of(a, c)
}

/// No node got dearer, and those up to a position are as they were.
pub open spec fn not_raised<C: CostModel>(
    model: &C,
    before: Seq<ZopfliNode<C::Price>>,
    after: Seq<ZopfliNode<C::Price>>,
    pos: int,
) -> bool {
    &&& update::kept_to(before, after, pos)
    &&& forall|j: int|
        0 <= j < before.len() ==> (#[trigger] after[j]).cost == before[j].cost || model.below_of(
            after[j].cost,
            before[j].cost,
        )
}

/// What does not get dearer twice does not get dearer.
proof fn lemma_not_raised<C: CostModel>(
    model: &C,
    first: Seq<ZopfliNode<C::Price>>,
    second: Seq<ZopfliNode<C::Price>>,
    third: Seq<ZopfliNode<C::Price>>,
    pos: int,
)
    requires
        is_ordered(model),
        not_raised(model, first, second, pos),
        not_raised(model, second, third, pos),
    ensures
        not_raised(model, first, third, pos),
{
    assert forall|j: int| 0 <= j < first.len() implies (#[trigger] third[j]).cost == first[j].cost
        || model.below_of(third[j].cost, first[j].cost) by {
        assert(second[j].cost == first[j].cost || model.below_of(second[j].cost, first[j].cost));
    }
    assert forall|j: int| 0 <= j <= pos implies #[trigger] third[j] == first[j] by {
        assert(second[j] == first[j]);
    }
}

/// A price that is not below a node's cost stays so where nodes do not get dearer.
proof fn lemma_still_not_below<C: CostModel>(
    model: &C,
    before: Seq<ZopfliNode<C::Price>>,
    after: Seq<ZopfliNode<C::Price>>,
    pos: int,
    j: int,
    price: C::Price,
)
    requires
        is_ordered(model),
        not_raised(model, before, after, pos),
        0 <= j < before.len(),
        !model.below_of(price, before[j].cost),
    ensures
        !model.below_of(price, after[j].cost),
{
    assert(after[j].cost == before[j].cost || model.below_of(after[j].cost, before[j].cost));
    if model.below_of(price, after[j].cost) && model.below_of(after[j].cost, before[j].cost) {
        assert(model.below_of(price, before[j].cost));
    }
}

/// Every insert length has a code.
pub proof fn lemma_insert_coded(len: int)
    requires
        0 <= len,
    ensures
        0 <= command::insert_code(len) < 24,
        command::codes(INS_BASE@, len, command::insert_code(len)),
{
    let code = lemma_coded(INS_BASE@, len, 23);
    command::lemma_insert_code(len, code);
}

/// Every copy length has a code.
pub proof fn lemma_copy_coded(len: int)
    requires
        2 <= len,
    ensures
        0 <= command::copy_code(len) < 24,
        command::codes(COPY_BASE@, len, command::copy_code(len)),
{
    let code = lemma_coded(COPY_BASE@, len, 23);
    command::lemma_copy_code(len, code);
}

/// The last code whose range starts no later than a length.
proof fn lemma_coded(base: Seq<u32>, len: int, k: int) -> (code: int)
    requires
        0 <= k < 24,
        base[0] <= len,
        k < 23 ==> len < base[k + 1],
    ensures
        command::codes(base, len, code),
    decreases k,
{
    if base[k] <= len {
        k
    } else {
        lemma_coded(base, len, k - 1)
    }
}

/// A command carries no distance exactly if it repeats the last one, with an insert and a
/// copy that are short.
pub proof fn lemma_carries_no_distance(insert: int, length_code: int, short_code: int)
    requires
        0 <= insert,
        2 <= length_code,
    ensures
        code_of(insert, length_code, short_code) < 128 <==> short_code == 1
            && command::insert_code(insert) < 8 && command::copy_code(length_code) < 16,
{
    lemma_insert_coded(insert);
    lemma_copy_coded(length_code);
}

/// The costs a command is offered at before its copy length is chosen are those of what
/// it writes.
pub open spec fn quotes<C: CostModel>(
    model: &C,
    distances: DistanceParams,
    pos: int,
    entry: PosData<C::Price>,
    distance: int,
    short_code: int,
    quote: Quote<C::Price>,
) -> bool {
    &&& quote.insert_code == command::insert_code(pos - entry.pos)
    &&& quote.free == model.plus_of(
        model.plus_of(
            entry.costdiff,
            model.bits_of(INS_EXTRA@[command::insert_code(pos - entry.pos)]),
        ),
        model.literals_of(0, pos),
    )
    &&& quote.priced == with_distance(model, distances, distance, short_code, quote.free)
}

/// What a copy of some length is recorded under.
pub open spec fn coded_len(word_code: Option<usize>, len: int) -> int {
    match word_code {
        Some(code) => code as int,
        None => len,
    }
}

/// An offered copy costs what getting to its end costs.
proof fn lemma_offer_price<C: CostModel>(
    model: &C,
    distances: DistanceParams,
    nodes: Seq<ZopfliNode<C::Price>>,
    pos: int,
    entry: PosData<C::Price>,
    quote: Quote<C::Price>,
    length_code: int,
    distance: int,
    short_code: int,
    done: int,
)
    requires
        start_priced(model, nodes, entry, done),
        quotes(model, distances, pos, entry, distance, short_code, quote),
        entry.pos <= pos,
        2 <= length_code,
    ensures
        update::cost_of(model, quote, length_code, short_code) == arrival_price(
            model,
            distances,
            pos,
            pos - entry.pos,
            length_code,
            distance,
            short_code,
            nodes[entry.pos as int].cost,
        ),
{
}

/// Recording copies of one distance keeps every node at its price, and leaves none of the
/// nodes that were offered a copy above that copy's price.
proof fn lemma_offered<C: CostModel>(
    model: &C,
    distances: DistanceParams,
    pos: int,
    entry: PosData<C::Price>,
    quote: Quote<C::Price>,
    distance: int,
    short_code: int,
    word_code: Option<usize>,
    len: int,
    longest: int,
    nodes: Seq<ZopfliNode<C::Price>>,
    reported: int,
)
    requires
        all_priced(model, distances, nodes, pos + 1),
        start_priced(model, nodes, entry, pos + 1),
        quotes(model, distances, pos, entry, distance, short_code, quote),
        0 <= pos,
        2 <= len,
        len <= longest ==> pos + longest < nodes.len(),
        nodes.len() <= MAX_MATCH + 1,
        0 <= distance <= 0x7FFF_FFFF || short_code > 0,
        0 <= short_code <= 16,
        word_code matches Some(code) ==> 2 <= code,
    ensures
        ({
            let (after, _) = update::offered(
                model,
                pos,
                entry.pos as int,
                quote,
                distance,
                short_code,
                word_code,
                len,
                longest,
                nodes,
                reported,
            );
            &&& all_priced(model, distances, after, pos + 1)
            &&& update::kept_to(nodes, after, pos)
            &&& is_ordered(model) ==> not_raised(model, nodes, after, pos) && forall|l: int|
                len <= l <= longest ==> !model.below_of(
                    arrival_price(
                        model,
                        distances,
                        pos,
                        pos - entry.pos,
                        coded_len(word_code, l),
                        distance,
                        short_code,
                        nodes[entry.pos as int].cost,
                    ),
                    (#[trigger] after[pos + l]).cost,
                )
        }),
    decreases longest + 1 - len,
{
    if len <= longest {
        let length_code = coded_len(word_code, len);
        let cost = update::cost_of(model, quote, length_code, short_code);
        lemma_offer_price(
            model,
            distances,
            nodes,
            pos,
            entry,
            quote,
            length_code,
            distance,
            short_code,
            pos + 1,
        );
        let here = nodes[pos + len];
        let node = update::arrival(
            here,
            pos,
            entry.pos as int,
            len,
            length_code,
            distance,
            short_code,
            cost,
        );
        let cheaper = model.below_of(cost, here.cost);
        let next = if cheaper {
            nodes.update(pos + len, node)
        } else {
            nodes
        };
        if cheaper {
            assert forall|i: int| 1 <= i < next.len() implies #[trigger] is_priced(
                model,
                distances,
                next,
                i,
                pos + 1,
            ) by {
                assert(is_priced(model, distances, nodes, i, pos + 1));
                if i == pos + len {
                    assert(path::start_of(next, i) == entry.pos);
                } else if nodes[i].reached() {
                    assert(path::start_of(next, i) == path::start_of(nodes, i));
                }
            }
        }
        assert(start_priced(model, next, entry, pos + 1));
        let after = update::offered(
            model,
            pos,
            entry.pos as int,
            quote,
            distance,
            short_code,
            word_code,
            len + 1,
            longest,
            next,
            if cheaper && len > reported {
                len
            } else {
                reported
            },
        ).0;
        lemma_offered(
            model,
            distances,
            pos,
            entry,
            quote,
            distance,
            short_code,
            word_code,
            len + 1,
            longest,
            next,
            if cheaper && len > reported {
                len
            } else {
                reported
            },
        );
        assert forall|j: int| 0 <= j <= pos implies #[trigger] after[j] == nodes[j] by {
            assert(after[j] == next[j]);
        }
        if is_ordered(model) {
            assert(not_raised(model, nodes, next, pos));
            lemma_not_raised(model, nodes, next, after, pos);
            assert(!model.below_of(cost, next[pos + len].cost));
            lemma_still_not_below(model, next, after, pos, pos + len, cost);
            assert forall|l: int| len <= l <= longest implies !model.below_of(
                arrival_price(
                    model,
                    distances,
                    pos,
                    pos - entry.pos,
                    coded_len(word_code, l),
                    distance,
                    short_code,
                    nodes[entry.pos as int].cost,
                ),
                (#[trigger] after[pos + l]).cost,
            ) by {
                assert(next[entry.pos as int] == nodes[entry.pos as int]);
            }
        }
    } else if is_ordered(model) {
        assert(not_raised(model, nodes, nodes, pos));
    }
}

/// A copy of `n` bytes at a distance lies inside the window, and what it needs of the
/// buffer is there.
pub open spec fn window_copy(stretch: &Stretch, pos: int, distance: int, n: int) -> bool {
    let here = stretch.here(pos);
    let back = stretch.back(pos, distance);
    let most = stretch.num_bytes - pos;
    &&& 1 <= distance <= stretch.reach(pos)
    &&& 1 <= n <= most
    &&& here + most <= stretch.data@.len()
    &&& back + most <= stretch.data@.len()
    &&& here + n <= stretch.mask + 1
    &&& back + n <= stretch.mask + 1
    &&& match_len::agree(stretch.data@.skip(back), stretch.data@.skip(here), n)
}

/// How far a copy at a distance is measured to go: no farther than the bytes left, and as
/// far as it goes inside the window.
proof fn lemma_cached_len(stretch: &Stretch, pos: int, distance: int, best_len: int)
    requires
        stretch.wf(),
        0 <= pos <= stretch.num_bytes,
        1 <= distance,
        1 <= best_len,
    ensures
        ({
            let len = update::cached_len(stretch, pos, distance, best_len);
            &&& 0 <= len <= stretch.num_bytes - pos
            &&& forall|n: int| #[trigger]
                window_copy(stretch, pos, distance, n) && best_len < n ==> n <= len
        }),
{
    let data = stretch.data@;
    let here = stretch.here(pos);
    let back = stretch.back(pos, distance);
    let most = stretch.num_bytes - pos;
    search::lemma_agreement_is_longest(data, back, here, most);
    assert forall|n: int| #[trigger]
        window_copy(stretch, pos, distance, n) && best_len < n implies n <= update::cached_len(
        stretch,
        pos,
        distance,
        best_len,
    ) by {
        assert(data.skip(back)[best_len] == data.skip(here)[best_len]);
    }
    if stretch.reach(pos) < distance <= stretch.reach(pos) + stretch.gap {
        let (k, offset) = update::place_of(
            stretch.attached@,
            stretch.reach(pos) + stretch.gap - distance,
        );
        let source = stretch.attached@[k]@.skip(offset);
        let limit = if source.len() < most {
            source.len() as int
        } else {
            most
        };
        let right = data.skip(here);
        let shorter = if source.len() < right.len() {
            source.len() as int
        } else {
            right.len() as int
        };
        match_len::lemma_match_length_exists(
            source,
            right,
            if limit < shorter {
                limit
            } else {
                shorter
            },
        );
    }
}

/// What getting to the end of a copy from a start would cost.
pub open spec fn price_from<C: CostModel>(
    model: &C,
    distances: DistanceParams,
    nodes: Seq<ZopfliNode<C::Price>>,
    pos: int,
    start: int,
    length_code: int,
    distance: int,
    short_code: int,
) -> C::Price {
    arrival_price(
        model,
        distances,
        pos,
        pos - start,
        length_code,
        distance,
        short_code,
        nodes[start].cost,
    )
}

/// The node `n` bytes on costs no more than a copy to it through one of the cached
/// distances up to the `j`th.
pub open spec fn beats_cached<C: CostModel>(
    model: &C,
    distances: DistanceParams,
    nodes: Seq<ZopfliNode<C::Price>>,
    pos: int,
    entry: PosData<C::Price>,
    n: int,
    j: int,
) -> bool {
    exists|i: int|
        0 <= i <= j && !#[trigger] below_cached(model, distances, nodes, pos, entry, n, i)
}

/// A copy of `n` bytes through a cached distance would get to its end for less than the
/// node there costs.
pub open spec fn below_cached<C: CostModel>(
    model: &C,
    distances: DistanceParams,
    nodes: Seq<ZopfliNode<C::Price>>,
    pos: int,
    entry: PosData<C::Price>,
    n: int,
    i: int,
) -> bool {
    model.below_of(
        price_from(
            model,
            distances,
            nodes,
            pos,
            entry.pos as int,
            n,
            backward_references::decoded_distance(i, entry.distance_cache@),
            i + 1,
        ),
        nodes[pos + n].cost,
    )
}

/// What beats a copy still does where nodes do not get dearer.
proof fn lemma_still_beats<C: CostModel>(
    model: &C,
    distances: DistanceParams,
    before: Seq<ZopfliNode<C::Price>>,
    after: Seq<ZopfliNode<C::Price>>,
    pos: int,
    entry: PosData<C::Price>,
    n: int,
    j: int,
)
    requires
        is_ordered(model),
        not_raised(model, before, after, pos),
        entry.pos <= pos,
        0 <= pos + n < before.len(),
        beats_cached(model, distances, before, pos, entry, n, j),
    ensures
        beats_cached(model, distances, after, pos, entry, n, j),
{
    let i = choose|i: int|
        0 <= i <= j && !#[trigger] below_cached(model, distances, before, pos, entry, n, i);
    assert(after[entry.pos as int] == before[entry.pos as int]);
    lemma_still_not_below(
        model,
        before,
        after,
        pos,
        pos + n,
        price_from(
            model,
            distances,
            before,
            pos,
            entry.pos as int,
            n,
            backward_references::decoded_distance(i, entry.distance_cache@),
            i + 1,
        ),
    );
    assert(!below_cached(model, distances, after, pos, entry, n, i));
}

/// What a start costs up to its copy is right.
pub open spec fn base_right<C: CostModel>(
    model: &C,
    pos: int,
    entry: PosData<C::Price>,
    insert_code: usize,
    base_cost: C::Price,
) -> bool {
    &&& insert_code == command::insert_code(pos - entry.pos)
    &&& base_cost == model.plus_of(
        model.plus_of(
            entry.costdiff,
            model.bits_of(INS_EXTRA@[command::insert_code(pos - entry.pos)]),
        ),
        model.literals_of(0, pos),
    )
}

/// Trying the cached distances keeps every node at its price, and leaves no node above the
/// price of a copy that a cached distance makes inside the window.
proof fn lemma_cached_tried<C: CostModel>(
    stretch: &Stretch,
    model: &C,
    distances: DistanceParams,
    pos: int,
    entry: PosData<C::Price>,
    insert_code: usize,
    base_cost: C::Price,
    j: int,
    best_len: int,
    nodes: Seq<ZopfliNode<C::Price>>,
    reported: int,
)
    requires
        stretch.wf(),
        nodes.len() == stretch.num_bytes + 1,
        0 <= pos <= stretch.num_bytes,
        0 <= j,
        1 <= best_len,
        all_priced(model, distances, nodes, pos + 1),
        start_priced(model, nodes, entry, pos + 1),
        base_right(model, pos, entry, insert_code, base_cost),
    ensures
        ({
            let (after, _) = update::cached_tried(
                stretch,
                model,
                pos,
                entry,
                insert_code,
                base_cost,
                j,
                best_len,
                nodes,
                reported,
            );
            &&& all_priced(model, distances, after, pos + 1)
            &&& update::kept_to(nodes, after, pos)
            &&& is_ordered(model) ==> not_raised(model, nodes, after, pos) && forall|n: int, i: int|
                best_len < n && j <= i < 16 && #[trigger] window_copy(
                    stretch,
                    pos,
                    backward_references::decoded_distance(i, entry.distance_cache@) as int,
                    n,
                ) ==> beats_cached(model, distances, after, pos, entry, n, i)
        }),
    decreases 16 - j,
{
    if j >= 16 || best_len >= stretch.num_bytes - pos || stretch.here(pos) + best_len
        > stretch.mask {
        if is_ordered(model) {
            assert(not_raised(model, nodes, nodes, pos));
        }
    } else {
        let distance = backward_references::decoded_distance(j, entry.distance_cache@);
        let len = if distance <= 0 {
            0
        } else {
            update::cached_len(stretch, pos, distance, best_len)
        };
        if distance > 0 {
            lemma_cached_len(stretch, pos, distance, best_len);
        }
        let quote = Quote {
            free: base_cost,
            priced: model.plus_of(base_cost, model.distance_of(j)),
            insert_code,
        };
        let (next, longest, reach) = if len > best_len {
            let (after, longest) = update::offered(
                model,
                pos,
                entry.pos as int,
                quote,
                distance,
                j + 1,
                None,
                best_len + 1,
                len,
                nodes,
                reported,
            );
            (after, longest, len)
        } else {
            (nodes, reported, best_len)
        };
        if len > best_len {
            lemma_offered(
                model,
                distances,
                pos,
                entry,
                quote,
                distance,
                j + 1,
                None,
                best_len + 1,
                len,
                nodes,
                reported,
            );
        } else if is_ordered(model) {
            assert(not_raised(model, nodes, nodes, pos));
        }
        assert(start_priced(model, next, entry, pos + 1)) by {
            assert(next[entry.pos as int] == nodes[entry.pos as int]);
        }
        lemma_cached_tried(
            stretch,
            model,
            distances,
            pos,
            entry,
            insert_code,
            base_cost,
            j + 1,
            reach,
            next,
            longest,
        );
        let after = update::cached_tried(
            stretch,
            model,
            pos,
            entry,
            insert_code,
            base_cost,
            j + 1,
            reach,
            next,
            longest,
        ).0;
        assert forall|l: int| 0 <= l <= pos implies #[trigger] after[l] == nodes[l] by {
            assert(after[l] == next[l]);
        }
        if is_ordered(model) {
            lemma_not_raised(model, nodes, next, after, pos);
            assert forall|n: int, i: int|
                best_len < n && j <= i < 16 && #[trigger] window_copy(
                    stretch,
                    pos,
                    backward_references::decoded_distance(i, entry.distance_cache@) as int,
                    n,
                ) implies beats_cached(model, distances, after, pos, entry, n, i) by {
                if n <= reach {
                    assert(next[entry.pos as int] == nodes[entry.pos as int]);
                    assert(next[pos + n] == next[pos + n]);
                    assert(!below_cached(model, distances, next, pos, entry, n, j));
                    assert(beats_cached(model, distances, next, pos, entry, n, i));
                    lemma_still_beats(model, distances, next, after, pos, entry, n, i);
                } else {
                    assert(i > j);
                }
            }
        }
    }
}

/// A found copy names a word rather than bytes.
pub open spec fn names_word(stretch: &Stretch, pos: int, copy: BackwardMatch) -> bool {
    copy.distance > stretch.reach(pos) + stretch.gap
}

/// A found copy is tried at a length: the copies before it are all shorter, and it is as
/// long or may be cut, which a word and a very long copy may not.
pub open spec fn is_tried(
    stretch: &Stretch,
    effort: Effort,
    pos: int,
    found: Seq<BackwardMatch>,
    i: int,
    n: int,
) -> bool {
    &&& 0 <= i < found.len()
    &&& forall|m: int| 0 <= m < i ==> (#[trigger] found[m]).length < n
    &&& n <= found[i].length
    &&& n == found[i].length || !names_word(stretch, pos, found[i]) && found[i].length
        <= effort.max_zopfli_len
}

/// A found copy would get to its end, or that of its first `n` bytes, for less than the
/// node there costs.
pub open spec fn below_found<C: CostModel>(
    stretch: &Stretch,
    model: &C,
    distances: DistanceParams,
    nodes: Seq<ZopfliNode<C::Price>>,
    pos: int,
    start: int,
    copy: BackwardMatch,
    n: int,
) -> bool {
    model.below_of(
        price_from(
            model,
            distances,
            nodes,
            pos,
            start,
            if names_word(stretch, pos, copy) {
                copy.length_code as int
            } else {
                n
            },
            copy.distance as int,
            0,
        ),
        nodes[pos + n].cost,
    )
}

/// Trying the copies that were found keeps every node at its price, and leaves no node
/// above the price of a copy that was tried.
proof fn lemma_found_tried<C: CostModel>(
    stretch: &Stretch,
    model: &C,
    effort: Effort,
    distances: DistanceParams,
    pos: int,
    entry: PosData<C::Price>,
    insert_code: usize,
    base_cost: C::Price,
    found: Seq<BackwardMatch>,
    i: int,
    len: int,
    nodes: Seq<ZopfliNode<C::Price>>,
    reported: int,
)
    requires
        stretch.wf(),
        nodes.len() == stretch.num_bytes + 1,
        0 <= pos <= stretch.num_bytes,
        0 <= i,
        2 <= len,
        forall|m: int| 0 <= m < found.len() ==> stretch.genuine(pos, #[trigger] found[m]),
        all_priced(model, distances, nodes, pos + 1),
        start_priced(model, nodes, entry, pos + 1),
        base_right(model, pos, entry, insert_code, base_cost),
    ensures
        ({
            let (after, _) = update::found_tried(
                stretch,
                model,
                effort,
                distances,
                pos,
                entry,
                insert_code,
                base_cost,
                found,
                i,
                len,
                nodes,
                reported,
            );
            &&& all_priced(model, distances, after, pos + 1)
            &&& update::kept_to(nodes, after, pos)
            &&& is_ordered(model) ==> not_raised(model, nodes, after, pos) && forall|m: int, n: int|
                i <= m && len <= n && #[trigger] is_tried(stretch, effort, pos, found, m, n)
                    ==> !below_found(
                    stretch,
                    model,
                    distances,
                    after,
                    pos,
                    entry.pos as int,
                    found[m],
                    n,
                )
        }),
    decreases found.len() - i,
{
    if i >= found.len() {
        if is_ordered(model) {
            assert(not_raised(model, nodes, nodes, pos));
        }
    } else {
        let copy = found[i];
        assert(stretch.genuine(pos, copy));
        let word = names_word(stretch, pos, copy);
        let symbol = command::spelled(
            copy.distance + 15,
            distances.num_direct as int,
            distances.postfix_bits as int,
        );
        let quote = Quote {
            free: base_cost,
            priced: model.plus_of(
                model.plus_of(base_cost, model.bits_of(symbol.num_extra)),
                model.distance_of(symbol.symbol as int),
            ),
            insert_code,
        };
        let from = if len < copy.length && (word || copy.length > effort.max_zopfli_len) {
            copy.length as int
        } else {
            len
        };
        let word_code = if word {
            Some(copy.length_code)
        } else {
            None
        };
        let (next, longest, least) = if from <= copy.length {
            let (after, longest) = update::offered(
                model,
                pos,
                entry.pos as int,
                quote,
                copy.distance as int,
                0,
                word_code,
                from,
                copy.length as int,
                nodes,
                reported,
            );
            (after, longest, copy.length + 1)
        } else {
            (nodes, reported, from)
        };
        if from <= copy.length {
            lemma_offered(
                model,
                distances,
                pos,
                entry,
                quote,
                copy.distance as int,
                0,
                word_code,
                from,
                copy.length as int,
                nodes,
                reported,
            );
        } else if is_ordered(model) {
            assert(not_raised(model, nodes, nodes, pos));
        }
        assert(start_priced(model, next, entry, pos + 1)) by {
            assert(next[entry.pos as int] == nodes[entry.pos as int]);
        }
        lemma_found_tried(
            stretch,
            model,
            effort,
            distances,
            pos,
            entry,
            insert_code,
            base_cost,
            found,
            i + 1,
            least,
            next,
            longest,
        );
        let after = update::found_tried(
            stretch,
            model,
            effort,
            distances,
            pos,
            entry,
            insert_code,
            base_cost,
            found,
            i + 1,
            least,
            next,
            longest,
        ).0;
        assert forall|l: int| 0 <= l <= pos implies #[trigger] after[l] == nodes[l] by {
            assert(after[l] == next[l]);
        }
        if is_ordered(model) {
            lemma_not_raised(model, nodes, next, after, pos);
            assert forall|m: int, n: int|
                i <= m && len <= n && #[trigger] is_tried(
                    stretch,
                    effort,
                    pos,
                    found,
                    m,
                    n,
                ) implies !below_found(
                stretch,
                model,
                distances,
                after,
                pos,
                entry.pos as int,
                found[m],
                n,
            ) by {
                if m == i {
                    let price = price_from(
                        model,
                        distances,
                        nodes,
                        pos,
                        entry.pos as int,
                        coded_len(word_code, n),
                        copy.distance as int,
                        0,
                    );
                    assert(from <= n <= copy.length);
                    assert(!model.below_of(price, next[pos + n].cost));
                    lemma_still_not_below(model, next, after, pos, pos + n, price);
                    assert(after[entry.pos as int] == nodes[entry.pos as int]);
                } else {
                    assert(found[i].length < n);
                }
            }
        }
    }
}

/// What holds of a start once it was expanded.
pub open spec fn is_best_from<C: CostModel>(
    stretch: &Stretch,
    model: &C,
    effort: Effort,
    distances: DistanceParams,
    pos: int,
    found: Seq<BackwardMatch>,
    entry: PosData<C::Price>,
    min_len: int,
    with_found: bool,
    nodes: Seq<ZopfliNode<C::Price>>,
) -> bool {
    &&& forall|n: int, i: int|
        min_len <= n && 0 <= i < 16 && #[trigger] window_copy(
            stretch,
            pos,
            backward_references::decoded_distance(i, entry.distance_cache@) as int,
            n,
        ) ==> beats_cached(model, distances, nodes, pos, entry, n, i)
    &&& with_found ==> forall|m: int, n: int|
        min_len <= n && #[trigger] is_tried(stretch, effort, pos, found, m, n) ==> !below_found(
            stretch,
            model,
            distances,
            nodes,
            pos,
            entry.pos as int,
            found[m],
            n,
        )
}

/// What is best from a start stays so where nodes do not get dearer.
proof fn lemma_still_best<C: CostModel>(
    stretch: &Stretch,
    model: &C,
    effort: Effort,
    distances: DistanceParams,
    pos: int,
    found: Seq<BackwardMatch>,
    entry: PosData<C::Price>,
    min_len: int,
    with_found: bool,
    before: Seq<ZopfliNode<C::Price>>,
    after: Seq<ZopfliNode<C::Price>>,
)
    requires
        is_ordered(model),
        before.len() == stretch.num_bytes + 1,
        not_raised(model, before, after, pos),
        0 <= entry.pos <= pos,
        0 <= min_len,
        forall|m: int| 0 <= m < found.len() ==> stretch.genuine(pos, #[trigger] found[m]),
        is_best_from(
            stretch,
            model,
            effort,
            distances,
            pos,
            found,
            entry,
            min_len,
            with_found,
            before,
        ),
    ensures
        is_best_from(
            stretch,
            model,
            effort,
            distances,
            pos,
            found,
            entry,
            min_len,
            with_found,
            after,
        ),
{
    assert forall|n: int, i: int|
        min_len <= n && 0 <= i < 16 && #[trigger] window_copy(
            stretch,
            pos,
            backward_references::decoded_distance(i, entry.distance_cache@) as int,
            n,
        ) implies beats_cached(model, distances, after, pos, entry, n, i) by {
        lemma_still_beats(model, distances, before, after, pos, entry, n, i);
    }
    if with_found {
        assert forall|m: int, n: int|
            min_len <= n && #[trigger] is_tried(
                stretch,
                effort,
                pos,
                found,
                m,
                n,
            ) implies !below_found(
            stretch,
            model,
            distances,
            after,
            pos,
            entry.pos as int,
            found[m],
            n,
        ) by {
            assert(stretch.genuine(pos, found[m]));
            assert(after[entry.pos as int] == before[entry.pos as int]);
            lemma_still_not_below(
                model,
                before,
                after,
                pos,
                pos + n,
                price_from(
                    model,
                    distances,
                    before,
                    pos,
                    entry.pos as int,
                    if names_word(stretch, pos, found[m]) {
                        found[m].length_code as int
                    } else {
                        n
                    },
                    found[m].distance as int,
                    0,
                ),
            );
        }
    }
}

/// Expanding starts keeps every node at its price, and leaves no node above the price of
/// anything that was tried from any of them.
proof fn lemma_expanded<C: CostModel>(
    stretch: &Stretch,
    model: &C,
    effort: Effort,
    distances: DistanceParams,
    pos: int,
    found: Seq<BackwardMatch>,
    queue: Seq<PosData<C::Price>>,
    min_len: int,
    k: int,
    starts: int,
    nodes: Seq<ZopfliNode<C::Price>>,
    longest: int,
)
    requires
        stretch.wf(),
        nodes.len() == stretch.num_bytes + 1,
        0 <= pos <= stretch.num_bytes,
        0 <= k,
        starts <= queue.len(),
        2 <= min_len,
        forall|m: int| 0 <= m < found.len() ==> stretch.genuine(pos, #[trigger] found[m]),
        all_priced(model, distances, nodes, pos + 1),
        starts_priced(model, nodes, queue, pos + 1),
    ensures
        ({
            let (after, _) = update::expanded(
                stretch,
                model,
                effort,
                distances,
                pos,
                found,
                queue,
                min_len,
                k,
                starts,
                nodes,
                longest,
            );
            &&& all_priced(model, distances, after, pos + 1)
            &&& update::kept_to(nodes, after, pos)
            &&& is_ordered(model) ==> not_raised(model, nodes, after, pos) && forall|s: int|
                k <= s < starts ==> is_best_from(
                    stretch,
                    model,
                    effort,
                    distances,
                    pos,
                    found,
                    #[trigger] queue[s],
                    min_len,
                    s < 2,
                    after,
                )
        }),
    decreases starts - k,
{
    if k >= starts {
        if is_ordered(model) {
            assert(not_raised(model, nodes, nodes, pos));
        }
    } else {
        let entry = queue[k];
        assert(start_priced(model, nodes, entry, pos + 1));
        let insert_code = command::insert_code(pos - entry.pos) as usize;
        let base_cost = update::base_of(model, pos, entry);
        lemma_insert_coded(pos - entry.pos);
        let (cached, so_far) = update::cached_tried(
            stretch,
            model,
            pos,
            entry,
            insert_code,
            base_cost,
            0,
            min_len - 1,
            nodes,
            longest,
        );
        lemma_cached_tried(
            stretch,
            model,
            distances,
            pos,
            entry,
            insert_code,
            base_cost,
            0,
            min_len - 1,
            nodes,
            longest,
        );
        assert(start_priced(model, cached, entry, pos + 1)) by {
            assert(cached[entry.pos as int] == nodes[entry.pos as int]);
        }
        let (next, reported) = if k < 2 {
            update::found_tried(
                stretch,
                model,
                effort,
                distances,
                pos,
                entry,
                insert_code,
                base_cost,
                found,
                0,
                min_len,
                cached,
                so_far,
            )
        } else {
            (cached, so_far)
        };
        if k < 2 {
            lemma_found_tried(
                stretch,
                model,
                effort,
                distances,
                pos,
                entry,
                insert_code,
                base_cost,
                found,
                0,
                min_len,
                cached,
                so_far,
            );
        } else if is_ordered(model) {
            assert(not_raised(model, cached, cached, pos));
        }
        assert forall|l: int| 0 <= l <= pos implies #[trigger] next[l] == nodes[l] by {
            assert(next[l] == cached[l]);
        }
        assert forall|s: int| 0 <= s < queue.len() implies #[trigger] start_priced(
            model,
            next,
            queue[s],
            pos + 1,
        ) by {
            assert(start_priced(model, nodes, queue[s], pos + 1));
        }
        lemma_expanded(
            stretch,
            model,
            effort,
            distances,
            pos,
            found,
            queue,
            min_len,
            k + 1,
            starts,
            next,
            reported,
        );
        let after = update::expanded(
            stretch,
            model,
            effort,
            distances,
            pos,
            found,
            queue,
            min_len,
            k + 1,
            starts,
            next,
            reported,
        ).0;
        assert forall|l: int| 0 <= l <= pos implies #[trigger] after[l] == nodes[l] by {
            assert(after[l] == next[l]);
        }
        if is_ordered(model) {
            lemma_not_raised(model, nodes, cached, next, pos);
            lemma_not_raised(model, nodes, next, after, pos);
            assert(is_best_from(
                stretch,
                model,
                effort,
                distances,
                pos,
                found,
                entry,
                min_len,
                false,
                cached,
            ));
            lemma_still_best(
                stretch,
                model,
                effort,
                distances,
                pos,
                found,
                entry,
                min_len,
                false,
                cached,
                next,
            );
            assert(is_best_from(
                stretch,
                model,
                effort,
                distances,
                pos,
                found,
                entry,
                min_len,
                k < 2,
                next,
            ));
            lemma_still_best(
                stretch,
                model,
                effort,
                distances,
                pos,
                found,
                entry,
                min_len,
                k < 2,
                next,
                after,
            );
        }
    }
}

/// Four distances are cached.
proof fn lemma_four_cached<P: Copy>(stretch: &Stretch, nodes: Seq<ZopfliNode<P>>, i: int)
    requires
        stretch.wf(),
    ensures
        stretch.path_cache(nodes, i).len() == 4,
    decreases i,
{
    if i > 0 && 0 <= path::start_of(nodes, i) < i {
        lemma_four_cached(stretch, nodes, path::start_of(nodes, i));
    }
}

/// There is a start at every position.
proof fn lemma_start_exists<C: CostModel>(
    stretch: &Stretch,
    model: &C,
    nodes: Seq<ZopfliNode<C::Price>>,
    pos: int,
)
    requires
        stretch.wf(),
        0 <= pos <= stretch.num_bytes,
    ensures
        update::is_start(stretch, model, nodes, pos, update::start_at(stretch, model, nodes, pos)),
{
    let cache = stretch.path_cache(nodes, pos);
    lemma_four_cached(stretch, nodes, pos);
    let entry = PosData {
        pos: pos as usize,
        distance_cache: [cache[0], cache[1], cache[2], cache[3]],
        cost: nodes[pos].cost,
        costdiff: model.minus_of(nodes[pos].cost, model.literals_of(0, pos)),
    };
    assert(entry.distance_cache@ =~= cache);
    assert(update::is_start(stretch, model, nodes, pos, entry));
}

/// A start that sinks keeps the starts as they are.
proof fn lemma_sunk<C: CostModel>(
    model: &C,
    nodes: Seq<ZopfliNode<C::Price>>,
    queue: Seq<PosData<C::Price>>,
    at: int,
    done: int,
)
    requires
        starts_priced(model, nodes, queue, done),
    ensures
        starts_priced(model, nodes, nodes::sunk(model, queue, at), done),
    decreases queue.len() - at,
{
    if 0 <= at && at + 1 < queue.len() && model.below_of(
        queue[at + 1].costdiff,
        queue[at].costdiff,
    ) {
        let next = queue.update(at, queue[at + 1]).update(at + 1, queue[at]);
        assert(start_priced(model, nodes, queue[at], done));
        assert(start_priced(model, nodes, queue[at + 1], done));
        assert forall|k: int| 0 <= k < next.len() implies #[trigger] start_priced(
            model,
            nodes,
            next[k],
            done,
        ) by {
            assert(start_priced(model, nodes, queue[k], done));
        }
        lemma_sunk(model, nodes, next, at + 1, done);
    }
}

/// Evaluating a position changes no price, and queues it at its own.
proof fn lemma_evaluated<C: CostModel>(
    stretch: &Stretch,
    model: &C,
    distances: DistanceParams,
    pos: int,
    search: Search<C::Price>,
)
    requires
        stretch.wf(),
        search.nodes.len() == stretch.num_bytes + 1,
        0 <= pos <= stretch.num_bytes,
        all_priced(model, distances, search.nodes, pos),
        starts_priced(model, search.nodes, search.queue, pos),
    ensures
        ({
            let after = update::evaluated(stretch, model, pos, search);
            &&& after.nodes.len() == search.nodes.len()
            &&& all_priced(model, distances, after.nodes, pos + 1)
            &&& starts_priced(model, after.nodes, after.queue, pos + 1)
            &&& forall|j: int|
                0 <= j < search.nodes.len() ==> path::same_command(
                    #[trigger] search.nodes[j],
                    after.nodes[j],
                ) && after.nodes[j].cost == search.nodes[j].cost
        }),
{
    let after = update::evaluated(stretch, model, pos, search);
    let nodes = after.nodes;
    assert forall|i: int| 1 <= i < nodes.len() implies #[trigger] is_priced(
        model,
        distances,
        nodes,
        i,
        pos + 1,
    ) by {
        assert(is_priced(model, distances, search.nodes, i, pos));
        assert(path::start_of(nodes, i) == path::start_of(search.nodes, i));
    }
    assert forall|k: int| 0 <= k < search.queue.len() implies #[trigger] start_priced(
        model,
        nodes,
        search.queue[k],
        pos + 1,
    ) by {
        assert(start_priced(model, search.nodes, search.queue[k], pos));
    }
    let entry = update::start_at(stretch, model, nodes, pos);
    lemma_start_exists(stretch, model, nodes, pos);
    let room = nodes::with_room(search.queue);
    let more = room.insert(0, entry);
    assert forall|k: int| 0 <= k < more.len() implies #[trigger] start_priced(
        model,
        nodes,
        more[k],
        pos + 1,
    ) by {
        if k > 0 {
            assert(more[k] == room[k - 1]);
            assert(start_priced(model, nodes, search.queue[k - 1], pos + 1));
        }
    }
    lemma_sunk(model, nodes, more, 0, pos + 1);
}

/// Pricing the commands that could start at a position leaves every node at the price of
/// its command on top of the way to its start, makes none dearer, and leaves none above the
/// price of a copy that was tried: from every start that was expanded, one through a
/// cached distance, and from the first two, one that was found.
pub proof fn lemma_update_is_best<C: CostModel>(
    stretch: &Stretch,
    model: &C,
    effort: Effort,
    distances: DistanceParams,
    pos: int,
    found: Seq<BackwardMatch>,
    search: Search<C::Price>,
)
    requires
        stretch.wf(),
        search.nodes.len() == stretch.num_bytes + 1,
        0 <= pos <= stretch.num_bytes,
        forall|m: int| 0 <= m < found.len() ==> stretch.genuine(pos, #[trigger] found[m]),
        all_priced(model, distances, search.nodes, pos),
        starts_priced(model, search.nodes, search.queue, pos),
    ensures
        ({
            let after = update::updated(
                stretch,
                model,
                effort,
                distances,
                pos,
                found,
                search,
            ).0;
            let least = shortest_tried(stretch, model, pos, search);
            &&& after.nodes.len() == search.nodes.len()
            &&& all_priced(model, distances, after.nodes, pos + 1)
            &&& starts_priced(model, after.nodes, after.queue, pos + 1)
            &&& costs_kept(search.nodes, after.nodes, pos)
            &&& is_ordered(model) ==> {
                &&& cheapened(model, search.nodes, after.nodes)
                &&& forall|s: int|
                    0 <= s < after.queue.len() && s < effort.max_zopfli_candidates
                        ==> is_best_from(
                        stretch,
                        model,
                        effort,
                        distances,
                        pos,
                        found,
                        #[trigger] after.queue[s],
                        least,
                        s < 2,
                        after.nodes,
                    )
            }
        }),
{
    lemma_evaluated(stretch, model, distances, pos, search);
    let ready = update::evaluated(stretch, model, pos, search);
    let after = update::updated(stretch, model, effort, distances, pos, found, search).0;
    assert(costs_kept(search.nodes, ready.nodes, pos)) by {
        assert forall|j: int| 0 <= j <= pos implies (#[trigger] ready.nodes[j]).cost
            == search.nodes[j].cost by {
            assert(path::same_command(search.nodes[j], ready.nodes[j]));
        }
    }
    if is_ordered(model) {
        assert(cheapened(model, search.nodes, ready.nodes)) by {
            assert forall|j: int| 0 <= j < search.nodes.len() implies (
            #[trigger] ready.nodes[j]).cost == search.nodes[j].cost || model.below_of(
                ready.nodes[j].cost,
                search.nodes[j].cost,
            ) by {
                assert(ready.nodes[j].cost == search.nodes[j].cost) by {
                    assert(path::same_command(search.nodes[j], ready.nodes[j]));
                }
            }
        }
    }
    if ready.queue.len() > 0 {
        let least = shortest_tried(stretch, model, pos, search);
        lemma_least_len(
            model,
            ready.nodes,
            stretch.num_bytes as int,
            pos,
            model.plus_of(
                model.plus_of(ready.queue[0].cost, model.least_of()),
                model.literals_of(ready.queue[0].pos as int, pos),
            ),
            2,
            4,
            10,
        );
        let starts = if effort.max_zopfli_candidates < ready.queue.len() {
            effort.max_zopfli_candidates as int
        } else {
            ready.queue.len() as int
        };
        lemma_expanded(
            stretch,
            model,
            effort,
            distances,
            pos,
            found,
            ready.queue,
            least,
            0,
            starts,
            ready.nodes,
            0,
        );
        assert forall|k: int| 0 <= k < ready.queue.len() implies #[trigger] start_priced(
            model,
            after.nodes,
            after.queue[k],
            pos + 1,
        ) by {
            assert(start_priced(model, ready.nodes, ready.queue[k], pos + 1));
        }
        if is_ordered(model) {
            assert forall|j: int| 0 <= j < search.nodes.len() implies (
            #[trigger] after.nodes[j]).cost == search.nodes[j].cost || model.below_of(
                after.nodes[j].cost,
                search.nodes[j].cost,
            ) by {
                assert(path::same_command(search.nodes[j], ready.nodes[j]));
            }
        }
    }
}

/// Nodes up to a position cost what they did.
pub open spec fn costs_kept<P: Copy>(
    before: Seq<ZopfliNode<P>>,
    after: Seq<ZopfliNode<P>>,
    pos: int,
) -> bool {
    &&& before.len() == after.len()
    &&& forall|j: int| 0 <= j <= pos && j < before.len() ==> (#[trigger] after[j]).cost == before[j].cost
}

/// No node got dearer.
pub open spec fn cheapened<C: CostModel>(
    model: &C,
    before: Seq<ZopfliNode<C::Price>>,
    after: Seq<ZopfliNode<C::Price>>,
) -> bool {
    &&& before.len() == after.len()
    &&& forall|j: int|
        0 <= j < before.len() ==> (#[trigger] after[j]).cost == before[j].cost || model.below_of(
            after[j].cost,
            before[j].cost,
        )
}

/// The shortest copy that is tried at a position.
pub open spec fn shortest_tried<C: CostModel>(
    stretch: &Stretch,
    model: &C,
    pos: int,
    search: Search<C::Price>,
) -> int {
    let ready = update::evaluated(stretch, model, pos, search);
    let lead = ready.queue[0];
    update::least_len(
        model,
        ready.nodes,
        stretch.num_bytes as int,
        pos,
        model.plus_of(
            model.plus_of(lead.cost, model.least_of()),
            model.literals_of(lead.pos as int, pos),
        ),
        2,
        4,
        10,
    )
}

/// The shortest copy that could help is no shorter than where the search for it starts.
proof fn lemma_least_len<C: CostModel>(
    model: &C,
    nodes: Seq<ZopfliNode<C::Price>>,
    num_bytes: int,
    pos: int,
    cost: C::Price,
    len: int,
    bucket: int,
    offset: int,
)
    ensures
        update::least_len(model, nodes, num_bytes, pos, cost, len, bucket, offset) >= len,
    decreases num_bytes + 2 - len,
{
    if len <= num_bytes && pos + len <= num_bytes && model.at_most_of(nodes[pos + len].cost, cost) {
        if len + 1 == offset {
            lemma_least_len(
                model,
                nodes,
                num_bytes,
                pos,
                model.plus_of(cost, model.bits_of(1)),
                len + 1,
                2 * bucket,
                offset + bucket,
            );
        } else {
            lemma_least_len(model, nodes, num_bytes, pos, cost, len + 1, bucket, offset);
        }
    }
}

/// Positions that are stepped over keep every node at its price.
proof fn lemma_skipped<C: CostModel>(
    stretch: &Stretch,
    model: &C,
    distances: DistanceParams,
    last: int,
    rest: int,
    search: Search<C::Price>,
)
    requires
        stretch.wf(),
        search.nodes.len() == stretch.num_bytes + 1,
        0 <= last < stretch.num_bytes,
        all_priced(model, distances, search.nodes, last + 1),
        starts_priced(model, search.nodes, search.queue, last + 1),
    ensures
        ({
            let (end, after) = zopfli::skipped(stretch, model, last, rest, search);
            &&& last <= end <= stretch.num_bytes
            &&& after.nodes.len() == search.nodes.len()
            &&& all_priced(model, distances, after.nodes, end + 1)
            &&& starts_priced(model, after.nodes, after.queue, end + 1)
            &&& costs_kept(search.nodes, after.nodes, stretch.num_bytes as int)
        }),
    decreases rest,
{
    if rest <= 0 {
    } else if last + 1 + zopfli::HASH_TYPE_LENGTH > stretch.num_bytes {
        lemma_priced_later(model, distances, search.nodes, search.queue, last + 1, last + 2);
    } else {
        lemma_evaluated(stretch, model, distances, last + 1, search);
        let next = update::evaluated(stretch, model, last + 1, search);
        lemma_skipped(stretch, model, distances, last + 1, rest - 1, next);
        let after = zopfli::skipped(stretch, model, last + 1, rest - 1, next).1;
        assert forall|j: int| 0 <= j <= stretch.num_bytes implies (#[trigger] after.nodes[j]).cost
            == search.nodes[j].cost by {
            assert(path::same_command(search.nodes[j], next.nodes[j]));
        }
    }
}

/// What is at its price stays so as more is decided.
proof fn lemma_priced_later<C: CostModel>(
    model: &C,
    distances: DistanceParams,
    nodes: Seq<ZopfliNode<C::Price>>,
    queue: Seq<PosData<C::Price>>,
    done: int,
    later: int,
)
    requires
        done <= later,
        all_priced(model, distances, nodes, done),
        starts_priced(model, nodes, queue, done),
    ensures
        all_priced(model, distances, nodes, later),
        starts_priced(model, nodes, queue, later),
{
    assert forall|i: int| 1 <= i < nodes.len() implies #[trigger] is_priced(
        model,
        distances,
        nodes,
        i,
        later,
    ) by {
        assert(is_priced(model, distances, nodes, i, done));
    }
    assert forall|k: int| 0 <= k < queue.len() implies #[trigger] start_priced(
        model,
        nodes,
        queue[k],
        later,
    ) by {
        assert(start_priced(model, nodes, queue[k], done));
    }
}

/// The copies each position has are genuine.
pub open spec fn all_genuine(stretch: &Stretch, finds: Seq<Seq<BackwardMatch>>) -> bool {
    forall|i: int, m: int|
        0 <= i < stretch.num_bytes && 0 <= m < finds[i].len() ==> stretch.genuine(
            i,
            #[trigger] finds[i][m],
        )
}

/// A search keeps every node at its price, and makes none dearer.
proof fn lemma_walked<C: CostModel>(
    stretch: &Stretch,
    model: &C,
    params: &HqParams,
    finds: Seq<Seq<BackwardMatch>>,
    i: int,
    search: Search<C::Price>,
)
    requires
        stretch.wf(),
        search.nodes.len() == stretch.num_bytes + 1,
        0 <= i <= stretch.num_bytes,
        all_genuine(stretch, finds),
        all_priced(model, params.dist, search.nodes, i),
        starts_priced(model, search.nodes, search.queue, i),
    ensures
        ({
            let after = zopfli::walked(stretch, model, params, finds, i, search);
            &&& after.nodes.len() == search.nodes.len()
            &&& all_priced(model, params.dist, after.nodes, stretch.num_bytes + 1)
            &&& costs_kept(search.nodes, after.nodes, i)
            &&& is_ordered(model) ==> cheapened(model, search.nodes, after.nodes)
        }),
    decreases stretch.num_bytes - i,
{
    if i + 3 >= stretch.num_bytes {
        lemma_priced_later(
            model,
            params.dist,
            search.nodes,
            search.queue,
            i,
            stretch.num_bytes + 1,
        );
    } else {
        let effort = params.effort_of();
        let found = finds[i];
        let (priced, longest) = update::updated(
            stretch,
            model,
            effort,
            params.dist,
            i,
            found,
            search,
        );
        assert forall|m: int| 0 <= m < found.len() implies stretch.genuine(
            i,
            #[trigger] found[m],
        ) by {
            assert(stretch.genuine(i, finds[i][m]));
        }
        lemma_update_is_best(stretch, model, effort, params.dist, i, found, search);
        let skip = zopfli::stepped_over(longest, found, effort.max_zopfli_len as int);
        let rest = if skip > 1 {
            skip - 1
        } else {
            0
        };
        let (last, passed) = zopfli::skipped(stretch, model, i, rest, priced);
        lemma_skipped(stretch, model, params.dist, i, rest, priced);
        let after = zopfli::walked(stretch, model, params, finds, i, search);
        assert forall|j: int| 0 <= j <= i implies (#[trigger] passed.nodes[j]).cost
            == search.nodes[j].cost by {
            assert(priced.nodes[j].cost == search.nodes[j].cost);
        }
        if is_ordered(model) {
            assert forall|j: int| 0 <= j < priced.nodes.len() implies (
            #[trigger] passed.nodes[j]).cost == priced.nodes[j].cost by {}
            lemma_cheapened(model, search.nodes, priced.nodes, passed.nodes);
        }
        if last < stretch.num_bytes {
            lemma_walked(stretch, model, params, finds, last + 1, passed);
            assert forall|j: int| 0 <= j <= i implies (#[trigger] after.nodes[j]).cost
                == search.nodes[j].cost by {
                assert(passed.nodes[j].cost == search.nodes[j].cost);
            }
            if is_ordered(model) {
                lemma_cheapened(model, search.nodes, passed.nodes, after.nodes);
            }
        }
    }
}

/// What does not get dearer twice does not get dearer.
proof fn lemma_cheapened<C: CostModel>(
    model: &C,
    first: Seq<ZopfliNode<C::Price>>,
    second: Seq<ZopfliNode<C::Price>>,
    third: Seq<ZopfliNode<C::Price>>,
)
    requires
        is_ordered(model),
        cheapened(model, first, second),
        cheapened(model, second, third),
    ensures
        cheapened(model, first, third),
{
    assert forall|j: int| 0 <= j < first.len() implies (#[trigger] third[j]).cost == first[j].cost
        || model.below_of(third[j].cost, first[j].cost) by {
        assert(second[j].cost == first[j].cost || model.below_of(second[j].cost, first[j].cost));
    }
}

/// The nodes a search comes to cost what their commands cost: each costs the way to its
/// start, and then its literals, its code, the extra bits of its lengths and, exactly if
/// the code is 128 or more, its distance. The first node costs nothing.
pub proof fn lemma_walk_is_priced<C: CostModel>(
    stretch: &Stretch,
    model: &C,
    params: &HqParams,
    finds: Seq<Seq<BackwardMatch>>,
)
    requires
        stretch.wf(),
        all_genuine(stretch, finds),
    ensures
        ({
            let nodes = zopfli::walk(stretch, model, params, finds);
            &&& nodes.len() == stretch.num_bytes + 1
            &&& all_priced(model, params.dist, nodes, stretch.num_bytes + 1)
            &&& nodes[0].cost == model.zero_of()
            &&& is_ordered(model) ==> forall|j: int|
                1 <= j < nodes.len() ==> (#[trigger] nodes[j]).cost == model.infinite_of()
                    || model.below_of(nodes[j].cost, model.infinite_of())
        }),
{
    let nodes = zopfli::fresh(model, stretch.num_bytes as int);
    let search = Search { nodes, queue: Seq::empty() };
    assert forall|i: int| 1 <= i < nodes.len() implies #[trigger] is_priced(
        model,
        params.dist,
        nodes,
        i,
        0,
    ) by {}
    lemma_walked(stretch, model, params, finds, 0, search);
    let after = zopfli::walk(stretch, model, params, finds);
    assert(after[0].cost == nodes[0].cost);
}

/// Prices add up: they have a worth that sums and differences keep, and literals are worth
/// what their parts are.
pub open spec fn adds_up<C: CostModel>(model: &C, worth: spec_fn(C::Price) -> int) -> bool {
    &&& forall|a: C::Price, b: C::Price| #[trigger]
        worth(model.plus_of(a, b)) == worth(a) + worth(b)
    &&& forall|a: C::Price, b: C::Price| #[trigger]
        worth(model.minus_of(a, b)) == worth(a) - worth(b)
    &&& forall|from: int, to: int|
        0 <= from <= to ==> worth(#[trigger] model.literals_of(from, to)) == worth(
            model.literals_of(0, to),
        ) - worth(model.literals_of(0, from))
}

/// What the command that ends at a position writes is worth: its literals, its code, the
/// extra bits of its two lengths and, exactly if the code is 128 or more, its distance.
pub open spec fn command_worth<C: CostModel>(
    model: &C,
    distances: DistanceParams,
    worth: spec_fn(C::Price) -> int,
    node: ZopfliNode<C::Price>,
    i: int,
) -> int {
    let at = i - node.copy_length;
    let insert = node.insert_length as int;
    let code = code_of(insert, node.length_code as int, node.short_code as int);
    let symbol = command::spelled(
        node.distance + 15,
        distances.num_direct as int,
        distances.postfix_bits as int,
    );
    worth(model.literals_of(at - insert, at)) + worth(model.command_of(code)) + worth(
        model.bits_of(INS_EXTRA@[command::insert_code(insert)]),
    ) + worth(model.bits_of(COPY_EXTRA@[command::copy_code(node.length_code as int)])) + if code
        < 128 {
        0
    } else if node.short_code > 0 {
        worth(model.distance_of(node.short_code - 1))
    } else {
        worth(model.distance_of(symbol.symbol as int)) + worth(model.bits_of(symbol.num_extra))
    }
}

/// What the commands on the way to a position are worth together.
pub open spec fn way_worth<C: CostModel>(
    model: &C,
    distances: DistanceParams,
    worth: spec_fn(C::Price) -> int,
    nodes: Seq<ZopfliNode<C::Price>>,
    i: int,
) -> int
    decreases i,
{
    let start = path::start_of(nodes, i);
    if nodes[i].reached() && 0 <= start < i {
        way_worth(model, distances, worth, nodes, start) + command_worth(
            model,
            distances,
            worth,
            nodes[i],
            i,
        )
    } else {
        worth(nodes[i].cost)
    }
}

/// Where prices add up, the cost of a node is the sum of what the commands on its path
/// write.
pub proof fn lemma_cost_is_sum<C: CostModel>(
    model: &C,
    distances: DistanceParams,
    worth: spec_fn(C::Price) -> int,
    nodes: Seq<ZopfliNode<C::Price>>,
    i: int,
    done: int,
)
    requires
        adds_up(model, worth),
        all_priced(model, distances, nodes, done),
        0 <= i < nodes.len(),
    ensures
        worth(nodes[i].cost) == way_worth(model, distances, worth, nodes, i),
    decreases i,
{
    let start = path::start_of(nodes, i);
    if nodes[i].reached() && 0 <= start < i {
        assert(is_priced(model, distances, nodes, i, done));
        lemma_cost_is_sum(model, distances, worth, nodes, start, done);
    }
}

/// A price with single bits on top.
pub open spec fn raised<C: CostModel>(model: &C, price: C::Price, bits: int) -> C::Price
    decreases bits,
{
    if bits <= 0 {
        price
    } else {
        model.plus_of(raised(model, price, bits - 1), model.bits_of(1))
    }
}

/// How many bits the floor of a copy length is raised by: none below ten, then one at ten
/// and one more each time the length less six doubles.
pub open spec fn is_raise(len: int, bits: int) -> bool {
    if len < 10 {
        bits == 0
    } else {
        fast_log::is_log2_floor(len - 6, bits + 1)
    }
}

/// A copy that is too short to help arrives where it is cheaper to be already than the floor
/// of its length.
pub open spec fn falls_short<C: CostModel>(
    model: &C,
    nodes: Seq<ZopfliNode<C::Price>>,
    pos: int,
    floor: C::Price,
    len: int,
    bits: int,
) -> bool {
    is_raise(len, bits) && model.at_most_of(nodes[pos + len].cost, raised(model, floor, bits))
}

/// A copy of a length cannot help.
pub open spec fn is_hopeless<C: CostModel>(
    model: &C,
    nodes: Seq<ZopfliNode<C::Price>>,
    pos: int,
    floor: C::Price,
    len: int,
) -> bool {
    exists|bits: int| #[trigger] falls_short(model, nodes, pos, floor, len, bits)
}

/// A copy of a length could help.
pub open spec fn could_help<C: CostModel>(
    model: &C,
    nodes: Seq<ZopfliNode<C::Price>>,
    pos: int,
    floor: C::Price,
    len: int,
) -> bool {
    exists|bits: int| #[trigger]
        is_raise(len, bits) && !model.at_most_of(
            nodes[pos + len].cost,
            raised(model, floor, bits),
        )
}

/// The copies that are not tried are those that cannot help: each shorter one arrives where
/// the node costs no more than the least a command could, raised by the bits that its length
/// needs at least; the shortest one that is tried does not, unless the block ends before.
pub proof fn lemma_shorter_cannot_help<C: CostModel>(
    model: &C,
    nodes: Seq<ZopfliNode<C::Price>>,
    num_bytes: int,
    pos: int,
    floor: C::Price,
)
    requires
        0 <= pos <= num_bytes,
    ensures
        ({
            let least = update::least_len(model, nodes, num_bytes, pos, floor, 2, 4, 10);
            &&& forall|len: int|
                2 <= len < least ==> #[trigger] is_hopeless(model, nodes, pos, floor, len)
            &&& pos + least <= num_bytes ==> could_help(model, nodes, pos, floor, least)
        }),
{
    power2::lemma2_to64();
    lemma_floor(model, nodes, num_bytes, pos, floor, 2, 0);
}

/// The floor from a length on.
proof fn lemma_floor<C: CostModel>(
    model: &C,
    nodes: Seq<ZopfliNode<C::Price>>,
    num_bytes: int,
    pos: int,
    floor: C::Price,
    len: int,
    bits: int,
)
    requires
        0 <= pos <= num_bytes,
        2 <= len,
        0 <= bits,
        is_raise(len, bits),
        len < 6 + power2::pow2((bits + 2) as nat),
    ensures
        ({
            let unit = power2::pow2((bits + 2) as nat) as int;
            let least = update::least_len(
                model,
                nodes,
                num_bytes,
                pos,
                raised(model, floor, bits),
                len,
                unit,
                unit + 6,
            );
            &&& forall|l: int|
                len <= l < least ==> #[trigger] is_hopeless(model, nodes, pos, floor, l)
            &&& pos + least <= num_bytes ==> could_help(model, nodes, pos, floor, least)
        }),
    decreases num_bytes + 2 - len,
{
    let unit = power2::pow2((bits + 2) as nat) as int;
    let price = raised(model, floor, bits);
    if len <= num_bytes && pos + len <= num_bytes && model.at_most_of(
        nodes[pos + len].cost,
        price,
    ) {
        assert(falls_short(model, nodes, pos, floor, len, bits));
        power2::lemma_pow2_unfold((bits + 3) as nat);
        power2::lemma_pow2_unfold((bits + 2) as nat);
        power2::lemma2_to64();
        if bits > 0 {
            power2::lemma_pow2_strictly_increases(1, (bits + 1) as nat);
        }
        if len + 1 == unit + 6 {
            assert(raised(model, floor, bits + 1) == model.plus_of(price, model.bits_of(1)));
            assert(is_raise(len + 1, bits + 1));
            lemma_floor(model, nodes, num_bytes, pos, floor, len + 1, bits + 1);
        } else {
            if len + 1 >= 10 {
                assert(fast_log::is_log2_floor(len + 1 - 6, bits + 1));
            }
            lemma_floor(model, nodes, num_bytes, pos, floor, len + 1, bits);
        }
    } else {
        assert(is_raise(len, bits));
    }
}

/// Starts are in order: none saves more than the one before it.
pub open spec fn in_order<C: CostModel>(model: &C, queue: Seq<PosData<C::Price>>) -> bool {
    forall|k: int|
        0 <= k < queue.len() - 1 ==> !#[trigger] saves_more(model, queue, k)
}

/// A start saves more than the one before it.
pub open spec fn saves_more<C: CostModel>(
    model: &C,
    queue: Seq<PosData<C::Price>>,
    k: int,
) -> bool {
    model.below_of(queue[k + 1].costdiff, queue[k].costdiff)
}

/// A start that sinks ends where it belongs, if all others are in order.
proof fn lemma_sinks_into_place<C: CostModel>(
    model: &C,
    queue: Seq<PosData<C::Price>>,
    at: int,
)
    requires
        is_ordered(model),
        0 <= at < queue.len(),
        forall|k: int|
            0 <= k < queue.len() - 1 && k != at ==> !#[trigger] saves_more(model, queue, k),
        0 < at < queue.len() - 1 ==> !model.below_of(
            queue[at + 1].costdiff,
            queue[at - 1].costdiff,
        ),
    ensures
        in_order(model, nodes::sunk(model, queue, at)),
        nodes::sunk(model, queue, at).len() == queue.len(),
        nodes::sunk(model, queue, at).contains(queue[at]),
    decreases queue.len() - at,
{
    if at + 1 < queue.len() && model.below_of(queue[at + 1].costdiff, queue[at].costdiff) {
        let next = queue.update(at, queue[at + 1]).update(at + 1, queue[at]);
        assert forall|k: int| 0 <= k < next.len() - 1 && k != at + 1 implies !#[trigger] saves_more(
            model,
            next,
            k,
        ) by {
            if k == at {
                if model.below_of(queue[at].costdiff, queue[at + 1].costdiff) {
                    assert(model.below_of(queue[at].costdiff, queue[at].costdiff));
                }
            } else {
                assert(!saves_more(model, queue, k));
            }
        }
        if at + 1 < queue.len() - 1 {
            assert(!saves_more(model, queue, at + 1));
        }
        lemma_sinks_into_place(model, next, at + 1);
    } else {
        assert forall|k: int| 0 <= k < queue.len() - 1 implies !#[trigger] saves_more(
            model,
            queue,
            k,
        ) by {}
        assert(queue[at] == queue[at]);
    }
}

/// A start that is worth starting from is queued, and no other: one that some path reaches,
/// or the first, if getting there costs no more than literals all the way. The queue stays
/// in order, the start that saves most first, and holds no more than eight.
pub proof fn lemma_queue_keeps_the_best<C: CostModel>(
    stretch: &Stretch,
    model: &C,
    pos: int,
    search: Search<C::Price>,
)
    requires
        stretch.wf(),
        0 <= pos <= stretch.num_bytes,
        is_ordered(model),
        in_order(model, search.queue),
        search.queue.len() <= 8,
        search.nodes.len() == stretch.num_bytes + 1,
    ensures
        ({
            let after = update::evaluated(stretch, model, pos, search);
            let worth = (pos == 0 || search.nodes[pos].reached()) && model.at_most_of(
                search.nodes[pos].cost,
                model.literals_of(0, pos),
            );
            &&& in_order(model, after.queue)
            &&& after.queue.len() <= 8
            &&& !worth ==> after.queue == search.queue
            &&& worth ==> after.queue.len() == if search.queue.len() < 8 {
                search.queue.len() + 1
            } else {
                8
            } && exists|k: int|
                0 <= k < after.queue.len() && (#[trigger] after.queue[k]).pos == pos
                    && after.queue[k].cost == search.nodes[pos].cost
        }),
{
    let node = search.nodes[pos];
    let after = update::evaluated(stretch, model, pos, search);
    let entry = update::start_at(stretch, model, after.nodes, pos);
    lemma_start_exists(stretch, model, after.nodes, pos);
    let room = nodes::with_room(search.queue);
    let more = room.insert(0, entry);
    assert forall|k: int| 0 <= k < more.len() - 1 && k != 0 implies !#[trigger] saves_more(
        model,
        more,
        k,
    ) by {
        assert(more[k] == search.queue[k - 1] && more[k + 1] == search.queue[k]);
        assert(!saves_more(model, search.queue, k - 1));
    }
    lemma_sinks_into_place(model, more, 0);
    if (pos == 0 || node.reached()) && model.at_most_of(node.cost, model.literals_of(0, pos)) {
        assert(after.queue.contains(entry));
        let k = choose|k: int| 0 <= k < after.queue.len() && after.queue[k] == entry;
        assert(after.queue[k].pos == pos);
    }
}

} // verus!
