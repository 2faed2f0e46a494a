//! The cheapest path through a block, and the commands it is made of.
//!
//! What a command costs is the cost model's business. Whatever it says, the
//! commands account for every byte and read back to the input.
use vstd::prelude::*;

use crate::backend::Backend;
use crate::greedy::backward_references;
use crate::greedy::backward_references::Command;
use crate::greedy::search::MAX_MATCH;
use crate::hq::candidates;
use crate::hq::candidates::{
    merge_prefix_matches, Asked, BackwardMatch, MatchRequest, PrefixMatcher, Told, TreeMatcher,
    MAX_PREFIX_MATCHES, MIN_PREFIX_MATCH_LENGTH,
};
use crate::hq::nodes::{CostModel, StartPosQueue, ZopfliNode};
use crate::hq::params::{HqParams, HqQuality};
use crate::hq::path;
use crate::hq::path::{
    compute_shortest_path_from_nodes, create_commands, Stretch, ZopfliState,
};
use crate::hq::update;
use crate::hq::update::{evaluate_node, update_nodes, Search};

verus! {

/// Copies at least this long are stepped over.
pub const LONG_COPY_QUICK_STEP: usize = 16384;

/// Bytes a match search looks at.
pub const HASH_TYPE_LENGTH: usize = 4;

/// Bytes that must follow a position before it is recorded.
pub const STORE_LOOKAHEAD: usize = 128;

/// A block's nodes before any command is priced: the first costs nothing, the others
/// more than anything.
pub open spec fn fresh<C: CostModel>(model: &C, num_bytes: int) -> Seq<ZopfliNode<C::Price>> {
    Seq::new(
        (num_bytes + 1) as nat,
        |i: int|
            if i == 0 {
                ZopfliNode { copy_length: 0, ..ZopfliNode::stub(model.zero_of()) }
            } else {
                ZopfliNode::stub(model.infinite_of())
            },
    )
}

/// A block's nodes before any command is priced.
pub fn fresh_nodes<C: CostModel>(model: &C, num_bytes: usize) -> (nodes: Vec<ZopfliNode<C::Price>>)
    requires
        num_bytes <= MAX_MATCH,
    ensures
        nodes@ == fresh(model, num_bytes as int),
        nodes@.len() == num_bytes + 1,
        nodes@[0].copy_length == 0,
        nodes@[0].insert_length == 0,
        nodes@[0].shortcut == 0,
        forall|i: int|
            1 <= i <= num_bytes ==> #[trigger] nodes@[i] == ZopfliNode::stub(nodes@[i].cost),
{
    let mut nodes: Vec<ZopfliNode<C::Price>> = Vec::new();
    let mut first = ZopfliNode::blank(model.zero());
    first.copy_length = 0;
    nodes.push(first);
    let far = model.infinite();
    assert(nodes@ =~= fresh(model, num_bytes as int).take(1));
    while nodes.len() <= num_bytes
        invariant
            num_bytes <= MAX_MATCH,
            1 <= nodes@.len() <= num_bytes + 1,
            far == model.infinite_of(),
            nodes@ == fresh(model, num_bytes as int).take(nodes@.len() as int),
            nodes@[0].copy_length == 0,
            nodes@[0].insert_length == 0,
            nodes@[0].shortcut == 0,
            forall|i: int|
                1 <= i < nodes@.len() ==> #[trigger] nodes@[i] == ZopfliNode::stub(nodes@[i].cost),
        decreases num_bytes + 1 - nodes@.len(),
    {
        nodes.push(ZopfliNode::blank(far));
        assert(nodes@ =~= fresh(model, num_bytes as int).take(nodes@.len() as int));
    }
    assert(nodes@ =~= fresh(model, num_bytes as int));
    nodes
}

/// Fresh nodes are in order.
proof fn lemma_fresh<P: Copy>(stretch: &Stretch, nodes: Seq<ZopfliNode<P>>)
    requires
        stretch.wf(),
        nodes.len() == stretch.num_bytes + 1,
        nodes[0].copy_length == 0,
        nodes[0].insert_length == 0,
        forall|i: int|
            1 <= i <= stretch.num_bytes ==> #[trigger] nodes[i] == ZopfliNode::stub(nodes[i].cost),
    ensures
        update::progress(stretch, nodes, Seq::empty(), 0),
{
    assert forall|i: int| 1 <= i <= stretch.num_bytes implies #[trigger] stretch.settled(
        nodes,
        i,
        0,
    ) by {
        assert(nodes[i] == ZopfliNode::stub(nodes[i].cost));
    }
}

/// What the finders were asked at a position, and what they offered.
pub struct Answer {
    /// What they were asked.
    pub asked: Asked,
    /// The window's copies.
    pub tree: Seq<BackwardMatch>,
    /// Those of attached dictionaries.
    pub words: Seq<(usize, usize)>,
}

/// What the finders are to be asked at a position.
pub open spec fn question(stretch: &Stretch, params: &HqParams, i: int) -> Asked {
    Asked {
        window: (stretch.data@, stretch.mask),
        position: stretch.block_start + i,
        max_length: stretch.num_bytes - i,
        reach: (stretch.reach(i), stretch.reach(i) + stretch.gap),
        max_distance: stretch.max_distance as int,
        short_scan: match params.quality {
            HqQuality::Q10 => 16,
            HqQuality::Q11 => 64,
        },
    }
}

/// What the finders said where they were asked is what they can say to the right
/// question.
pub open spec fn answers_ok<T: TreeMatcher, A: PrefixMatcher>(
    stretch: &Stretch,
    params: &HqParams,
    answers: Seq<Option<Answer>>,
) -> bool {
    &&& answers.len() == stretch.num_bytes
    &&& forall|i: int|
        0 <= i < answers.len() ==> ((#[trigger] answers[i]) matches Some(answer)
            ==> answer_ok::<T, A>(stretch, params, i, answer))
}

/// What the finders said at a position is what they can say to the right question.
pub open spec fn answer_ok<T: TreeMatcher, A: PrefixMatcher>(
    stretch: &Stretch,
    params: &HqParams,
    i: int,
    answer: Answer,
) -> bool {
    &&& answer.asked == question(stretch, params, i)
    &&& T::offers(answer.asked, answer.tree)
    &&& stretch.attached@.len() > 0 ==> A::offers(
        answer.asked,
        MIN_PREFIX_MATCH_LENGTH,
        MAX_PREFIX_MATCHES,
        answer.words,
    )
}

/// The copies a position offers: the window's and those of attached dictionaries, in
/// order of length, as far as they are what they say. Where the finders were not
/// asked, there is no telling.
pub open spec fn offers(stretch: &Stretch, i: int, answer: Option<Answer>) -> Seq<BackwardMatch> {
    match answer {
        None => arbitrary(),
        Some(heard) => {
            let all = if stretch.attached@.len() > 0 {
                candidates::merged(heard.words, heard.tree)
            } else {
                heard.tree
            };
            all.filter(|m: BackwardMatch| stretch.genuine(i, m))
        },
    }
}

/// Asks the finders what they have.
fn ask_finders<T: TreeMatcher, A: PrefixMatcher>(
    matcher: &mut T,
    prefix: &mut A,
    request: MatchRequest,
    attached: bool,
) -> (found: (Vec<BackwardMatch>, Vec<(usize, usize)>))
    ensures
        T::offers(request.asks(), found.0@),
        T::does(*old(matcher), Told::Asked(request.asks(), found.0@), *final(matcher)),
        attached ==> A::offers(
            request.asks(),
            MIN_PREFIX_MATCH_LENGTH,
            MAX_PREFIX_MATCHES,
            found.1@,
        ),
{
    let tree: Vec<BackwardMatch> = matcher.find_all_matches(request);
    let words: Vec<(usize, usize)> = if attached {
        prefix.find_all_matches(request, MIN_PREFIX_MATCH_LENGTH, MAX_PREFIX_MATCHES)
    } else {
        Vec::new()
    };
    (tree, words)
}

/// Returns the copies a position offers: the window's and those of attached
/// dictionaries, in order of length, as far as they are what they say.
pub fn found_at<T: TreeMatcher, A: PrefixMatcher>(
    stretch: &Stretch,
    backend: Backend,
    params: &HqParams,
    matcher: &mut T,
    prefix: &mut A,
    i: usize,
) -> (out: (Vec<BackwardMatch>, Ghost<Answer>))
    requires
        stretch.wf(),
        i < stretch.num_bytes,
    ensures
        answer_ok::<T, A>(stretch, params, i as int, out.1@),
        T::does(
            *old(matcher),
            Told::Asked(question(stretch, params, i as int), out.1@.tree),
            *final(matcher),
        ),
        out.0@ == offers(stretch, i as int, Some(out.1@)),
        forall|k: int| 0 <= k < out.0@.len() ==> stretch.genuine(i as int, #[trigger] out.0@[k]),
{
    let position: usize = stretch.block_start + i;
    let reach: usize = if position < stretch.limit {
        position
    } else {
        stretch.limit
    };
    let request = MatchRequest {
        data: stretch.data,
        mask: stretch.mask,
        position,
        max_length: stretch.num_bytes - i,
        max_backward: reach,
        dictionary_distance: reach + stretch.gap,
        max_distance: stretch.max_distance,
        short_scan: params.short_scan(),
    };
    let attached: bool = stretch.attached.len() > 0;
    let (mut offered, words) = ask_finders(matcher, prefix, request, attached);
    let ghost answer = Answer { asked: request.asks(), tree: offered@, words: words@ };
    if attached {
        merge_prefix_matches(&words, &mut offered);
    }
    let found = stretch.keep_genuine(backend, i, &offered);
    (found, Ghost(answer))
}

/// A list, or only its longest copy where that is past the cap.
pub open spec fn capped(found: Seq<BackwardMatch>, cap: int) -> Seq<BackwardMatch> {
    if found.len() > 0 && found.last().length > cap {
        seq![found.last()]
    } else {
        found
    }
}

/// Returns `found`, or only its longest copy where that is past the cap: a copy
/// that long makes every shorter candidate irrelevant.
pub fn cap_found(found: Vec<BackwardMatch>, cap: usize) -> (kept: Vec<BackwardMatch>)
    ensures
        kept@ == capped(found@, cap as int),
{
    if found.len() > 0 {
        let longest: BackwardMatch = found[found.len() - 1];
        if longest.length > cap {
            let mut kept: Vec<BackwardMatch> = Vec::new();
            kept.push(longest);
            assert(kept@ =~= seq![longest]);
            return kept;
        }
    }
    found
}

/// How many positions a copy lets the search step over.
pub open spec fn stepped_over(longest: int, found: Seq<BackwardMatch>, cap: int) -> int {
    let quick = if longest < LONG_COPY_QUICK_STEP {
        0
    } else {
        longest
    };
    if found.len() == 1 && found[0].length > cap && found[0].length > quick {
        found[0].length as int
    } else {
        quick
    }
}

/// Only a long copy is stepped over, and then in full: one of 16384 bytes or more that was
/// worth recording, or the only one that was found if it is past the cap. After the cap, what
/// is left of a list is all of it, or its last copy alone.
pub proof fn lemma_long_copies_are_stepped_over(longest: int, found: Seq<BackwardMatch>, cap: int)
    requires
        0 <= longest,
    ensures
        ({
            let skip = stepped_over(longest, found, cap);
            let lone = found.len() == 1 && found[0].length > cap;
            &&& longest >= 16384 ==> skip >= longest
            &&& lone ==> skip >= found[0].length
            &&& longest < 16384 && !lone ==> skip == 0
            &&& skip == 0 || skip == longest || lone && skip == found[0].length
        }),
        found.len() > 0 ==> capped(found, cap).len() > 0 && capped(found, cap).last()
            == found.last(),
        capped(found, cap) != found ==> capped(found, cap).len() == 1 && found.last().length > cap,
        found.len() > 0 && found.last().length > cap ==> capped(found, cap).len() == 1,
{
}

/// Returns how many positions a copy lets the search step over.
fn step_over(longest: usize, found: &[BackwardMatch], cap: usize) -> (skip: usize)
    ensures
        skip == stepped_over(longest as int, found@, cap as int),
{
    let mut skip: usize = if longest < LONG_COPY_QUICK_STEP {
        0
    } else {
        longest
    };
    if found.len() == 1 && found[0].length > cap && found[0].length > skip {
        skip = found[0].length;
    }
    skip
}

/// The search once the positions after `last` that a copy steps over were evaluated,
/// and the last of them.
pub open spec fn skipped<C: CostModel>(
    stretch: &Stretch,
    model: &C,
    last: int,
    rest: int,
    search: Search<C::Price>,
) -> (int, Search<C::Price>)
    decreases rest,
{
    if rest <= 0 {
        (last, search)
    } else if last + 1 + HASH_TYPE_LENGTH > stretch.num_bytes {
        (last + 1, search)
    } else {
        skipped(
            stretch,
            model,
            last + 1,
            rest - 1,
            update::evaluated(stretch, model, last + 1, search),
        )
    }
}

/// Evaluates the positions after `i` that a copy steps over, and returns the last
/// one.
fn evaluate_skipped<C: CostModel>(
    stretch: &Stretch,
    model: &C,
    i: usize,
    skip: usize,
    queue: &mut StartPosQueue<C::Price>,
    nodes: &mut Vec<ZopfliNode<C::Price>>,
) -> (last: usize)
    requires
        stretch.wf(),
        i + 3 < stretch.num_bytes,
        update::progress(stretch, old(nodes)@, old(queue).entries@, i + 1),
    ensures
        last == if skip <= 1 {
            i as int
        } else if i + skip - 1 + 3 < stretch.num_bytes {
            i + skip - 1
        } else {
            stretch.num_bytes - 3
        },
        (last as int, (Search { nodes: final(nodes)@, queue: final(queue).entries@ })) == skipped(
            stretch,
            model,
            i as int,
            if skip > 1 {
                skip - 1
            } else {
                0
            },
            (Search { nodes: old(nodes)@, queue: old(queue).entries@ }),
        ),
        update::progress(
            stretch,
            final(nodes)@,
            final(queue).entries@,
            if last + 3 < stretch.num_bytes {
                last + 1
            } else {
                last as int
            },
        ),
{
    let mut last: usize = i;
    let mut rest: usize = if skip > 1 {
        skip - 1
    } else {
        0
    };
    let ghost whole = skipped(
        stretch,
        model,
        i as int,
        rest as int,
        (Search { nodes: nodes@, queue: queue.entries@ }),
    );
    while rest != 0
        invariant
            whole == skipped(
                stretch,
                model,
                i as int,
                if skip > 1 {
                    skip - 1
                } else {
                    0
                },
                (Search { nodes: old(nodes)@, queue: old(queue).entries@ }),
            ),
            skipped(
                stretch,
                model,
                last as int,
                rest as int,
                (Search { nodes: nodes@, queue: queue.entries@ }),
            ) == whole,
            stretch.wf(),
            i <= last,
            last + 3 < stretch.num_bytes,
            last + rest == i + if skip > 1 {
                skip - 1
            } else {
                0
            },
            update::progress(stretch, nodes@, queue.entries@, last + 1),
        decreases rest,
    {
        last += 1;
        if last + HASH_TYPE_LENGTH > stretch.num_bytes {
            return last;
        }
        evaluate_node(stretch, model, last, queue, nodes);
        rest -= 1;
    }
    last
}

/// Everything a finished search guarantees of its nodes.
pub open spec fn searched<P: Copy>(stretch: &Stretch, nodes: Seq<ZopfliNode<P>>, done: int) -> bool {
    let end = path::path_end(nodes, stretch.num_bytes as int);
    &&& stretch.sound(nodes, done)
    &&& path::links_down(nodes, 0, end)
    &&& nodes[end].next is None
}

/// The search from a position on, by the copies each position has.
///
/// A position is updated, and the positions a long copy covers are only evaluated.
pub open spec fn walked<C: CostModel>(
    stretch: &Stretch,
    model: &C,
    params: &HqParams,
    finds: Seq<Seq<BackwardMatch>>,
    i: int,
    search: Search<C::Price>,
) -> Search<C::Price>
    decreases stretch.num_bytes - i,
{
    if i + 3 >= stretch.num_bytes {
        search
    } else {
        let (priced, longest) = update::updated(
            stretch,
            model,
            params.effort_of(),
            params.dist,
            i,
            finds[i],
            search,
        );
        let skip = stepped_over(longest, finds[i], params.effort_of().max_zopfli_len as int);
        let (last, passed) = skipped(
            stretch,
            model,
            i,
            if skip > 1 {
                skip - 1
            } else {
                0
            },
            priced,
        );
        if i <= last < stretch.num_bytes {
            walked(stretch, model, params, finds, last + 1, passed)
        } else {
            passed
        }
    }
}

/// The nodes a search comes to, by the copies each position has.
pub open spec fn walk<C: CostModel>(
    stretch: &Stretch,
    model: &C,
    params: &HqParams,
    finds: Seq<Seq<BackwardMatch>>,
) -> Seq<ZopfliNode<C::Price>> {
    walked(
        stretch,
        model,
        params,
        finds,
        0,
        Search { nodes: fresh(model, stretch.num_bytes as int), queue: Seq::empty() },
    ).nodes
}

/// The copies each position has where they are looked for as the search goes.
pub open spec fn found_on_the_way(stretch: &Stretch, params: &HqParams, answers: Seq<Option<Answer>>) -> Seq<
    Seq<BackwardMatch>,
> {
    Seq::new(
        answers.len(),
        |i: int|
            capped(offers(stretch, i, answers[i]), params.effort_of().max_zopfli_len as int),
    )
}

/// Where the positions that a finder is handed end.
pub open spec fn store_end(stretch: &Stretch) -> int {
    if stretch.num_bytes >= STORE_LOOKAHEAD {
        stretch.block_start + stretch.num_bytes - STORE_LOOKAHEAD + 1
    } else {
        stretch.block_start as int
    }
}

/// What a finder is told at a position: it is asked, and handed the rest of a copy
/// that is stepped over, as far as that is recorded.
pub open spec fn told_at(
    stretch: &Stretch,
    params: &HqParams,
    i: int,
    answer: Option<Answer>,
    skip: int,
) -> Seq<Told> {
    let asked = seq![Told::Asked(question(stretch, params, i), (answer->0).tree)];
    let from = stretch.block_start + i;
    if skip > 1 {
        asked.push(
            Told::Stored {
                window: (stretch.data@, stretch.mask),
                from: from + 1,
                to: if from + skip < store_end(stretch) {
                    from + skip
                } else {
                    store_end(stretch)
                },
            },
        )
    } else {
        asked
    }
}

/// What a finder is told by a search from a position on.
pub open spec fn walk_told<C: CostModel>(
    stretch: &Stretch,
    model: &C,
    params: &HqParams,
    answers: Seq<Option<Answer>>,
    i: int,
    search: Search<C::Price>,
) -> Seq<Told>
    decreases stretch.num_bytes - i,
{
    if i + 3 >= stretch.num_bytes {
        Seq::empty()
    } else {
        let cap = params.effort_of().max_zopfli_len as int;
        let found = capped(offers(stretch, i, answers[i]), cap);
        let (priced, longest) = update::updated(
            stretch,
            model,
            params.effort_of(),
            params.dist,
            i,
            found,
            search,
        );
        let skip = stepped_over(longest, found, cap);
        let (last, passed) = skipped(
            stretch,
            model,
            i,
            if skip > 1 {
                skip - 1
            } else {
                0
            },
            priced,
        );
        told_at(stretch, params, i, answers[i], skip) + if i <= last < stretch.num_bytes {
            walk_told(stretch, model, params, answers, last + 1, passed)
        } else {
            Seq::empty()
        }
    }
}

/// What a finder is told by a search.
pub open spec fn search_told<C: CostModel>(
    stretch: &Stretch,
    model: &C,
    params: &HqParams,
    answers: Seq<Option<Answer>>,
) -> Seq<Told> {
    walk_told(
        stretch,
        model,
        params,
        answers,
        0,
        Search { nodes: fresh(model, stretch.num_bytes as int), queue: Seq::empty() },
    )
}

/// What a finder was told up to a position, whatever the later answers are.
pub open spec fn told_to<C: CostModel>(
    stretch: &Stretch,
    model: &C,
    params: &HqParams,
    known: Seq<Option<Answer>>,
    i: int,
    search: Search<C::Price>,
    things: Seq<Told>,
) -> bool {
    forall|answers: Seq<Option<Answer>>| #[trigger]
        same_before(answers, known, i) ==> search_told(stretch, model, params, answers) == things
            + walk_told(stretch, model, params, answers, i, search)
}

/// A finder is told more at one position.
proof fn lemma_told_step<C: CostModel>(
    stretch: &Stretch,
    model: &C,
    params: &HqParams,
    known: Seq<Option<Answer>>,
    answer: Answer,
    i: int,
    search: Search<C::Price>,
    priced: Search<C::Price>,
    longest: int,
    last: int,
    passed: Search<C::Price>,
    things: Seq<Told>,
)
    requires
        0 <= i,
        i + 3 < stretch.num_bytes,
        i < known.len(),
        told_to(stretch, model, params, known, i, search, things),
        ({
            let cap = params.effort_of().max_zopfli_len as int;
            let found = capped(offers(stretch, i, Some(answer)), cap);
            let skip = stepped_over(longest, found, cap);
            &&& (priced, longest) == update::updated(
                stretch,
                model,
                params.effort_of(),
                params.dist,
                i,
                found,
                search,
            )
            &&& (last, passed) == skipped(
                stretch,
                model,
                i,
                if skip > 1 {
                    skip - 1
                } else {
                    0
                },
                priced,
            )
        }),
        i <= last < stretch.num_bytes,
    ensures
        ({
            let cap = params.effort_of().max_zopfli_len as int;
            let found = capped(offers(stretch, i, Some(answer)), cap);
            told_to(
                stretch,
                model,
                params,
                known.update(i, Some(answer)),
                last + 1,
                passed,
                things + told_at(
                    stretch,
                    params,
                    i,
                    Some(answer),
                    stepped_over(longest, found, cap),
                ),
            )
        }),
{
    let cap = params.effort_of().max_zopfli_len as int;
    let found = capped(offers(stretch, i, Some(answer)), cap);
    let here = told_at(stretch, params, i, Some(answer), stepped_over(longest, found, cap));
    let later = known.update(i, Some(answer));
    assert forall|answers: Seq<Option<Answer>>| #[trigger]
        same_before(answers, later, last + 1) implies search_told(stretch, model, params, answers)
        == (things + here) + walk_told(stretch, model, params, answers, last + 1, passed) by {
        assert forall|j: int| 0 <= j < i implies #[trigger] answers[j] == known[j] by {
            assert(answers[j] == later[j]);
        }
        assert(same_before(answers, known, i));
        assert(answers[i] == later[i]);
        assert(things + (here + walk_told(stretch, model, params, answers, last + 1, passed)) =~= (
        things + here) + walk_told(stretch, model, params, answers, last + 1, passed));
    }
}

/// Two lists of nodes have the same commands.
pub open spec fn same_commands<P: Copy>(left: Seq<ZopfliNode<P>>, right: Seq<ZopfliNode<P>>) -> bool {
    &&& left.len() == right.len()
    &&& forall|j: int| 0 <= j < left.len() ==> #[trigger] path::same_command(left[j], right[j])
}

/// The commands of the path through some nodes.
pub open spec fn path_commands<P: Copy>(stretch: &Stretch, nodes: Seq<ZopfliNode<P>>, waiting: int) -> Seq<
    Command,
> {
    path::commands_of(nodes, path::path_end(nodes, stretch.num_bytes as int), waiting)
}

/// Nodes with the same commands make the same path.
proof fn lemma_same_path<P: Copy>(
    stretch: &Stretch,
    left: Seq<ZopfliNode<P>>,
    right: Seq<ZopfliNode<P>>,
    waiting: int,
)
    requires
        same_commands(left, right),
        left.len() == stretch.num_bytes + 1,
    ensures
        path_commands(stretch, left, waiting) == path_commands(stretch, right, waiting),
{
    let n = stretch.num_bytes as int;
    path::lemma_end_frame(left, right, n);
    path::lemma_path_end(left, n);
    path::lemma_commands_frame(left, right, path::path_end(left, n), waiting);
}

/// What two lists hold for the positions before one agrees.
pub open spec fn agree_before(
    left: Seq<Seq<BackwardMatch>>,
    right: Seq<Seq<BackwardMatch>>,
    i: int,
) -> bool {
    forall|j: int| 0 <= j < i ==> #[trigger] left[j] == right[j]
}

/// The search has come to a position, whatever the later ones have.
pub open spec fn walked_to<C: CostModel>(
    stretch: &Stretch,
    model: &C,
    params: &HqParams,
    known: Seq<Seq<BackwardMatch>>,
    i: int,
    search: Search<C::Price>,
) -> bool {
    forall|finds: Seq<Seq<BackwardMatch>>| #[trigger]
        agree_before(finds, known, i) ==> walk(stretch, model, params, finds) == walked(
            stretch,
            model,
            params,
            finds,
            i,
            search,
        ).nodes
}

/// The search goes on by one position and those it steps over.
proof fn lemma_walk_step<C: CostModel>(
    stretch: &Stretch,
    model: &C,
    params: &HqParams,
    known: Seq<Seq<BackwardMatch>>,
    later: Seq<Seq<BackwardMatch>>,
    i: int,
    found: Seq<BackwardMatch>,
    search: Search<C::Price>,
    priced: Search<C::Price>,
    longest: int,
    last: int,
    passed: Search<C::Price>,
)
    requires
        0 <= i,
        i + 3 < stretch.num_bytes,
        walked_to(stretch, model, params, known, i, search),
        agree_before(later, known, i),
        later[i] == found,
        (priced, longest) == update::updated(
            stretch,
            model,
            params.effort_of(),
            params.dist,
            i,
            found,
            search,
        ),
        (last, passed) == skipped(
            stretch,
            model,
            i,
            ({
                let skip = stepped_over(longest, found, params.effort_of().max_zopfli_len as int);
                if skip > 1 {
                    skip - 1
                } else {
                    0
                }
            }),
            priced,
        ),
        i <= last,
    ensures
        walked_to(stretch, model, params, later, last + 1, passed),
{
    assert forall|finds: Seq<Seq<BackwardMatch>>| #[trigger]
        agree_before(finds, later, last + 1) implies walk(stretch, model, params, finds) == walked(
        stretch,
        model,
        params,
        finds,
        last + 1,
        passed,
    ).nodes by {
        assert forall|j: int| 0 <= j < i implies #[trigger] finds[j] == known[j] by {
            assert(finds[j] == later[j]);
            assert(later[j] == known[j]);
        }
        assert(agree_before(finds, known, i));
        assert(finds[i] == later[i]);
    }
}

/// Runs the dynamic program while discovering matches, and returns the finished
/// nodes and the length of the path.
///
/// One query per position, priced at once and then thrown away.
pub fn zopfli_compute_shortest_path<C: CostModel, T: TreeMatcher, A: PrefixMatcher>(
    stretch: &Stretch,
    backend: Backend,
    params: &HqParams,
    model: &mut C,
    matcher: &mut T,
    prefix: &mut A,
) -> (out: (Vec<ZopfliNode<C::Price>>, usize, Ghost<int>))
    requires
        stretch.wf(),
        params.wf(),
    ensures
        searched(stretch, out.0@, out.2@),
        *final(model) == old(model).by_literals(
            stretch.block_start as int,
            stretch.data@,
            stretch.mask,
            stretch.num_bytes as int,
        ),
        exists|answers: Seq<Option<Answer>>| #[trigger]
            answers_ok::<T, A>(stretch, params, answers) && same_commands(
                walk(
                    stretch,
                    final(model),
                    params,
                    found_on_the_way(stretch, params, answers),
                ),
                out.0@,
            ) && candidates::told(
                *old(matcher),
                search_told(stretch, final(model), params, answers),
                *final(matcher),
            ),
        out.1 == path::path_len(out.0@, path::path_end(out.0@, stretch.num_bytes as int)),
{
    let effort = params.effort();
    let stop: usize = if stretch.num_bytes >= STORE_LOOKAHEAD {
        stretch.block_start + stretch.num_bytes - STORE_LOOKAHEAD + 1
    } else {
        stretch.block_start
    };
    model.set_from_literal_costs(
        stretch.block_start,
        stretch.data,
        stretch.mask,
        stretch.num_bytes,
    );
    let mut nodes = fresh_nodes(model, stretch.num_bytes);
    let mut queue: StartPosQueue<C::Price> = StartPosQueue::new();
    let mut i: usize = 0;
    let ghost mut done: int = 0;
    let ghost mut answers: Seq<Option<Answer>> = Seq::new(
        stretch.num_bytes as nat,
        |i: int| None::<Answer>,
    );
    let ghost mut things: Seq<Told> = Seq::empty();
    proof {
        assert forall|other: Seq<Option<Answer>>| #[trigger]
            same_before(other, answers, 0) implies search_told(stretch, model, params, other)
            == things + search_told(stretch, model, params, other) by {
            assert(things + search_told(stretch, model, params, other) =~= search_told(
                stretch,
                model,
                params,
                other,
            ));
        }
        assert(queue.entries@ =~= Seq::empty());
        assert(nodes@ == fresh(model, stretch.num_bytes as int));
        lemma_fresh(stretch, nodes@);
    }
    while i + 3 < stretch.num_bytes
        invariant
            effort == params.effort_of(),
            stop == store_end(stretch),
            answers_ok::<T, A>(stretch, params, answers),
            walked_to(
                stretch,
                model,
                params,
                found_on_the_way(stretch, params, answers),
                i as int,
                (Search { nodes: nodes@, queue: queue.entries@ }),
            ),
            answers.len() == stretch.num_bytes,
            candidates::told(*old(matcher), things, *matcher),
            told_to(
                stretch,
                model,
                params,
                answers,
                i as int,
                (Search { nodes: nodes@, queue: queue.entries@ }),
                things,
            ),
            *model == old(model).by_literals(
                stretch.block_start as int,
                stretch.data@,
                stretch.mask,
                stretch.num_bytes as int,
            ),
            stretch.wf(),
            params.wf(),
            i <= stretch.num_bytes,
            update::progress(stretch, nodes@, queue.entries@, done),
            i + 3 < stretch.num_bytes ==> done == i,
        decreases stretch.num_bytes - i,
    {
        let position: usize = stretch.block_start + i;
        let ghost search = Search { nodes: nodes@, queue: queue.entries@ };
        let ghost finder = *matcher;
        let (copies, Ghost(answer)) = found_at(stretch, backend, params, matcher, prefix, i);
        let ghost mut here = seq![Told::Asked(question(stretch, params, i as int), answer.tree)];
        proof {
            candidates::lemma_told(*old(matcher), things, finder, here[0], *matcher);
            assert(things.push(here[0]) =~= things + here);
        }
        let found = cap_found(copies, effort.max_zopfli_len);
        let longest: usize = update_nodes(
            stretch,
            backend,
            model,
            &effort,
            &params.dist,
            i,
            found.as_slice(),
            &mut queue,
            &mut nodes,
        );
        let ghost priced = Search { nodes: nodes@, queue: queue.entries@ };
        let skip: usize = step_over(longest, found.as_slice(), effort.max_zopfli_len);
        if skip > 1 {
            proof {
                if found@.len() == 1 {
                    assert(stretch.genuine(i as int, found@[0]));
                }
            }
            // The tail of the copy still has to be recorded, or later positions
            // would not see it.
            let tail: usize = position + skip;
            let ghost finder = *matcher;
            matcher.store_range(
                stretch.data,
                stretch.mask,
                position + 1,
                if tail < stop {
                    tail
                } else {
                    stop
                },
            );
            proof {
                let stored = Told::Stored {
                    window: (stretch.data@, stretch.mask),
                    from: position + 1,
                    to: if tail < stop {
                        tail as int
                    } else {
                        stop as int
                    },
                };
                candidates::lemma_told(*old(matcher), things + here, finder, stored, *matcher);
                assert((things + here).push(stored) =~= things + here.push(stored));
                here = here.push(stored);
            }
        }
        assert(here =~= told_at(stretch, params, i as int, Some(answer), skip as int));
        let last: usize = evaluate_skipped(stretch, model, i, skip, &mut queue, &mut nodes);
        proof {
            let known = found_on_the_way(stretch, params, answers);
            lemma_told_step(
                stretch,
                model,
                params,
                answers,
                answer,
                i as int,
                search,
                priced,
                longest as int,
                last as int,
                (Search { nodes: nodes@, queue: queue.entries@ }),
                things,
            );
            things = things + here;
            answers = answers.update(i as int, Some(answer));
            let later = found_on_the_way(stretch, params, answers);
            assert(agree_before(later, known, i as int));
            assert(later[i as int] == found@);
            lemma_walk_step(
                stretch,
                model,
                params,
                known,
                later,
                i as int,
                found@,
                search,
                priced,
                longest as int,
                last as int,
                (Search { nodes: nodes@, queue: queue.entries@ }),
            );
            done = if last + 3 < stretch.num_bytes {
                last + 1
            } else {
                last as int
            };
        }
        i = last + 1;
    }
    proof {
        let known = found_on_the_way(stretch, params, answers);
        assert(same_before(answers, answers, i as int));
        assert(search_told(stretch, model, params, answers) =~= things);
        assert(agree_before(known, known, i as int));
        assert(walk(stretch, model, params, known) == nodes@);
    }
    let ghost walked_nodes = nodes@;
    let count: usize = compute_shortest_path_from_nodes(stretch, &mut nodes, Ghost(done));
    assert(same_commands(walked_nodes, nodes@));
    (nodes, count, Ghost(done))
}

/// What the commands of a block are, whatever they cost: they account for every
/// byte, read back to the input, and leave the state a decoder would be in.
pub open spec fn written(
    stretch: &Stretch,
    before: ZopfliState,
    after: ZopfliState,
    made: Seq<Command>,
) -> bool {
    let first = 0 - before.last_insert_len;
    &&& stretch.faithful(first, made)
    &&& after.dist_cache@ == stretch.replayed(first, made).1
    &&& backward_references::accounted(made) + after.last_insert_len == before.last_insert_len
        + stretch.num_bytes
    &&& after.num_literals == before.num_literals + backward_references::inserted(made)
    &&& path::distances_ok(after.dist_cache@)
}

/// Turns finished nodes into commands.
fn emit<P: Copy>(
    stretch: &Stretch,
    nodes: &Vec<ZopfliNode<P>>,
    state: &mut ZopfliState,
    commands: &mut Vec<Command>,
    Ghost(done): Ghost<int>,
)
    requires
        stretch.wf(),
        searched(stretch, nodes@, done),
        old(state).dist_cache@ == stretch.starting@,
        old(state).num_literals + old(state).last_insert_len + stretch.num_bytes <= usize::MAX,
    ensures
        old(commands)@.len() <= final(commands)@.len(),
        final(commands)@.take(old(commands)@.len() as int) == old(commands)@,
        written(
            stretch,
            *old(state),
            *final(state),
            final(commands)@.skip(old(commands)@.len() as int),
        ),
        final(commands)@ == old(commands)@ + path_commands(
            stretch,
            nodes@,
            old(state).last_insert_len as int,
        ),
{
    let ghost before = commands@;
    let ghost state_before = *state;
    create_commands(stretch, nodes, state, commands, Ghost(done));
    proof {
        let end = path::path_end(nodes@, stretch.num_bytes as int);
        let waiting = state_before.last_insert_len as int;
        let made = path::commands_of(nodes@, end, waiting);
        path::lemma_path_end(nodes@, stretch.num_bytes as int);
        stretch.lemma_commands_faithful(nodes@, end, done, waiting);
        assert(commands@.take(before.len() as int) =~= before);
        assert(commands@.skip(before.len() as int) =~= made);
        if end == 0 {
            assert(made =~= Seq::empty());
            assert(stretch.faithful(0 - waiting, made));
            assert(stretch.replayed(0 - waiting, made).1 == stretch.starting@);
        }
    }
}

/// Turns one block into commands: one cost model, one pass.
pub fn create_zopfli_backward_references<C: CostModel, T: TreeMatcher, A: PrefixMatcher>(
    stretch: &Stretch,
    backend: Backend,
    params: &HqParams,
    model: &mut C,
    matcher: &mut T,
    prefix: &mut A,
    state: &mut ZopfliState,
    commands: &mut Vec<Command>,
)
    requires
        stretch.wf(),
        params.wf(),
        old(state).dist_cache@ == stretch.starting@,
        old(state).num_literals + old(state).last_insert_len + stretch.num_bytes <= usize::MAX,
    ensures
        old(commands)@.len() <= final(commands)@.len(),
        final(commands)@.take(old(commands)@.len() as int) == old(commands)@,
        written(
            stretch,
            *old(state),
            *final(state),
            final(commands)@.skip(old(commands)@.len() as int),
        ),
        *final(model) == old(model).by_literals(
            stretch.block_start as int,
            stretch.data@,
            stretch.mask,
            stretch.num_bytes as int,
        ),
        exists|answers: Seq<Option<Answer>>| #[trigger]
            answers_ok::<T, A>(stretch, params, answers) && final(commands)@ == old(commands)@
                + path_commands(
                stretch,
                walk(
                    stretch,
                    final(model),
                    params,
                    found_on_the_way(stretch, params, answers),
                ),
                old(state).last_insert_len as int,
            ) && candidates::told(
                *old(matcher),
                search_told(stretch, final(model), params, answers),
                *final(matcher),
            ),
{
    let (nodes, _count, Ghost(done)) = zopfli_compute_shortest_path(
        stretch,
        backend,
        params,
        model,
        matcher,
        prefix,
    );
    let ghost waiting = state.last_insert_len as int;
    emit(stretch, &nodes, state, commands, Ghost(done));
    proof {
        let answers = choose|answers: Seq<Option<Answer>>| #[trigger]
            answers_ok::<T, A>(stretch, params, answers) && same_commands(
                walk(stretch, model, params, found_on_the_way(stretch, params, answers)),
                nodes@,
            ) && candidates::told(
                *old(matcher),
                search_told(stretch, model, params, answers),
                *matcher,
            );
        let known = found_on_the_way(stretch, params, answers);
        lemma_same_path(stretch, walk(stretch, model, params, known), nodes@, waiting);
        assert(answers_ok::<T, A>(stretch, params, answers));
    }
}

/// How many matches come before a position's in the arena.
pub open spec fn offset_of(counts: Seq<usize>, i: int) -> int
    decreases i,
{
    if i <= 0 {
        0
    } else {
        offset_of(counts, i - 1) + counts[i - 1]
    }
}

/// Offsets depend on the counts before them alone.
proof fn lemma_offset_frame(before: Seq<usize>, after: Seq<usize>, i: int)
    requires
        forall|j: int| 0 <= j < i ==> #[trigger] before[j] == after[j],
    ensures
        offset_of(before, i) == offset_of(after, i),
    decreases i,
{
    if i > 0 {
        lemma_offset_frame(before, after, i - 1);
    }
}

/// Offsets never fall.
proof fn lemma_offset_grows(counts: Seq<usize>, i: int, j: int)
    requires
        0 <= i <= j,
    ensures
        0 <= offset_of(counts, i) <= offset_of(counts, j),
    decreases j,
{
    if i < j {
        lemma_offset_grows(counts, i, j - 1);
    } else if i > 0 {
        lemma_offset_grows(counts, i - 1, i - 1);
    }
}

/// Empty positions add nothing.
proof fn lemma_offset_flat(counts: Seq<usize>, i: int, j: int)
    requires
        0 <= i <= j,
        forall|k: int| i <= k < j ==> #[trigger] counts[k] == 0,
    ensures
        offset_of(counts, i) == offset_of(counts, j),
    decreases j,
{
    if i < j {
        lemma_offset_flat(counts, i, j - 1);
    }
}

/// The arena holds every position's matches end to end.
pub open spec fn arena_ok(stretch: &Stretch, arena: Seq<BackwardMatch>, counts: Seq<usize>) -> bool {
    &&& counts.len() == stretch.num_bytes
    &&& offset_of(counts, counts.len() as int) == arena.len()
    &&& forall|i: int| 0 <= i < counts.len() ==> #[trigger] slice_ok(stretch, arena, counts, i)
}

/// One position's matches are what they say.
pub open spec fn slice_ok(
    stretch: &Stretch,
    arena: Seq<BackwardMatch>,
    counts: Seq<usize>,
    i: int,
) -> bool {
    forall|k: int|
        offset_of(counts, i) <= k < offset_of(counts, i) + counts[i] ==> stretch.genuine(
            i,
            #[trigger] arena[k],
        )
}

/// How many positions a list of copies settles.
pub open spec fn settles(kept: Seq<BackwardMatch>, cap: int) -> int {
    if kept.len() > 0 && kept.last().length > cap {
        kept.last().length as int
    } else {
        1
    }
}

/// The copies of every position from one on, end to end, and how many each has.
pub open spec fn collected(
    stretch: &Stretch,
    params: &HqParams,
    answers: Seq<Option<Answer>>,
    i: int,
    arena: Seq<BackwardMatch>,
    counts: Seq<usize>,
) -> (Seq<BackwardMatch>, Seq<usize>)
    decreases stretch.num_bytes - i,
{
    let cap = params.effort_of().max_zopfli_len as int;
    if i + 3 >= stretch.num_bytes {
        (arena, counts)
    } else {
        let kept = capped(offers(stretch, i, answers[i]), cap);
        let step = settles(kept, cap);
        if step < 1 || i + step > stretch.num_bytes {
            (arena, counts)
        } else {
            collected(
                stretch,
                params,
                answers,
                i + step,
                arena + kept,
                counts.update(i, kept.len() as usize),
            )
        }
    }
}

/// The copies of every position, by what the finders answered.
pub open spec fn collection(stretch: &Stretch, params: &HqParams, answers: Seq<Option<Answer>>) -> (
    Seq<BackwardMatch>,
    Seq<usize>,
) {
    collected(
        stretch,
        params,
        answers,
        0,
        Seq::empty(),
        Seq::new(stretch.num_bytes as nat, |i: int| 0usize),
    )
}

/// What a finder is told while the copies of every position from one on are found.
pub open spec fn collect_told(
    stretch: &Stretch,
    params: &HqParams,
    answers: Seq<Option<Answer>>,
    i: int,
) -> Seq<Told>
    decreases stretch.num_bytes - i,
{
    let cap = params.effort_of().max_zopfli_len as int;
    if i + 3 >= stretch.num_bytes {
        Seq::empty()
    } else {
        let kept = capped(offers(stretch, i, answers[i]), cap);
        let step = settles(kept, cap);
        if step < 1 || i + step > stretch.num_bytes {
            Seq::empty()
        } else {
            told_at(
                stretch,
                params,
                i,
                answers[i],
                if kept.len() > 0 && kept.last().length > cap {
                    step
                } else {
                    0
                },
            ) + collect_told(stretch, params, answers, i + step)
        }
    }
}

/// The collection has come to a position, whatever the later answers are.
pub open spec fn collected_to(
    stretch: &Stretch,
    params: &HqParams,
    known: Seq<Option<Answer>>,
    i: int,
    arena: Seq<BackwardMatch>,
    counts: Seq<usize>,
    things: Seq<Told>,
) -> bool {
    forall|answers: Seq<Option<Answer>>| #[trigger]
        same_before(answers, known, i) ==> collection(stretch, params, answers) == collected(
            stretch,
            params,
            answers,
            i,
            arena,
            counts,
        ) && collect_told(stretch, params, answers, 0) == things + collect_told(
            stretch,
            params,
            answers,
            i,
        )
}

/// Two lists of answers agree before a position.
pub open spec fn same_before(left: Seq<Option<Answer>>, right: Seq<Option<Answer>>, i: int) -> bool {
    forall|j: int| 0 <= j < i ==> #[trigger] left[j] == right[j]
}

/// The collection goes on by one position and those it settles.
proof fn lemma_collect_step(
    stretch: &Stretch,
    params: &HqParams,
    known: Seq<Option<Answer>>,
    i: int,
    answer: Option<Answer>,
    arena: Seq<BackwardMatch>,
    counts: Seq<usize>,
    things: Seq<Told>,
    here: Seq<Told>,
)
    requires
        0 <= i,
        i + 3 < stretch.num_bytes,
        i < known.len(),
        collected_to(stretch, params, known, i, arena, counts, things),
        ({
            let cap = params.effort_of().max_zopfli_len as int;
            let kept = capped(offers(stretch, i, answer), cap);
            here == told_at(
                stretch,
                params,
                i,
                answer,
                if kept.len() > 0 && kept.last().length > cap {
                    settles(kept, cap)
                } else {
                    0
                },
            )
        }),
    ensures
        ({
            let cap = params.effort_of().max_zopfli_len as int;
            let kept = capped(offers(stretch, i, answer), cap);
            settles(kept, cap) >= 1 && i + settles(kept, cap) <= stretch.num_bytes ==> collected_to(
                stretch,
                params,
                known.update(i, answer),
                i + settles(kept, cap),
                arena + kept,
                counts.update(i, kept.len() as usize),
                things + here,
            )
        }),
{
    let cap = params.effort_of().max_zopfli_len as int;
    let kept = capped(offers(stretch, i, answer), cap);
    let later = known.update(i, answer);
    let next = i + settles(kept, cap);
    if settles(kept, cap) >= 1 && next <= stretch.num_bytes {
        assert forall|answers: Seq<Option<Answer>>| #[trigger]
            same_before(answers, later, next) implies collection(stretch, params, answers)
            == collected(
            stretch,
            params,
            answers,
            next,
            arena + kept,
            counts.update(i, kept.len() as usize),
        ) && collect_told(stretch, params, answers, 0) == (things + here) + collect_told(
            stretch,
            params,
            answers,
            next,
        ) by {
            assert forall|j: int| 0 <= j < i implies #[trigger] answers[j] == known[j] by {
                assert(answers[j] == later[j]);
            }
            assert(same_before(answers, known, i));
            assert(answers[i] == later[i]);
            let rest = collect_told(stretch, params, answers, next);
            assert(things + (here + rest) =~= (things + here) + rest);
        }
    }
}

/// Finds every position's matches once, up front.
///
/// A copy past the cap settles the positions it covers: only it is kept, and the
/// positions it covers record none.
pub fn collect_matches<T: TreeMatcher, A: PrefixMatcher>(
    stretch: &Stretch,
    backend: Backend,
    params: &HqParams,
    matcher: &mut T,
    prefix: &mut A,
) -> (out: (Vec<BackwardMatch>, Vec<usize>))
    requires
        stretch.wf(),
        params.wf(),
    ensures
        arena_ok(stretch, out.0@, out.1@),
        exists|answers: Seq<Option<Answer>>| #[trigger]
            answers_ok::<T, A>(stretch, params, answers) && (out.0@, out.1@) == collection(
                stretch,
                params,
                answers,
            ) && candidates::told(
                *old(matcher),
                collect_told(stretch, params, answers, 0),
                *final(matcher),
            ),
{
    let effort = params.effort();
    let stop: usize = if stretch.num_bytes >= STORE_LOOKAHEAD {
        stretch.block_start + stretch.num_bytes - STORE_LOOKAHEAD + 1
    } else {
        stretch.block_start
    };
    let mut arena: Vec<BackwardMatch> = Vec::new();
    let mut counts: Vec<usize> = Vec::new();
    counts.resize(stretch.num_bytes, 0);
    let mut i: usize = 0;
    let ghost mut answers: Seq<Option<Answer>> = Seq::new(
        stretch.num_bytes as nat,
        |i: int| None::<Answer>,
    );
    let ghost mut things: Seq<Told> = Seq::empty();
    proof {
        assert forall|other: Seq<Option<Answer>>| #[trigger]
            same_before(other, answers, 0) implies collect_told(stretch, params, other, 0) == things
            + collect_told(stretch, params, other, 0) by {
            assert(things + collect_told(stretch, params, other, 0) =~= collect_told(
                stretch,
                params,
                other,
                0,
            ));
        }
        assert(arena@ =~= Seq::empty());
        assert(counts@ =~= Seq::new(stretch.num_bytes as nat, |i: int| 0usize));
    }
    while i + 3 < stretch.num_bytes
        invariant
            effort == params.effort_of(),
            stop == store_end(stretch),
            answers_ok::<T, A>(stretch, params, answers),
            collected_to(stretch, params, answers, i as int, arena@, counts@, things),
            candidates::told(*old(matcher), things, *matcher),
            stretch.wf(),
            params.wf(),
            i <= stretch.num_bytes,
            counts@.len() == stretch.num_bytes,
            offset_of(counts@, i as int) == arena@.len(),
            forall|j: int| i <= j < counts@.len() ==> #[trigger] counts@[j] == 0,
            forall|j: int| 0 <= j < i ==> #[trigger] slice_ok(stretch, arena@, counts@, j),
        decreases stretch.num_bytes - i,
    {
        let position: usize = stretch.block_start + i;
        let ghost finder = *matcher;
        let (copies, Ghost(answer)) = found_at(stretch, backend, params, matcher, prefix, i);
        let ghost mut here = seq![Told::Asked(question(stretch, params, i as int), answer.tree)];
        proof {
            candidates::lemma_told(*old(matcher), things, finder, here[0], *matcher);
            assert(things.push(here[0]) =~= things + here);
        }
        let mut kept = cap_found(copies, effort.max_zopfli_len);
        let ghost held = arena@;
        let ghost counted = counts@;
        let ghost added = kept@;
        let many: usize = kept.len();
        let mut step: usize = 1;
        if kept.len() > 0 {
            let longest: usize = kept[kept.len() - 1].length;
            assert(stretch.genuine(i as int, kept@[kept@.len() - 1]));
            if longest > effort.max_zopfli_len {
                let tail: usize = position + longest;
                let ghost finder = *matcher;
                matcher.store_range(
                    stretch.data,
                    stretch.mask,
                    position + 1,
                    if tail < stop {
                        tail
                    } else {
                        stop
                    },
                );
                proof {
                    let stored = Told::Stored {
                        window: (stretch.data@, stretch.mask),
                        from: position + 1,
                        to: if tail < stop {
                            tail as int
                        } else {
                            stop as int
                        },
                    };
                    candidates::lemma_told(*old(matcher), things + here, finder, stored, *matcher);
                    assert((things + here).push(stored) =~= things + here.push(stored));
                    here = here.push(stored);
                }
                step = longest;
            }
        }
        arena.append(&mut kept);
        counts.set(i, many);
        proof {
            assert(arena@ =~= held + added);
            let cap = params.effort_of().max_zopfli_len as int;
            assert(here =~= told_at(
                stretch,
                params,
                i as int,
                Some(answer),
                if added.len() > 0 && added.last().length > cap {
                    settles(added, cap)
                } else {
                    0
                },
            ));
            lemma_collect_step(
                stretch,
                params,
                answers,
                i as int,
                Some(answer),
                held,
                counted,
                things,
                here,
            );
            things = things + here;
            answers = answers.update(i as int, Some(answer));
            lemma_offset_frame(counted, counts@, i as int);
            assert(offset_of(counts@, i + 1) == arena@.len());
            lemma_offset_flat(counts@, i + 1, i + step);
            assert forall|j: int| 0 <= j < i + step implies #[trigger] slice_ok(
                stretch,
                arena@,
                counts@,
                j,
            ) by {
                if j < i {
                    assert(slice_ok(stretch, held, counted, j));
                    lemma_offset_frame(counted, counts@, j);
                    lemma_offset_frame(counted, counts@, j + 1);
                    lemma_offset_grows(counted, j + 1, i as int);
                    lemma_offset_grows(counted, j, j + 1);
                    assert forall|k: int|
                        offset_of(counts@, j) <= k < offset_of(counts@, j)
                            + counts@[j] implies stretch.genuine(j, #[trigger] arena@[k]) by {
                        assert(arena@[k] == held[k]);
                    }
                } else if j == i {
                    assert forall|k: int|
                        offset_of(counts@, j) <= k < offset_of(counts@, j)
                            + counts@[j] implies stretch.genuine(j, #[trigger] arena@[k]) by {
                        assert(arena@[k] == added[k - held.len()]);
                    }
                }
            }
        }
        i += step;
    }
    proof {
        assert(same_before(answers, answers, i as int));
        assert(collect_told(stretch, params, answers, 0) =~= things);
        lemma_offset_flat(counts@, i as int, counts@.len() as int);
        assert forall|j: int| 0 <= j < counts@.len() implies #[trigger] slice_ok(
            stretch,
            arena@,
            counts@,
            j,
        ) by {}
    }
    (arena, counts)
}

/// The copies each position has in an arena.
pub open spec fn found_in(arena: Seq<BackwardMatch>, counts: Seq<usize>) -> Seq<Seq<BackwardMatch>> {
    Seq::new(
        counts.len(),
        |i: int| arena.subrange(offset_of(counts, i), offset_of(counts, i) + counts[i]),
    )
}

/// Runs the dynamic program over matches already found.
pub fn zopfli_iterate<C: CostModel>(
    stretch: &Stretch,
    backend: Backend,
    params: &HqParams,
    model: &C,
    counts: &Vec<usize>,
    arena: &Vec<BackwardMatch>,
) -> (out: (Vec<ZopfliNode<C::Price>>, usize, Ghost<int>))
    requires
        stretch.wf(),
        params.wf(),
        arena_ok(stretch, arena@, counts@),
    ensures
        searched(stretch, out.0@, out.2@),
        same_commands(walk(stretch, model, params, found_in(arena@, counts@)), out.0@),
        out.1 == path::path_len(out.0@, path::path_end(out.0@, stretch.num_bytes as int)),
{
    let effort = params.effort();
    let total: usize = arena.len();
    let mut nodes = fresh_nodes(model, stretch.num_bytes);
    let mut queue: StartPosQueue<C::Price> = StartPosQueue::new();
    let mut i: usize = 0;
    let mut from: usize = 0;
    let ghost mut done: int = 0;
    proof {
        assert(queue.entries@ =~= Seq::empty());
        lemma_fresh(stretch, nodes@);
    }
    let ghost finds = found_in(arena@, counts@);
    let ghost whole = walk(stretch, model, params, finds);
    while i + 3 < stretch.num_bytes
        invariant
            effort == params.effort_of(),
            finds == found_in(arena@, counts@),
            walked(
                stretch,
                model,
                params,
                finds,
                i as int,
                (Search { nodes: nodes@, queue: queue.entries@ }),
            ).nodes == whole,
            stretch.wf(),
            params.wf(),
            arena_ok(stretch, arena@, counts@),
            total == arena@.len(),
            i <= stretch.num_bytes,
            update::progress(stretch, nodes@, queue.entries@, done),
            i + 3 < stretch.num_bytes ==> done == i && from == offset_of(counts@, i as int),
        decreases stretch.num_bytes - i,
    {
        let count: usize = counts[i];
        proof {
            lemma_offset_grows(counts@, i + 1, counts@.len() as int);
            lemma_offset_grows(counts@, i as int, i + 1);
            assert(slice_ok(stretch, arena@, counts@, i as int));
        }
        let found = &arena.as_slice()[from..from + count];
        assert(found@ =~= finds[i as int]);
        proof {
            assert forall|k: int| 0 <= k < found@.len() implies stretch.genuine(
                i as int,
                #[trigger] found@[k],
            ) by {
                assert(found@[k] == arena@[from + k]);
            }
        }
        let longest: usize = update_nodes(
            stretch,
            backend,
            model,
            &effort,
            &params.dist,
            i,
            found,
            &mut queue,
            &mut nodes,
        );
        let skip: usize = step_over(longest, found, effort.max_zopfli_len);
        let last: usize = evaluate_skipped(stretch, model, i, skip, &mut queue, &mut nodes);
        from += count;
        let mut passed: usize = i + 1;
        while passed <= last
            invariant
                arena_ok(stretch, arena@, counts@),
                total == arena@.len(),
                i < passed <= last + 1,
                last <= stretch.num_bytes - 3,
                from == offset_of(counts@, passed as int),
                stretch.num_bytes >= 4,
            decreases last + 1 - passed,
        {
            proof {
                lemma_offset_grows(counts@, passed + 1, counts@.len() as int);
            }
            from += counts[passed];
            passed += 1;
        }
        proof {
            done = if last + 3 < stretch.num_bytes {
                last + 1
            } else {
                last as int
            };
        }
        i = last + 1;
    }
    let ghost walked_nodes = nodes@;
    let count: usize = compute_shortest_path_from_nodes(stretch, &mut nodes, Ghost(done));
    assert(same_commands(walked_nodes, nodes@));
    (nodes, count, Ghost(done))
}

/// The commands of two passes over a block, by what the finders answered, and the
/// model they leave: the second pass is priced by the commands of the first.
pub open spec fn two_passes<C: CostModel>(
    stretch: &Stretch,
    model: &C,
    params: &HqParams,
    answers: Seq<Option<Answer>>,
    waiting: int,
) -> (Seq<Command>, C) {
    let (arena, counts) = collection(stretch, params, answers);
    let finds = found_in(arena, counts);
    let first = model.by_literals(
        stretch.block_start as int,
        stretch.data@,
        stretch.mask,
        stretch.num_bytes as int,
    );
    let draft = path_commands(stretch, walk(stretch, &first, params, finds), waiting);
    let second = first.by_commands(
        stretch.block_start as int,
        stretch.data@,
        stretch.mask,
        draft,
        waiting,
        stretch.num_bytes as int,
    );
    (path_commands(stretch, walk(stretch, &second, params, finds), waiting), second)
}

/// Turns one block into commands: every position's matches are found once, and
/// the dynamic program runs twice, the second time priced by the commands the
/// first produced.
pub fn create_hq_zopfli_backward_references<C: CostModel, T: TreeMatcher, A: PrefixMatcher>(
    stretch: &Stretch,
    backend: Backend,
    params: &HqParams,
    model: &mut C,
    matcher: &mut T,
    prefix: &mut A,
    state: &mut ZopfliState,
    commands: &mut Vec<Command>,
)
    requires
        stretch.wf(),
        params.wf(),
        old(state).dist_cache@ == stretch.starting@,
        old(state).num_literals + old(state).last_insert_len + stretch.num_bytes <= usize::MAX,
    ensures
        old(commands)@.len() <= final(commands)@.len(),
        final(commands)@.take(old(commands)@.len() as int) == old(commands)@,
        written(
            stretch,
            *old(state),
            *final(state),
            final(commands)@.skip(old(commands)@.len() as int),
        ),
        exists|answers: Seq<Option<Answer>>| #[trigger]
            answers_ok::<T, A>(stretch, params, answers) && ({
                let (made, priced) = two_passes(
                    stretch,
                    old(model),
                    params,
                    answers,
                    old(state).last_insert_len as int,
                );
                final(commands)@ == old(commands)@ + made && *final(model) == priced
            }) && candidates::told(
                *old(matcher),
                collect_told(stretch, params, answers, 0),
                *final(matcher),
            ),
{
    let (arena, counts) = collect_matches(stretch, backend, params, matcher, prefix);
    // The state the second pass has to start from again.
    let held_literals: usize = state.num_literals;
    let held_insert: usize = state.last_insert_len;
    let held_cache: [i32; 4] = state.dist_cache;
    let held_commands: usize = commands.len();
    let ghost earlier = commands@;
    let ghost answers = choose|answers: Seq<Option<Answer>>| #[trigger]
        answers_ok::<T, A>(stretch, params, answers) && (arena@, counts@) == collection(
            stretch,
            params,
            answers,
        ) && candidates::told(
            *old(matcher),
            collect_told(stretch, params, answers, 0),
            *matcher,
        );
    let ghost finds = found_in(arena@, counts@);
    let ghost waiting = state.last_insert_len as int;

    model.set_from_literal_costs(
        stretch.block_start,
        stretch.data,
        stretch.mask,
        stretch.num_bytes,
    );
    let (nodes, _count, Ghost(done)) = zopfli_iterate(
        stretch,
        backend,
        params,
        model,
        &counts,
        &arena,
    );
    emit(stretch, &nodes, state, commands, Ghost(done));
    proof {
        lemma_same_path(stretch, walk(stretch, model, params, finds), nodes@, waiting);
        assert(commands@.skip(held_commands as int) =~= path_commands(stretch, nodes@, waiting));
    }

    model.set_from_commands(
        stretch.block_start,
        stretch.data,
        stretch.mask,
        &commands.as_slice()[held_commands..commands.len()],
        held_insert,
        stretch.num_bytes,
    );
    commands.truncate(held_commands);
    assert(commands@ =~= earlier);
    state.num_literals = held_literals;
    state.last_insert_len = held_insert;
    state.dist_cache = held_cache;
    let (nodes, _count, Ghost(done)) = zopfli_iterate(
        stretch,
        backend,
        params,
        model,
        &counts,
        &arena,
    );
    emit(stretch, &nodes, state, commands, Ghost(done));
    proof {
        lemma_same_path(stretch, walk(stretch, model, params, finds), nodes@, waiting);
        assert(answers_ok::<T, A>(stretch, params, answers));
    }
}

} // verus!
