//! The copies a position offers.
use vstd::prelude::*;

use crate::backend::Backend;
use crate::greedy::search::MAX_MATCH;
use crate::hq::path;
use crate::hq::path::Stretch;
use crate::shared::match_len;
use crate::shared::match_len::{find_match_length, match_len_bytes, match_len_words};

verus! {

/// Shortest attached-dictionary match that is collected.
pub const MIN_PREFIX_MATCH_LENGTH: usize = 3;

/// Most attached-dictionary matches one position may contribute.
pub const MAX_PREFIX_MATCHES: usize = 64;

/// One copy a position offers.
#[derive(Copy, Clone, Debug, PartialEq, Eq, Structural)]
pub struct BackwardMatch {
    /// How far back it starts.
    pub distance: usize,
    /// How long it is.
    pub length: usize,
    /// The length its code is chosen by.
    pub length_code: usize,
}

impl BackwardMatch {
    /// Creates a match whose coded length is its length.
    pub fn new(distance: usize, length: usize) -> (found: Self)
        ensures
            found == (BackwardMatch { distance, length, length_code: length }),
    {
        BackwardMatch { distance, length, length_code: length }
    }
}

/// What the finders are asked at a position.
pub struct Asked {
    /// The ring buffer and its mask.
    pub window: (Seq<u8>, usize),
    /// The position.
    pub position: int,
    /// The longest copy.
    pub max_length: int,
    /// The longest distance inside the window, and inside it and the dictionaries.
    pub reach: (int, int),
    /// The longest distance the alphabet can express.
    pub max_distance: int,
    /// How far back the nearest positions are tried one by one.
    pub short_scan: int,
}

impl<'a> MatchRequest<'a> {
    /// What the request asks.
    pub open spec fn asks(&self) -> Asked {
        Asked {
            window: (self.data@, self.mask),
            position: self.position as int,
            max_length: self.max_length as int,
            reach: (self.max_backward as int, self.dictionary_distance as int),
            max_distance: self.max_distance as int,
            short_scan: self.short_scan as int,
        }
    }
}

/// What a finder is told.
pub enum Told {
    /// It was asked for the copies at a position, and reported these.
    Asked(Asked, Seq<BackwardMatch>),
    /// It was handed positions to record.
    Stored {
        /// The ring buffer and its mask.
        window: (Seq<u8>, usize),
        /// The first position.
        from: int,
        /// The position after the last.
        to: int,
    },
}

/// A finder is another one that was told some things, in order.
pub open spec fn told<T: TreeMatcher>(before: T, things: Seq<Told>, after: T) -> bool
    decreases things.len(),
{
    if things.len() == 0 {
        before == after
    } else {
        exists|between: T|
            #![trigger T::does(between, things.last(), after)]
            told(before, things.drop_last(), between) && T::does(between, things.last(), after)
    }
}

/// One more thing that a finder is told.
pub proof fn lemma_told<T: TreeMatcher>(
    before: T,
    things: Seq<Told>,
    between: T,
    thing: Told,
    after: T,
)
    requires
        told(before, things, between),
        T::does(between, thing, after),
    ensures
        told(before, things.push(thing), after),
{
    assert(things.push(thing).drop_last() =~= things);
    assert(T::does(between, things.push(thing).last(), after));
}

/// Finds the copies a window offers at a position, in order of length.
///
/// What a finder reports is measured again before it is used; a kind of finder says
/// nothing but what it can report.
pub trait TreeMatcher: Sized {
    /// A finder of this kind can report these copies, whatever was recorded before.
    open spec fn offers(asked: Asked, found: Seq<BackwardMatch>) -> bool {
        arbitrary()
    }

    /// A finder of this kind can become another one when it is told something.
    open spec fn does(before: Self, told: Told, after: Self) -> bool {
        arbitrary()
    }

    /// Finds the copies at `pos` and records it.
    fn find_all_matches(&mut self, request: MatchRequest) -> (found: Vec<BackwardMatch>)
        ensures
            Self::offers(request.asks(), found@),
            Self::does(*old(self), Told::Asked(request.asks(), found@), *final(self)),
    ;

    /// Records the positions from `from` up to `to`.
    fn store_range(&mut self, data: &[u8], mask: usize, from: usize, to: usize)
        ensures
            Self::does(
                *old(self),
                Told::Stored { window: (data@, mask), from: from as int, to: to as int },
                *final(self),
            ),
    ;
}

/// Finds the copies attached dictionaries offer at a position, as distances and
/// lengths in order of length.
///
/// A kind of finder says nothing but what it can report.
pub trait PrefixMatcher: Sized {
    /// A finder of this kind can report these copies.
    open spec fn offers(
        asked: Asked,
        shortest: usize,
        limit: usize,
        found: Seq<(usize, usize)>,
    ) -> bool {
        arbitrary()
    }

    /// Finds at most `limit` copies of at least `shortest` bytes.
    fn find_all_matches(&mut self, request: MatchRequest, shortest: usize, limit: usize) -> (found: Vec<
        (usize, usize),
    >)
        ensures
            Self::offers(request.asks(), shortest, limit, found@),
    ;
}

/// No attached dictionary: there is nothing to report.
pub struct NoPrefix;

impl PrefixMatcher for NoPrefix {
    open spec fn offers(
        asked: Asked,
        shortest: usize,
        limit: usize,
        found: Seq<(usize, usize)>,
    ) -> bool {
        found.len() == 0
    }

    fn find_all_matches(&mut self, request: MatchRequest, shortest: usize, limit: usize) -> Vec<
        (usize, usize),
    > {
        Vec::new()
    }
}

/// A window without copies: there is nothing to report or to record.
pub struct NoCopies;

impl TreeMatcher for NoCopies {
    open spec fn offers(asked: Asked, found: Seq<BackwardMatch>) -> bool {
        found.len() == 0
    }

    open spec fn does(before: Self, told: Told, after: Self) -> bool {
        before == after
    }

    fn find_all_matches(&mut self, request: MatchRequest) -> Vec<BackwardMatch> {
        Vec::new()
    }

    fn store_range(&mut self, data: &[u8], mask: usize, from: usize, to: usize) {
    }
}

/// What a finder is asked.
#[derive(Copy, Clone)]
pub struct MatchRequest<'a> {
    /// The ring buffer.
    pub data: &'a [u8],
    /// Mask that turns a position into a buffer index.
    pub mask: usize,
    /// The position.
    pub position: usize,
    /// The longest copy.
    pub max_length: usize,
    /// The longest distance inside the window.
    pub max_backward: usize,
    /// Where distances start to name dictionary words.
    pub dictionary_distance: usize,
    /// The longest distance the alphabet can express.
    pub max_distance: usize,
    /// How far back the nearest positions are tried one by one.
    pub short_scan: usize,
}

/// The merged order of two lists: by length, then by distance.
pub open spec fn merged(prefix: Seq<(usize, usize)>, tree: Seq<BackwardMatch>) -> Seq<BackwardMatch>
    decreases prefix.len() + tree.len(),
{
    if prefix.len() == 0 {
        tree
    } else {
        let (distance, length) = prefix[0];
        let head = BackwardMatch { distance, length, length_code: length };
        if tree.len() == 0 || length < tree[0].length || (length == tree[0].length && distance
            < tree[0].distance) {
            seq![head] + merged(prefix.skip(1), tree)
        } else {
            seq![tree[0]] + merged(prefix, tree.skip(1))
        }
    }
}

/// Merges attached-dictionary matches into the window's.
///
/// Both lists ascend in length and so does the result, with the smaller distance
/// first on a tie.
pub fn merge_prefix_matches(prefix: &Vec<(usize, usize)>, tree: &mut Vec<BackwardMatch>)
    ensures
        final(tree)@ == merged(prefix@, old(tree)@),
{
    if prefix.len() == 0 {
        return;
    }
    let ghost whole = merged(prefix@, tree@);
    let mut out: Vec<BackwardMatch> = Vec::new();
    let mut left: usize = 0;
    let mut right: usize = 0;
    assert(prefix@.skip(0) =~= prefix@);
    assert(tree@.skip(0) =~= tree@);
    assert(Seq::<BackwardMatch>::empty() + whole =~= whole);
    while left < prefix.len() || right < tree.len()
        invariant
            left <= prefix@.len(),
            right <= tree@.len(),
            tree@ == old(tree)@,
            whole == out@ + merged(prefix@.skip(left as int), tree@.skip(right as int)),
        decreases prefix@.len() - left + tree@.len() - right,
    {
        let ghost front = prefix@.skip(left as int);
        let ghost back = tree@.skip(right as int);
        let ghost done = out@;
        let take_left: bool = left < prefix.len() && (right >= tree.len() || prefix[left].1
            < tree[right].length || (prefix[left].1 == tree[right].length && prefix[left].0
            < tree[right].distance));
        if take_left {
            let found = BackwardMatch::new(prefix[left].0, prefix[left].1);
            out.push(found);
            proof {
                assert(front.skip(1) =~= prefix@.skip(left + 1));
                assert(done + (seq![found] + merged(front.skip(1), back)) =~= out@ + merged(
                    front.skip(1),
                    back,
                ));
            }
            left += 1;
        } else {
            let found = tree[right];
            out.push(found);
            proof {
                assert(back.skip(1) =~= tree@.skip(right + 1));
                if front.len() == 0 {
                    assert(done + back =~= out@ + back.skip(1));
                    assert(merged(front, back.skip(1)) == back.skip(1));
                } else {
                    assert(done + (seq![found] + merged(front, back.skip(1))) =~= out@ + merged(
                        front,
                        back.skip(1),
                    ));
                }
            }
            right += 1;
        }
    }
    proof {
        assert(out@ + merged(prefix@.skip(left as int), tree@.skip(right as int)) =~= out@);
    }
    *tree = out;
}

/// Matches ascend in length.
pub open spec fn ascending(found: Seq<BackwardMatch>) -> bool {
    forall|i: int, j: int|
        0 <= i <= j < found.len() ==> (#[trigger] found[i]).length <= (#[trigger] found[j]).length
}

/// Attached-dictionary matches ascend in length.
pub open spec fn pairs_ascending(found: Seq<(usize, usize)>) -> bool {
    forall|i: int, j: int|
        0 <= i <= j < found.len() ==> (#[trigger] found[i]).1 <= (#[trigger] found[j]).1
}

/// Merging two ascending lists gives an ascending list with every match of both.
pub proof fn lemma_merged_ascends(prefix: Seq<(usize, usize)>, tree: Seq<BackwardMatch>)
    requires
        pairs_ascending(prefix),
        ascending(tree),
    ensures
        ascending(merged(prefix, tree)),
        merged(prefix, tree).len() == prefix.len() + tree.len(),
        merged(prefix, tree).len() > 0 ==> {
            let head = merged(prefix, tree)[0].length;
            &&& prefix.len() > 0 ==> head <= prefix[0].1
            &&& tree.len() > 0 ==> head <= tree[0].length
            &&& (prefix.len() > 0 && head == prefix[0].1) || (tree.len() > 0 && head == tree[0].length)
        },
    decreases prefix.len() + tree.len(),
{
    if prefix.len() > 0 {
        let (distance, length) = prefix[0];
        if tree.len() == 0 || length < tree[0].length || (length == tree[0].length && distance
            < tree[0].distance) {
            assert(pairs_ascending(prefix.skip(1))) by {
                assert forall|i: int, j: int| 0 <= i <= j < prefix.skip(1).len() implies (
                #[trigger] prefix.skip(1)[i]).1 <= (#[trigger] prefix.skip(1)[j]).1 by {
                    assert(prefix[i + 1].1 <= prefix[j + 1].1);
                }
            }
            lemma_merged_ascends(prefix.skip(1), tree);
            if prefix.len() > 1 {
                assert(prefix[0].1 <= prefix[1].1);
            }
            lemma_ascends_from(
                BackwardMatch { distance, length, length_code: length },
                merged(prefix.skip(1), tree),
            );
        } else {
            assert(ascending(tree.skip(1))) by {
                assert forall|i: int, j: int| 0 <= i <= j < tree.skip(1).len() implies (
                #[trigger] tree.skip(1)[i]).length <= (#[trigger] tree.skip(1)[j]).length by {
                    assert(tree[i + 1].length <= tree[j + 1].length);
                }
            }
            lemma_merged_ascends(prefix, tree.skip(1));
            if tree.len() > 1 {
                assert(tree[0].length <= tree[1].length);
            }
            lemma_ascends_from(tree[0], merged(prefix, tree.skip(1)));
        }
    }
}

/// A shorter match in front keeps a list ascending.
proof fn lemma_ascends_from(head: BackwardMatch, rest: Seq<BackwardMatch>)
    requires
        ascending(rest),
        rest.len() > 0 ==> head.length <= rest[0].length,
    ensures
        ascending(seq![head] + rest),
{
    let whole = seq![head] + rest;
    assert forall|i: int, j: int| 0 <= i <= j < whole.len() implies (#[trigger] whole[i]).length <= (
    #[trigger] whole[j]).length by {
        if i > 0 {
            assert(rest[i - 1].length <= rest[j - 1].length);
        } else if j > 0 {
            assert(rest[0].length <= rest[j - 1].length);
        }
    }
}

/// Returns how many leading bytes two windows share, at most `limit`.
pub fn prefix_match_length(left: &[u8], right: &[u8], limit: usize) -> (matched: usize)
    ensures
        ({
            let shorter = if left@.len() < right@.len() {
                left@.len() as int
            } else {
                right@.len() as int
            };
            match_len::is_match_length(
                left@,
                right@,
                if limit < shorter {
                    limit as int
                } else {
                    shorter
                },
                matched as int,
            )
        }),
{
    let shorter: usize = if left.len() < right.len() {
        left.len()
    } else {
        right.len()
    };
    let whole: usize = if limit < shorter {
        limit
    } else {
        shorter
    };
    let a = &left[0..whole];
    let b = &right[0..whole];
    assert(forall|i: int| 0 <= i < whole ==> #[trigger] a@[i] == left@[i] && b@[i] == right@[i]);
    let words: usize = match_len_words(a, b);
    let even: usize = whole - whole % 8;
    if words < even {
        assert(a@[words as int] != b@[words as int]);
        assert(match_len::agree(left@, right@, words as int)) by {
            assert forall|i: int| 0 <= i < words implies #[trigger] left@[i] == right@[i] by {
                assert(a@[i] == b@[i]);
            }
        }
        return words;
    }
    let a_rest = &a[even..whole];
    let b_rest = &b[even..whole];
    let more: usize = match_len_bytes(a_rest, b_rest);
    proof {
        assert forall|i: int| 0 <= i < even + more implies #[trigger] left@[i] == right@[i] by {
            if i < even {
                assert(a@[i] == b@[i]);
            } else {
                assert(a_rest@[i - even] == b_rest@[i - even]);
            }
        }
        if even + more < whole {
            assert(a_rest@[more as int] != b_rest@[more as int]);
        }
    }
    even + more
}

/// A place in the attached dictionaries.
pub open spec fn lies_in(attached: Seq<Vec<u8>>, logical: int, k: int, offset: int) -> bool {
    &&& 0 <= k < attached.len()
    &&& 0 <= offset < attached[k]@.len()
    &&& logical == path::bytes_before(attached, k) + offset
}

/// Returns the dictionary that holds the attached byte `logical`, and where in it.
pub fn locate(attached: &[Vec<u8>], logical: usize) -> (place: Option<(usize, usize)>)
    ensures
        match place {
            Some((k, offset)) => lies_in(attached@, logical as int, k as int, offset as int),
            None => logical >= path::bytes_before(attached@, attached@.len() as int),
        },
{
    let mut k: usize = 0;
    let mut rest: usize = logical;
    while k < attached.len()
        invariant
            k <= attached@.len(),
            logical == path::bytes_before(attached@, k as int) + rest,
        decreases attached@.len() - k,
    {
        let len: usize = attached[k].len();
        if rest < len {
            return Some((k, rest));
        }
        rest -= len;
        k += 1;
    }
    None
}

impl<'a> Stretch<'a> {
    /// A match holds what it promises.
    pub open spec fn genuine(&self, at: int, found: BackwardMatch) -> bool {
        &&& 2 <= found.length
        &&& self.reproduces(at, found.length as int, found.distance as int)
        &&& found.distance <= 0x7FFF_FFFF
        &&& 2 <= found.length_code <= MAX_MATCH
    }

    /// Returns whether a match holds what it promises.
    pub fn is_genuine(&self, backend: Backend, at: usize, found: BackwardMatch) -> (verdict: bool)
        requires
            self.wf(),
            at <= self.num_bytes,
        ensures
            verdict == self.genuine(at as int, found),
    {
        if found.length < 2 || found.length > self.num_bytes - at || found.distance < 1
            || found.distance > 0x7FFF_FFFF || found.length_code < 2 || found.length_code
            > MAX_MATCH {
            return false;
        }
        let position: usize = self.block_start + at;
        let reach: usize = if position < self.limit {
            position
        } else {
            self.limit
        };
        let here: usize = position & self.mask;
        if found.distance <= reach {
            let back: usize = (position - found.distance) & self.mask;
            let len: usize = find_match_length(backend, self.data, back, here, found.length);
            proof {
                if back + found.length <= self.data@.len() && here + found.length
                    <= self.data@.len() && len < found.length {
                    assert(self.data@.skip(back as int)[len as int] != self.data@.skip(
                        here as int,
                    )[len as int]);
                }
            }
            len == found.length
        } else if found.distance <= reach + self.gap {
            let logical: usize = reach + self.gap - found.distance;
            self.is_held(at, logical, found)
        } else {
            found.distance <= self.max_distance
        }
    }

    /// Returns whether the attached dictionaries hold a match.
    fn is_held(&self, at: usize, logical: usize, found: BackwardMatch) -> (verdict: bool)
        requires
            self.wf(),
            2 <= found.length <= self.num_bytes - at,
            at <= self.num_bytes,
            logical == self.reach(at as int) + self.gap - found.distance,
            self.reach(at as int) < found.distance,
        ensures
            verdict == exists|k: int| #[trigger]
                self.held_in(k, at as int, found.length as int, found.distance as int),
    {
        let here: usize = (self.block_start + at) & self.mask;
        let ghost wanted = found.length as int;
        match locate(self.attached, logical) {
            None => {
                proof {
                    assert forall|k: int| !#[trigger] self.held_in(
                        k,
                        at as int,
                        wanted,
                        found.distance as int,
                    ) by {
                        if 0 <= k < self.attached@.len() {
                            lemma_before_grows(self.attached@, k + 1, self.attached@.len() as int);
                        }
                    }
                }
                false
            },
            Some((segment, offset)) => {
                let source = self.attached[segment].as_slice();
                proof {
                    assert forall|k: int| #[trigger]
                        self.held_in(k, at as int, wanted, found.distance as int) implies k
                        == segment by {
                        if k < segment {
                            lemma_before_grows(self.attached@, k + 1, segment as int);
                        } else if k > segment {
                            lemma_before_grows(self.attached@, segment + 1, k);
                        }
                    }
                }
                if found.length > source.len() - offset || here > self.data.len() || found.length
                    > self.data.len() - here {
                    return false;
                }
                let candidate = &source[offset..source.len()];
                let target = &self.data[here..self.data.len()];
                assert(candidate@ =~= self.attached@[segment as int]@.skip(offset as int));
                assert(target@ =~= self.data@.skip(here as int));
                let len: usize = prefix_match_length(candidate, target, found.length);
                let verdict: bool = len == found.length;
                proof {
                    if verdict {
                        assert(self.held_in(
                            segment as int,
                            at as int,
                            wanted,
                            found.distance as int,
                        ));
                    } else {
                        assert(candidate@[len as int] != target@[len as int]);
                    }
                }
                verdict
            },
        }
    }

    /// Drops the matches that do not hold what they promise.
    pub fn keep_genuine(&self, backend: Backend, at: usize, found: &Vec<BackwardMatch>) -> (kept: Vec<
        BackwardMatch,
    >)
        requires
            self.wf(),
            at <= self.num_bytes,
        ensures
            kept@ == found@.filter(|m: BackwardMatch| self.genuine(at as int, m)),
            forall|i: int| 0 <= i < kept@.len() ==> self.genuine(at as int, #[trigger] kept@[i]),
            kept@.len() <= found@.len(),
    {
        let ghost test = |m: BackwardMatch| self.genuine(at as int, m);
        let mut kept: Vec<BackwardMatch> = Vec::new();
        let mut i: usize = 0;
        proof {
            reveal(Seq::filter);
            assert(found@.take(0).filter(test) =~= Seq::empty());
        }
        while i < found.len()
            invariant
                self.wf(),
                at <= self.num_bytes,
                i <= found@.len(),
                test == (|m: BackwardMatch| self.genuine(at as int, m)),
                kept@ == found@.take(i as int).filter(test),
                forall|j: int| 0 <= j < kept@.len() ==> self.genuine(at as int, #[trigger] kept@[j]),
                kept@.len() <= i,
            decreases found@.len() - i,
        {
            proof {
                reveal(Seq::filter);
                assert(found@.take(i + 1).drop_last() =~= found@.take(i as int));
            }
            if self.is_genuine(backend, at, found[i]) {
                kept.push(found[i]);
            }
            i += 1;
        }
        assert(found@.take(found@.len() as int) =~= found@);
        kept
    }
}

/// Later dictionaries have no fewer bytes before them.
pub proof fn lemma_before_grows(attached: Seq<Vec<u8>>, j: int, k: int)
    requires
        0 <= j <= k,
    ensures
        path::bytes_before(attached, j) <= path::bytes_before(attached, k),
    decreases k,
{
    if j < k {
        lemma_before_grows(attached, j, k - 1);
    }
}

} // verus!
