//! Paths through a block: what a chain of commands copies and which distances
//! it leaves cached.
use vstd::prelude::*;

use crate::greedy::backward_references;
use crate::greedy::backward_references::{Command, MAX_GAP, MAX_POSITION};
use crate::greedy::search::{MAX_BUFFER, MAX_MATCH};
use crate::hq::nodes::ZopfliNode;
use crate::shared::match_len;

verus! {

/// The stretch of input one search runs over.
pub struct Stretch<'a> {
    /// The ring buffer.
    pub data: &'a [u8],
    /// Mask that turns a position into a buffer index.
    pub mask: usize,
    /// Where the stretch starts.
    pub block_start: usize,
    /// How long it is.
    pub num_bytes: usize,
    /// The longest backward distance.
    pub limit: usize,
    /// The longest distance the alphabet can express.
    pub max_distance: usize,
    /// How much attached dictionary lies past the window.
    pub gap: usize,
    /// The attached dictionaries, oldest first.
    pub attached: &'a [Vec<u8>],
    /// The distances cached where the stretch starts.
    pub starting: [i32; 4],
}

/// Four distances a decoder may hold, with room for their neighbours.
pub open spec fn distances_ok(cache: Seq<i32>) -> bool {
    &&& cache.len() == 4
    &&& forall|i: int| 0 <= i < 4 ==> 1 <= #[trigger] cache[i] <= i32::MAX - 3
}

/// How many attached bytes come before a dictionary.
pub open spec fn bytes_before(attached: Seq<Vec<u8>>, k: int) -> int
    decreases k,
{
    if k <= 0 {
        0
    } else {
        bytes_before(attached, k - 1) + attached[k - 1]@.len()
    }
}

impl<'a> Stretch<'a> {
    /// The stretch is one an encoder sets up.
    pub open spec fn wf(&self) -> bool {
        &&& self.data@.len() <= MAX_BUFFER
        &&& self.num_bytes <= MAX_MATCH
        &&& self.block_start + self.num_bytes <= MAX_POSITION
        &&& self.limit <= 0x3FFF_FFF0
        &&& self.max_distance <= 0x7FFF_FFFF
        &&& self.gap < MAX_GAP
        &&& self.gap == bytes_before(self.attached@, self.attached@.len() as int)
        &&& distances_ok(self.starting@)
    }

    /// How far back a copy at an offset reaches inside the window.
    pub open spec fn reach(&self, at: int) -> int {
        if self.block_start + at < self.limit {
            self.block_start + at
        } else {
            self.limit as int
        }
    }

    /// The buffer index of an offset.
    pub open spec fn here(&self, at: int) -> int {
        (((self.block_start + at) as usize) & self.mask) as int
    }

    /// The buffer index a distance back from an offset.
    pub open spec fn back(&self, at: int, distance: int) -> int {
        (((self.block_start + at - distance) as usize) & self.mask) as int
    }

    /// Bytes that repeat inside the window.
    pub open spec fn repeats(&self, at: int, len: int, distance: int) -> bool {
        &&& self.back(at, distance) + len <= self.data@.len()
        &&& self.here(at) + len <= self.data@.len()
        &&& match_len::agree(
            self.data@.skip(self.back(at, distance)),
            self.data@.skip(self.here(at)),
            len,
        )
    }

    /// Bytes one attached dictionary holds.
    pub open spec fn held_in(&self, k: int, at: int, len: int, distance: int) -> bool {
        let logical = self.reach(at) + self.gap - distance;
        let offset = logical - bytes_before(self.attached@, k);
        &&& 0 <= k < self.attached@.len()
        &&& 0 <= offset
        &&& offset + len <= self.attached@[k]@.len()
        &&& self.here(at) + len <= self.data@.len()
        &&& match_len::agree(
            self.attached@[k]@.skip(offset),
            self.data@.skip(self.here(at)),
            len,
        )
    }

    /// A copy reproduces the input: it repeats bytes of the window or of an
    /// attached dictionary, or it names a word past both.
    pub open spec fn reproduces(&self, at: int, len: int, distance: int) -> bool {
        &&& 1 <= len
        &&& 0 <= at
        &&& at + len <= self.num_bytes
        &&& 1 <= distance
        &&& distance <= self.reach(at) ==> self.repeats(at, len, distance)
        &&& self.reach(at) < distance <= self.reach(at) + self.gap ==> exists|k: int| #[trigger]
            self.held_in(k, at, len, distance)
        &&& self.reach(at) + self.gap < distance ==> distance <= self.max_distance
    }

    /// The first bytes of a copy that names no word are a copy too.
    pub proof fn lemma_shorter_copy(&self, at: int, len: int, shorter: int, distance: int)
        requires
            self.reproduces(at, len, distance),
            1 <= shorter <= len,
            distance <= self.reach(at) + self.gap,
        ensures
            self.reproduces(at, shorter, distance),
    {
        if distance > self.reach(at) {
            let k = choose|k: int| #[trigger] self.held_in(k, at, len, distance);
            assert(self.held_in(k, at, shorter, distance));
        }
    }

    /// The cache after a command.
    pub open spec fn cache_after(&self, at: int, distance: int, code: int, cache: Seq<i32>) -> Seq<i32> {
        if distance <= self.reach(at) + self.gap && code > 0 {
            seq![distance as i32, cache[0], cache[1], cache[2]]
        } else {
            cache
        }
    }

    /// Where a list of commands leads, and the cache it leaves.
    pub open spec fn replayed(&self, first: int, commands: Seq<Command>) -> (int, Seq<i32>)
        decreases commands.len(),
    {
        if commands.len() == 0 {
            (first, self.starting@)
        } else {
            let (position, held) = self.replayed(first, commands.drop_last());
            let command = commands.last();
            let at = position + command.insert_len;
            let code = command.distance_code as int;
            (
                at + command.copy_len,
                self.cache_after(at, backward_references::decoded_distance(code, held), code, held),
            )
        }
    }

    /// Every command of a list, read back in order, reproduces the input; no word is
    /// named by a cached distance.
    pub open spec fn faithful(&self, first: int, commands: Seq<Command>) -> bool
        decreases commands.len(),
    {
        commands.len() > 0 ==> {
            let (position, held) = self.replayed(first, commands.drop_last());
            let command = commands.last();
            let distance = backward_references::decoded_distance(
                command.distance_code as int,
                held,
            );
            &&& self.faithful(first, commands.drop_last())
            &&& self.reproduces(
                position + command.insert_len,
                command.copy_len as int,
                distance,
            )
            &&& command.distance_code < 16 ==> distance <= self.reach(
                position + command.insert_len,
            ) + self.gap
        }
    }
}

/// Where the command that ends at a position starts.
pub open spec fn start_of<P: Copy>(nodes: Seq<ZopfliNode<P>>, i: int) -> int {
    i - nodes[i].command_len()
}

impl<'a> Stretch<'a> {
    /// The command that ends at a position leaves its distance cached.
    pub open spec fn remembers<P: Copy>(&self, nodes: Seq<ZopfliNode<P>>, i: int) -> bool {
        &&& nodes[i].distance <= self.reach(i - nodes[i].copy_length) + self.gap
        &&& nodes[i].code() > 0
    }

    /// The distances cached after the path to a position.
    pub open spec fn path_cache<P: Copy>(&self, nodes: Seq<ZopfliNode<P>>, i: int) -> Seq<i32>
        decreases i,
    {
        if i <= 0 || !(0 <= start_of(nodes, i) < i) {
            self.starting@
        } else {
            let held = self.path_cache(nodes, start_of(nodes, i));
            if self.remembers(nodes, i) {
                seq![nodes[i].distance as i32, held[0], held[1], held[2]]
            } else {
                held
            }
        }
    }

    /// The command that ends at a position is a real one that starts at an
    /// earlier position of a path.
    pub open spec fn edge_ok<P: Copy>(&self, nodes: Seq<ZopfliNode<P>>, i: int, done: int) -> bool {
        let node = nodes[i];
        let start = start_of(nodes, i);
        &&& node.copy_length >= 2
        &&& 0 <= start < done
        &&& i - node.copy_length < done
        &&& start == 0 || nodes[start].reached()
        &&& self.reproduces(i - node.copy_length, node.copy_length as int, node.distance as int)
        &&& node.distance <= 0x7FFF_FFFF
        &&& node.short_code <= 16
        &&& node.length_code <= MAX_MATCH
        &&& node.short_code > 0 ==> node.distance <= self.reach(i - node.copy_length) + self.gap
        &&& node.short_code > 0 ==> backward_references::decoded_distance(
            node.short_code - 1,
            self.path_cache(nodes, start),
        ) == node.distance
    }

    /// Every position is either unreached or reached by a real command.
    pub open spec fn sound<P: Copy>(&self, nodes: Seq<ZopfliNode<P>>, done: int) -> bool {
        &&& nodes.len() == self.num_bytes + 1
        &&& nodes[0].copy_length == 0
        &&& nodes[0].insert_length == 0
        &&& forall|i: int|
            1 <= i <= self.num_bytes ==> #[trigger] self.settled(nodes, i, done)
    }

    /// One position is either unreached or reached by a real command.
    pub open spec fn settled<P: Copy>(&self, nodes: Seq<ZopfliNode<P>>, i: int, done: int) -> bool {
        if nodes[i].reached() {
            self.edge_ok(nodes, i, done)
        } else {
            &&& nodes[i].copy_length == 1
            &&& nodes[i].insert_length == 0
            &&& nodes[i].distance == 0
            &&& nodes[i].short_code == 0
        }
    }

    /// The position whose command supplies the distance cached at a position.
    pub open spec fn shortcut_of<P: Copy>(&self, nodes: Seq<ZopfliNode<P>>, i: int) -> int {
        if i == 0 {
            0
        } else if self.remembers(nodes, i) {
            i
        } else {
            nodes[start_of(nodes, i)].shortcut as int
        }
    }

    /// The shortcuts of the first positions are in place.
    pub open spec fn shortcuts_ok<P: Copy>(&self, nodes: Seq<ZopfliNode<P>>, done: int) -> bool {
        forall|i: int| 0 <= i < done ==> (#[trigger] nodes[i]).shortcut == self.shortcut_of(nodes, i)
    }

    /// The distances a chain of shortcuts visits, the latest first.
    pub open spec fn recent<P: Copy>(&self, nodes: Seq<ZopfliNode<P>>, p: int) -> Seq<i32>
        decreases p,
    {
        if p <= 0 || !(0 <= start_of(nodes, p) < p) || nodes[start_of(nodes, p)].shortcut >= p {
            Seq::empty()
        } else {
            seq![nodes[p].distance as i32] + self.recent(
                nodes,
                nodes[start_of(nodes, p)].shortcut as int,
            )
        }
    }

    /// Two node lists that describe the same commands up to a position leave the
    /// same distances cached there.
    pub proof fn lemma_cache_frame<P: Copy>(
        &self,
        before: Seq<ZopfliNode<P>>,
        after: Seq<ZopfliNode<P>>,
        i: int,
    )
        requires
            0 <= i < before.len(),
            before.len() == after.len(),
            forall|j: int| 0 <= j <= i ==> #[trigger] same_command(before[j], after[j]),
        ensures
            self.path_cache(before, i) == self.path_cache(after, i),
        decreases i,
    {
        assert(same_command(before[i], after[i]));
        if i > 0 && 0 <= start_of(before, i) < i {
            self.lemma_cache_frame(before, after, start_of(before, i));
        }
    }

    /// The cached distances of a path are real ones.
    pub proof fn lemma_cache_ok<P: Copy>(&self, nodes: Seq<ZopfliNode<P>>, i: int, done: int)
        requires
            self.wf(),
            self.sound(nodes, done),
            0 <= i <= self.num_bytes,
            i == 0 || nodes[i].reached(),
        ensures
            distances_ok(self.path_cache(nodes, i)),
        decreases i,
    {
        if i > 0 {
            assert(self.settled(nodes, i, done));
            self.lemma_cache_ok(nodes, start_of(nodes, i), done);
        }
    }

    /// Following shortcuts yields the distances that running the path's commands
    /// leaves cached: the latest of the chain, then those of the start.
    pub proof fn lemma_chain_is_cache<P: Copy>(&self, nodes: Seq<ZopfliNode<P>>, i: int, done: int)
        requires
            self.wf(),
            self.sound(nodes, done),
            self.shortcuts_ok(nodes, i + 1),
            0 <= i <= self.num_bytes,
            i == 0 || nodes[i].reached(),
        ensures
            0 <= nodes[i].shortcut <= i,
            nodes[i].shortcut == 0 || nodes[nodes[i].shortcut as int].reached(),
            self.path_cache(nodes, i) == (self.recent(nodes, nodes[i].shortcut as int)
                + self.starting@).take(4),
        decreases i,
    {
        assert(nodes[i].shortcut == self.shortcut_of(nodes, i));
        if i == 0 {
            assert((self.recent(nodes, 0) + self.starting@).take(4) =~= self.starting@);
        } else {
            assert(self.settled(nodes, i, done));
            let start = start_of(nodes, i);
            self.lemma_chain_is_cache(nodes, start, done);
            let tail = self.recent(nodes, nodes[start].shortcut as int) + self.starting@;
            if self.remembers(nodes, i) {
                let held = self.path_cache(nodes, start);
                assert(held == tail.take(4));
                assert(self.recent(nodes, i) == seq![nodes[i].distance as i32] + self.recent(
                    nodes,
                    nodes[start].shortcut as int,
                ));
                assert(self.recent(nodes, i) + self.starting@ =~= seq![nodes[i].distance as i32]
                    + tail);
                assert(seq![nodes[i].distance as i32, held[0], held[1], held[2]] =~= (seq![
                    nodes[i].distance as i32,
                ] + tail).take(4));
            }
        }
    }
}

/// Two nodes describe the same command.
pub open spec fn same_command<P: Copy>(a: ZopfliNode<P>, b: ZopfliNode<P>) -> bool {
    &&& a.copy_length == b.copy_length
    &&& a.length_code == b.length_code
    &&& a.distance == b.distance
    &&& a.short_code == b.short_code
    &&& a.insert_length == b.insert_length
}

/// The last position a command reaches.
pub open spec fn path_end<P: Copy>(nodes: Seq<ZopfliNode<P>>, i: int) -> int
    decreases i,
{
    if i <= 0 || nodes[i].reached() {
        i
    } else {
        path_end(nodes, i - 1)
    }
}

/// How many commands the path to a position has.
pub open spec fn path_len<P: Copy>(nodes: Seq<ZopfliNode<P>>, i: int) -> int
    decreases i,
{
    if i <= 0 || !(0 <= start_of(nodes, i) < i) {
        0
    } else {
        1 + path_len(nodes, start_of(nodes, i))
    }
}

/// The command that ends at a position.
pub open spec fn command_at<P: Copy>(nodes: Seq<ZopfliNode<P>>, i: int, waiting: int) -> Command {
    Command {
        insert_len: (nodes[i].insert_length + if start_of(nodes, i) == 0 {
            waiting
        } else {
            0
        }) as usize,
        copy_len: nodes[i].copy_length,
        len_code_delta: (nodes[i].length_code - nodes[i].copy_length) as i32,
        distance_code: nodes[i].code() as usize,
    }
}

/// The commands of the path to a position; literals left over from before go
/// into the first.
pub open spec fn commands_of<P: Copy>(nodes: Seq<ZopfliNode<P>>, i: int, waiting: int) -> Seq<Command>
    decreases i,
{
    if i <= 0 || !(0 <= start_of(nodes, i) < i) {
        Seq::empty()
    } else {
        commands_of(nodes, start_of(nodes, i), waiting).push(command_at(nodes, i, waiting))
    }
}

/// The path to a position passes a lower one, and every start from there on
/// names the command that follows.
pub open spec fn links_down<P: Copy>(nodes: Seq<ZopfliNode<P>>, from: int, i: int) -> bool
    decreases i,
{
    from == i || {
        &&& i > 0
        &&& 0 <= from <= start_of(nodes, i) < i
        &&& nodes[start_of(nodes, i)].next == Some(nodes[i].command_len() as usize)
        &&& links_down(nodes, from, start_of(nodes, i))
    }
}

/// Links above a position do not depend on what lies below it.
proof fn lemma_links_frame<P: Copy>(
    before: Seq<ZopfliNode<P>>,
    after: Seq<ZopfliNode<P>>,
    from: int,
    i: int,
)
    requires
        0 <= from <= i < before.len(),
        before.len() == after.len(),
        forall|j: int| from <= j <= i ==> #[trigger] same_command(before[j], after[j]),
        forall|j: int| from <= j <= i ==> (#[trigger] before[j]).next == after[j].next,
        links_down(before, from, i),
    ensures
        links_down(after, from, i),
    decreases i,
{
    assert(same_command(before[i], after[i]));
    if from != i {
        assert(before[start_of(before, i)].next == after[start_of(before, i)].next);
        lemma_links_frame(before, after, from, start_of(before, i));
    }
}

/// A chain of links grows by the command below it.
proof fn lemma_links_extend<P: Copy>(nodes: Seq<ZopfliNode<P>>, from: int, i: int)
    requires
        links_down(nodes, from, i),
        0 < from,
        0 <= start_of(nodes, from) < from,
        nodes[start_of(nodes, from)].next == Some(nodes[from].command_len() as usize),
    ensures
        links_down(nodes, start_of(nodes, from), i),
    decreases i,
{
    if from != i {
        lemma_links_extend(nodes, from, start_of(nodes, i));
    } else {
        assert(links_down(nodes, start_of(nodes, from), start_of(nodes, from)));
    }
}

/// A link leads to the next position of the path.
proof fn lemma_links_forward<P: Copy>(nodes: Seq<ZopfliNode<P>>, from: int, i: int)
    requires
        links_down(nodes, from, i),
        0 <= from,
        from != i,
        i < nodes.len() <= usize::MAX,
    ensures
        nodes[from].next is Some,
        0 < nodes[from].next->0,
        from + nodes[from].next->0 <= i,
        start_of(nodes, from + nodes[from].next->0) == from,
        links_down(nodes, from + nodes[from].next->0, i),
    decreases i,
{
    if start_of(nodes, i) != from {
        lemma_links_forward(nodes, from, start_of(nodes, i));
    }
}

/// Returns the position whose command supplies the distance cached at `pos`.
///
/// A command that leaves the cache alone, a dictionary reference or one coded
/// with the last distance, is transparent: the shortcut points straight past it.
pub fn compute_distance_shortcut<P: Copy>(
    stretch: &Stretch,
    pos: usize,
    nodes: &Vec<ZopfliNode<P>>,
) -> (shortcut: usize)
    requires
        stretch.wf(),
        stretch.sound(nodes@, pos as int),
        pos <= stretch.num_bytes,
    ensures
        shortcut == stretch.shortcut_of(nodes@, pos as int),
{
    if pos == 0 {
        return 0;
    }
    assert(stretch.settled(nodes@, pos as int, pos as int));
    let node = nodes[pos];
    let copied: usize = node.copy_length;
    let at: usize = stretch.block_start + pos - copied;
    let reach: usize = if at < stretch.limit {
        at
    } else {
        stretch.limit
    };
    if node.distance <= reach + stretch.gap && node.distance_code() > 0 {
        pos
    } else {
        nodes[pos - copied - node.insert_length].shortcut
    }
}

/// Returns the four distances in effect at `pos`.
///
/// Walks the shortcut chain backwards until it has four distances or runs out of
/// block; whatever the chain cannot supply comes in order from the distances the
/// block started with.
pub fn compute_distance_cache<P: Copy>(
    stretch: &Stretch,
    pos: usize,
    nodes: &Vec<ZopfliNode<P>>,
    Ghost(done): Ghost<int>,
) -> (cache: [i32; 4])
    requires
        stretch.wf(),
        stretch.sound(nodes@, done),
        stretch.shortcuts_ok(nodes@, pos + 1),
        pos <= stretch.num_bytes,
        pos == 0 || nodes@[pos as int].reached(),
    ensures
        cache@ == stretch.path_cache(nodes@, pos as int),
        distances_ok(cache@),
{
    proof {
        stretch.lemma_chain_is_cache(nodes@, pos as int, done);
        stretch.lemma_cache_ok(nodes@, pos as int, done);
    }
    let mut cache: [i32; 4] = stretch.starting;
    let mut idx: usize = 0;
    let mut p: usize = nodes[pos].shortcut;
    let ghost chain = stretch.recent(nodes@, p as int);
    while idx < 4 && p > 0
        invariant
            stretch.wf(),
            stretch.sound(nodes@, done),
            stretch.shortcuts_ok(nodes@, pos + 1),
            idx <= 4,
            p <= pos <= stretch.num_bytes,
            p == 0 || nodes@[p as int].reached(),
            chain.len() >= idx,
            chain =~= chain.take(idx as int) + stretch.recent(nodes@, p as int),
            forall|j: int| 0 <= j < idx ==> #[trigger] cache@[j] == chain[j],
        decreases p,
    {
        proof {
            assert(stretch.settled(nodes@, p as int, done));
            stretch.lemma_chain_is_cache(nodes@, start_of(nodes@, p as int), done);
        }
        let node = nodes[p];
        let below: usize = p - node.copy_length - node.insert_length;
        let ghost rest = stretch.recent(nodes@, p as int);
        proof {
            assert(rest == seq![node.distance as i32] + stretch.recent(
                nodes@,
                nodes@[below as int].shortcut as int,
            ));
            assert(chain[idx as int] == rest[0]);
        }
        cache[idx] = node.distance as i32;
        idx += 1;
        p = nodes[below].shortcut;
        proof {
            assert(chain.take(idx as int) =~= chain.take(idx - 1).push(node.distance as i32));
            assert(chain =~= chain.take(idx as int) + stretch.recent(nodes@, p as int));
        }
    }
    let ghost filled = idx as int;
    let mut from: usize = 0;
    while idx < 4
        invariant
            filled <= idx <= 4,
            from == idx - filled,
            0 <= filled <= 4,
            filled == 4 || chain.len() == filled,
            chain.len() >= filled,
            stretch.starting@.len() == 4,
            forall|j: int| 0 <= j < filled ==> #[trigger] cache@[j] == chain[j],
            forall|j: int| filled <= j < idx ==> #[trigger] cache@[j] == stretch.starting@[j - filled],
        decreases 4 - idx,
    {
        cache[idx] = stretch.starting[from];
        idx += 1;
        from += 1;
    }
    assert(cache@ =~= (chain + stretch.starting@).take(4));
    cache
}

/// Turns the finished nodes into a forward chain of commands.
///
/// Walks back from the last position a command reaches, writing into each node
/// the length of the command that follows it, and returns how many there are.
pub fn compute_shortest_path_from_nodes<P: Copy>(
    stretch: &Stretch,
    nodes: &mut Vec<ZopfliNode<P>>,
    Ghost(done): Ghost<int>,
) -> (num_commands: usize)
    requires
        stretch.wf(),
        stretch.sound(old(nodes)@, done),
    ensures
        final(nodes)@.len() == old(nodes)@.len(),
        forall|j: int|
            0 <= j < old(nodes)@.len() ==> #[trigger] same_command(old(nodes)@[j], final(nodes)@[j]),
        stretch.sound(final(nodes)@, done),
        ({
            let end = path_end(final(nodes)@, stretch.num_bytes as int);
            &&& end == path_end(old(nodes)@, stretch.num_bytes as int)
            &&& links_down(final(nodes)@, 0, end)
            &&& final(nodes)@[end].next is None
            &&& num_commands == path_len(final(nodes)@, end)
        }),
{
    let ghost first = nodes@;
    let mut index: usize = stretch.num_bytes;
    // Trailing literals are not a command.
    while index > 0 && !nodes[index].is_reached()
        invariant
            nodes@ == first,
            index <= stretch.num_bytes,
            stretch.num_bytes + 1 == nodes@.len(),
            path_end(first, stretch.num_bytes as int) == path_end(first, index as int),
        decreases index,
    {
        index -= 1;
    }
    let ghost end = index as int;
    assert(path_end(first, index as int) == index);
    let mut node = nodes[index];
    node.next = None;
    nodes.set(index, node);
    let mut num_commands: usize = 0;
    proof {
        assert forall|j: int| 0 <= j < first.len() implies #[trigger] same_command(
            first[j],
            nodes@[j],
        ) by {}
    }
    while index != 0
        invariant
            stretch.wf(),
            stretch.sound(first, done),
            first.len() == stretch.num_bytes + 1,
            nodes@.len() == first.len(),
            index <= end <= stretch.num_bytes,
            index == 0 || first[index as int].reached(),
            forall|j: int| 0 <= j < first.len() ==> #[trigger] same_command(first[j], nodes@[j]),
            links_down(nodes@, index as int, end),
            nodes@[end].next is None,
            num_commands + path_len(first, index as int) == path_len(first, end),
            num_commands + index <= end,
        decreases index,
    {
        assert(stretch.settled(first, index as int, done));
        assert(same_command(first[index as int], nodes@[index as int]));
        let len: usize = nodes[index].copy_length + nodes[index].insert_length;
        let ghost before = nodes@;
        let ghost upper = index as int;
        index -= len;
        let mut node = nodes[index];
        node.next = Some(len);
        nodes.set(index, node);
        proof {
            assert forall|j: int| 0 <= j < first.len() implies #[trigger] same_command(
                first[j],
                nodes@[j],
            ) by {
                assert(same_command(first[j], before[j]));
            }
            assert forall|j: int| upper <= j <= end implies #[trigger] same_command(
                before[j],
                nodes@[j],
            ) by {
                assert(same_command(first[j], before[j]));
            }
            lemma_links_frame(before, nodes@, upper, end);
            lemma_links_extend(nodes@, upper, end);
        }
        num_commands += 1;
    }
    proof {
        stretch.lemma_sound_frame(first, nodes@, done);
        lemma_end_frame(first, nodes@, stretch.num_bytes as int);
        lemma_len_frame(first, nodes@, end);
    }
    num_commands
}

/// Where a path ends depends on the commands alone.
pub proof fn lemma_end_frame<P: Copy>(before: Seq<ZopfliNode<P>>, after: Seq<ZopfliNode<P>>, i: int)
    requires
        i < before.len(),
        before.len() == after.len(),
        forall|j: int| 0 <= j < before.len() ==> #[trigger] same_command(before[j], after[j]),
    ensures
        path_end(before, i) == path_end(after, i),
    decreases i,
{
    if i > 0 {
        assert(same_command(before[i], after[i]));
        lemma_end_frame(before, after, i - 1);
    }
}

/// The commands of a path depend on its nodes' commands alone.
pub proof fn lemma_commands_frame<P: Copy>(
    before: Seq<ZopfliNode<P>>,
    after: Seq<ZopfliNode<P>>,
    i: int,
    waiting: int,
)
    requires
        i < before.len(),
        before.len() == after.len(),
        forall|j: int| 0 <= j < before.len() ==> #[trigger] same_command(before[j], after[j]),
    ensures
        commands_of(before, i, waiting) == commands_of(after, i, waiting),
    decreases i,
{
    if i > 0 {
        assert(same_command(before[i], after[i]));
        if 0 <= start_of(before, i) < i {
            lemma_commands_frame(before, after, start_of(before, i), waiting);
        }
    }
}

/// How long a path is depends on the commands alone.
proof fn lemma_len_frame<P: Copy>(before: Seq<ZopfliNode<P>>, after: Seq<ZopfliNode<P>>, i: int)
    requires
        i < before.len(),
        before.len() == after.len(),
        forall|j: int| 0 <= j < before.len() ==> #[trigger] same_command(before[j], after[j]),
    ensures
        path_len(before, i) == path_len(after, i),
    decreases i,
{
    if i > 0 {
        assert(same_command(before[i], after[i]));
        if 0 <= start_of(before, i) < i {
            lemma_len_frame(before, after, start_of(before, i));
        }
    }
}

impl<'a> Stretch<'a> {
    /// Soundness depends on the commands alone.
    pub proof fn lemma_sound_frame<P: Copy>(
        &self,
        before: Seq<ZopfliNode<P>>,
        after: Seq<ZopfliNode<P>>,
        done: int,
    )
        requires
            self.sound(before, done),
            before.len() == after.len(),
            forall|j: int| 0 <= j < before.len() ==> #[trigger] same_command(before[j], after[j]),
        ensures
            self.sound(after, done),
    {
        assert(same_command(before[0], after[0]));
        assert forall|i: int| 1 <= i <= self.num_bytes implies #[trigger] self.settled(
            after,
            i,
            done,
        ) by {
            assert(self.settled(before, i, done));
            assert(same_command(before[i], after[i]));
            if before[i].reached() {
                assert(same_command(before[start_of(before, i)], after[start_of(before, i)]));
                self.lemma_cache_frame(before, after, start_of(before, i));
            }
        }
    }
}

/// State the search carries between blocks.
pub struct ZopfliState {
    /// The four most recent distances.
    pub dist_cache: [i32; 4],
    /// Literals not yet attached to a command.
    pub last_insert_len: usize,
    /// Literals in the commands of the current meta-block.
    pub num_literals: usize,
}

impl Default for ZopfliState {
    /// Returns the state a fresh stream starts from.
    fn default() -> (state: Self)
        ensures
            state.dist_cache@ == seq![4i32, 11, 15, 16],
            distances_ok(state.dist_cache@),
            state.last_insert_len == 0,
            state.num_literals == 0,
    {
        ZopfliState { dist_cache: [4, 11, 15, 16], last_insert_len: 0, num_literals: 0 }
    }
}

impl<'a> Stretch<'a> {
    /// Every position of a path is its start or one a command reaches.
    proof fn lemma_links_reached<P: Copy>(&self, nodes: Seq<ZopfliNode<P>>, q: int, i: int, done: int)
        requires
            self.sound(nodes, done),
            0 <= i <= self.num_bytes,
            i == 0 || nodes[i].reached(),
            links_down(nodes, q, i),
        ensures
            q == 0 || nodes[q].reached(),
        decreases i,
    {
        if q != i {
            assert(self.settled(nodes, i, done));
            self.lemma_links_reached(nodes, q, start_of(nodes, i), done);
        }
    }

    /// The commands of a path account for every byte up to its end, insert the
    /// literals between the copies, and read back in order reproduce the input,
    /// leaving the path's distances cached.
    pub proof fn lemma_commands_faithful<P: Copy>(
        &self,
        nodes: Seq<ZopfliNode<P>>,
        i: int,
        done: int,
        waiting: int,
    )
        requires
            self.wf(),
            self.sound(nodes, done),
            0 <= i <= self.num_bytes,
            i == 0 || nodes[i].reached(),
            0 <= waiting,
            waiting + self.num_bytes <= usize::MAX,
        ensures
            ({
                let commands = commands_of(nodes, i, waiting);
                let first = if i == 0 {
                    0int
                } else {
                    0 - waiting
                };
                &&& self.faithful(first, commands)
                &&& self.replayed(first, commands) == (i, self.path_cache(nodes, i))
                &&& backward_references::accounted(commands) == i - first
                &&& 0 <= backward_references::inserted(commands) <= i - first
            }),
        decreases i,
    {
        let commands = commands_of(nodes, i, waiting);
        if i > 0 {
            assert(self.settled(nodes, i, done));
            let start = start_of(nodes, i);
            let earlier = commands_of(nodes, start, waiting);
            self.lemma_commands_faithful(nodes, start, done, waiting);
            self.lemma_cache_ok(nodes, start, done);
            assert(commands.drop_last() =~= earlier);
            assert(commands.last() == command_at(nodes, i, waiting));
            let held = self.path_cache(nodes, start);
            let code = nodes[i].code();
            assert(code as usize == code);
            assert(backward_references::decoded_distance(code, held) == nodes[i].distance);
            if start == 0 {
                assert(earlier =~= Seq::empty());
                assert(self.replayed(0 - waiting, earlier) == (0 - waiting, self.starting@));
                assert(self.path_cache(nodes, 0) == self.starting@);
            }
            assert(self.replayed(0 - waiting, earlier) == (if start == 0 {
                0 - waiting
            } else {
                start
            }, held));
            assert(self.cache_after(i - nodes[i].copy_length, nodes[i].distance as int, code, held)
                == self.path_cache(nodes, i));
            let command = command_at(nodes, i, waiting);
            assert(command.insert_len + command.copy_len == if start == 0 {
                i + waiting
            } else {
                i - start
            });
            assert(self.faithful(0 - waiting, earlier));
            assert((if start == 0 {
                0 - waiting
            } else {
                start
            }) + command.insert_len == i - nodes[i].copy_length);
            assert(command.distance_code == code);
            assert(self.faithful(0 - waiting, commands));
            assert(self.replayed(0 - waiting, commands) == (i, self.path_cache(nodes, i)));
            assert(backward_references::accounted(commands) == i + waiting);
            assert(0 <= backward_references::inserted(commands) <= i + waiting);
        } else {
            assert(commands =~= Seq::empty());
        }
    }
}

/// Walks the chosen path forward, emitting commands.
///
/// A dictionary reference and a copy coded with the last distance both leave the
/// distance cache alone.
pub fn create_commands<P: Copy>(
    stretch: &Stretch,
    nodes: &Vec<ZopfliNode<P>>,
    state: &mut ZopfliState,
    commands: &mut Vec<Command>,
    Ghost(done): Ghost<int>,
)
    requires
        stretch.wf(),
        stretch.sound(nodes@, done),
        links_down(nodes@, 0, path_end(nodes@, stretch.num_bytes as int)),
        nodes@[path_end(nodes@, stretch.num_bytes as int)].next is None,
        old(state).dist_cache@ == stretch.starting@,
        old(state).num_literals + old(state).last_insert_len + stretch.num_bytes <= usize::MAX,
    ensures
        ({
            let end = path_end(nodes@, stretch.num_bytes as int);
            let made = commands_of(nodes@, end, old(state).last_insert_len as int);
            &&& final(commands)@ == old(commands)@ + made
            &&& final(state).dist_cache@ == stretch.path_cache(nodes@, end)
            &&& final(state).num_literals == old(state).num_literals + backward_references::inserted(made)
            &&& final(state).last_insert_len == stretch.num_bytes - end + if end == 0 {
                old(state).last_insert_len as int
            } else {
                0
            }
        }),
        distances_ok(final(state).dist_cache@),
{
    let ghost end = path_end(nodes@, stretch.num_bytes as int);
    let ghost waiting = state.last_insert_len as int;
    let ghost made_before = commands@;
    let ghost literals_before = state.num_literals as int;
    proof {
        lemma_path_end(nodes@, stretch.num_bytes as int);
    }
    let mut pos: usize = 0;
    let mut offset: Option<usize> = nodes[0].next;
    assert(made_before + commands_of(nodes@, 0, waiting) =~= made_before);
    while offset.is_some()
        invariant
            stretch.wf(),
            stretch.sound(nodes@, done),
            0 <= end <= stretch.num_bytes,
            0 <= waiting,
            0 <= literals_before,
            end == 0 || nodes@[end].reached(),
            nodes@[end].next is None,
            links_down(nodes@, pos as int, end),
            pos <= end,
            pos == 0 || nodes@[pos as int].reached(),
            offset == nodes@[pos as int].next,
            commands@ == made_before + commands_of(nodes@, pos as int, waiting),
            state.dist_cache@ == stretch.path_cache(nodes@, pos as int),
            literals_before + waiting + stretch.num_bytes <= usize::MAX,
            state.num_literals == literals_before + backward_references::inserted(
                commands_of(nodes@, pos as int, waiting),
            ),
            state.last_insert_len == if pos == 0 {
                waiting
            } else {
                0
            },
        decreases end - pos,
    {
        let len: usize = offset.unwrap();
        proof {
            lemma_links_forward(nodes@, pos as int, end);
            stretch.lemma_links_reached(nodes@, pos + len, end, done);
            assert(stretch.settled(nodes@, pos + len, done));
            stretch.lemma_commands_faithful(nodes@, pos as int, done, waiting);
            stretch.lemma_commands_faithful(nodes@, pos + len, done, waiting);
            stretch.lemma_cache_ok(nodes@, pos as int, done);
        }
        let next = nodes[pos + len];
        let mut insert_length: usize = next.insert_length;
        let at: usize = pos + insert_length;
        if pos == 0 {
            insert_length += state.last_insert_len;
            state.last_insert_len = 0;
        }
        let start: usize = stretch.block_start + at;
        let dictionary_start: usize = if start < stretch.limit {
            start
        } else {
            stretch.limit
        };
        let code: usize = next.distance_code();
        let ghost earlier = commands_of(nodes@, pos as int, waiting);
        let ghost here = command_at(nodes@, pos + len, waiting);
        let command = Command {
            insert_len: insert_length,
            copy_len: next.copy_length,
            len_code_delta: next.length_code as i32 - next.copy_length as i32,
            distance_code: code,
        };
        assert(command == here);
        commands.push(command);
        proof {
            assert(commands_of(nodes@, pos + len, waiting) == earlier.push(here));
            assert(made_before + earlier.push(here) =~= (made_before + earlier).push(here));
            assert(earlier.push(here).drop_last() =~= earlier);
        }
        if next.distance <= dictionary_start + stretch.gap && code > 0 {
            state.dist_cache = [
                next.distance as i32,
                state.dist_cache[0],
                state.dist_cache[1],
                state.dist_cache[2],
            ];
        }
        assert(state.dist_cache@ =~= stretch.path_cache(nodes@, pos + len));
        state.num_literals += insert_length;
        pos = pos + len;
        offset = next.next;
    }
    proof {
        if pos != end {
            lemma_links_forward(nodes@, pos as int, end);
        }
        stretch.lemma_cache_ok(nodes@, end, done);
    }
    state.last_insert_len += stretch.num_bytes - pos;
}

/// A path ends inside the block, at its start or where a command does.
pub proof fn lemma_path_end<P: Copy>(nodes: Seq<ZopfliNode<P>>, i: int)
    requires
        0 <= i,
    ensures
        0 <= path_end(nodes, i) <= i,
        path_end(nodes, i) == 0 || nodes[path_end(nodes, i)].reached(),
    decreases i,
{
    if i > 0 && !nodes[i].reached() {
        lemma_path_end(nodes, i - 1);
    }
}

} // verus!
