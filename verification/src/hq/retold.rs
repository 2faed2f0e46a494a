//! Commands read against the input itself, wherever the window holds it.
use vstd::arithmetic::div_mod;
use vstd::arithmetic::power2;
use vstd::prelude::*;

use crate::greedy::backward_references;
use crate::greedy::backward_references::Command;
use crate::hq::path::Stretch;
use crate::math;
use crate::shared::ringbuffer;
use crate::shared::ringbuffer::RingBuffer;

verus! {

/// How far a stream's copies may reach.
pub struct Bounds {
    /// The longest backward distance.
    pub limit: int,
    /// The longest distance the alphabet can express.
    pub max_distance: int,
}

impl Bounds {
    /// How far back a copy at a position reaches inside the window.
    pub open spec fn reach(self, at: int) -> int {
        if at < self.limit {
            at
        } else {
            self.limit
        }
    }
}

/// Bytes of the input repeat those a distance back.
pub open spec fn copies(input: Seq<u8>, at: int, len: int, distance: int) -> bool {
    &&& 1 <= distance <= at
    &&& at + len <= input.len()
    &&& forall|i: int| at <= i < at + len ==> #[trigger] input[i] == input[i - distance]
}

/// A command's copy at a position is right: it repeats bytes of the input, or names
/// a word past the window. Without a copy there is nothing to be wrong.
pub open spec fn tells(input: Seq<u8>, bounds: Bounds, at: int, command: Command, distance: int) -> bool {
    command.copy_len > 0 ==> {
        &&& 0 <= at
        &&& at + command.copy_len <= input.len()
        &&& 1 <= distance
        &&& distance <= bounds.reach(at) ==> copies(input, at, command.copy_len as int, distance)
        &&& distance > bounds.reach(at) ==> distance <= bounds.max_distance
            && command.distance_code >= 16
    }
}

/// Where a list of commands leads from a position, and the distances it leaves cached.
pub open spec fn retold(bounds: Bounds, start: int, cache: Seq<i32>, commands: Seq<Command>) -> (
    int,
    Seq<i32>,
)
    decreases commands.len(),
{
    if commands.len() == 0 {
        (start, cache)
    } else {
        let (position, held) = retold(bounds, start, cache, commands.drop_last());
        let command = commands.last();
        let at = position + command.insert_len;
        let distance = backward_references::decoded_distance(command.distance_code as int, held);
        (
            at + command.copy_len,
            if command.copy_len > 0 && distance <= bounds.reach(at) && command.distance_code > 0 {
                seq![distance as i32, held[0], held[1], held[2]]
            } else {
                held
            },
        )
    }
}

/// Every command of a list, read back in order from a position, reproduces the input.
pub open spec fn faithful(
    input: Seq<u8>,
    bounds: Bounds,
    start: int,
    cache: Seq<i32>,
    commands: Seq<Command>,
) -> bool
    decreases commands.len(),
{
    commands.len() > 0 ==> {
        let (position, held) = retold(bounds, start, cache, commands.drop_last());
        let command = commands.last();
        &&& faithful(input, bounds, start, cache, commands.drop_last())
        &&& tells(
            input,
            bounds,
            position + command.insert_len,
            command,
            backward_references::decoded_distance(command.distance_code as int, held),
        )
    }
}

/// Commands that reproduce an input reproduce a longer one.
pub proof fn lemma_longer_input(
    input: Seq<u8>,
    more: Seq<u8>,
    bounds: Bounds,
    start: int,
    cache: Seq<i32>,
    commands: Seq<Command>,
)
    requires
        faithful(input, bounds, start, cache, commands),
    ensures
        faithful(input + more, bounds, start, cache, commands),
    decreases commands.len(),
{
    if commands.len() > 0 {
        lemma_longer_input(input, more, bounds, start, cache, commands.drop_last());
        let (position, held) = retold(bounds, start, cache, commands.drop_last());
        let command = commands.last();
        let at = position + command.insert_len;
        let distance = backward_references::decoded_distance(command.distance_code as int, held);
        if command.copy_len > 0 && distance <= bounds.reach(at) {
            let longer = input + more;
            assert forall|i: int| at <= i < at + command.copy_len implies #[trigger] longer[i]
                == longer[i - distance] by {
                assert(input[i] == input[i - distance]);
            }
        }
    }
}

/// Commands that follow others start where those lead.
pub proof fn lemma_joined(
    input: Seq<u8>,
    bounds: Bounds,
    start: int,
    cache: Seq<i32>,
    left: Seq<Command>,
    right: Seq<Command>,
)
    requires
        faithful(input, bounds, start, cache, left),
        ({
            let (position, held) = retold(bounds, start, cache, left);
            faithful(input, bounds, position, held, right)
        }),
    ensures
        faithful(input, bounds, start, cache, left + right),
        ({
            let (position, held) = retold(bounds, start, cache, left);
            retold(bounds, start, cache, left + right) == retold(bounds, position, held, right)
        }),
    decreases right.len(),
{
    if right.len() == 0 {
        assert(left + right =~= left);
    } else {
        lemma_joined(input, bounds, start, cache, left, right.drop_last());
        assert((left + right).drop_last() =~= left + right.drop_last());
        assert((left + right).last() == right.last());
    }
}

/// The window holds the input: a stretch of it stands at its masked position, and
/// goes on in the mirror.
pub proof fn lemma_window(window: &RingBuffer, p: int, j: int)
    requires
        window.wf(),
        0 <= p,
        window.history@.len() - window.size <= p,
        0 <= j < window.tail_size,
        p + j < window.history@.len(),
    ensures
        0 <= p % (window.size as int),
        ringbuffer::HEAD_ROOM + p % (window.size as int) + j < window.data@.len(),
        window.at(p % (window.size as int) + j) == window.history@[p + j],
{
    let size = window.size as int;
    let n = window.history@.len() as int;
    let q = p + j;
    let laps = p / size;
    div_mod::lemma_fundamental_div_mod(p, size);
    assert(size * laps == laps * size) by (nonlinear_arith);
    assert(size * laps + size == (laps + 1) * size) by (nonlinear_arith);
    div_mod::lemma_mod_bound(p, size);
    if window.cur_size < window.total_size {
        div_mod::lemma_small_mod(p as nat, size as nat);
        div_mod::lemma_small_mod(q as nat, size as nat);
        assert(window.at(q % size) == window.history@[q]);
    } else if p % size + j < size {
        div_mod::lemma_fundamental_div_mod_converse(q, size, laps, p % size + j);
        assert(window.at(q % size) == window.history@[q]);
    } else {
        div_mod::lemma_fundamental_div_mod_converse(q, size, laps + 1, p % size + j - size);
        div_mod::lemma_div_pos_is_pos(p, size);
        assert(size * laps >= 0) by (nonlinear_arith)
            requires
                size >= 0,
                laps >= 0,
        ;
        assert(q >= size);
        assert(window.at(size + q % size) == window.history@[q]);
    }
}

/// A wrapped position has the masked position it had.
pub proof fn lemma_wrapped(position: int, size: int, bits: nat)
    requires
        0 <= position,
        bits <= 31,
        size == power2::pow2(bits),
    ensures
        size > 0,
        ringbuffer::wrapped_position(position) % size == position % size,
{
    power2::lemma_pow2_pos(bits);
    let wrapped = ringbuffer::wrapped_position(position);
    let rest = power2::pow2((31 - bits) as nat) as int;
    power2::lemma_pow2_adds(bits, (31 - bits) as nat);
    power2::lemma2_to64();
    assert(size * rest == 0x8000_0000);
    if position >= 0xC000_0000 {
        let gb = position / 0x4000_0000;
        let laps = (gb - 1 - (gb - 1) % 2) / 2;
        assert(position - wrapped == 0x8000_0000 * laps);
        assert(position - wrapped == size * (rest * laps)) by (nonlinear_arith)
            requires
                position - wrapped == 0x8000_0000 * laps,
                size * rest == 0x8000_0000,
        ;
        div_mod::lemma_mod_multiples_basic(rest * laps, size);
        assert((rest * laps) * size == size * (rest * laps)) by (nonlinear_arith);
        div_mod::lemma_mod_equivalence(position, wrapped, size);
    }
}

/// A stretch lies in a window: it ends where the input does, and starts at `from`.
pub open spec fn lies_in(window: &RingBuffer, stretch: &Stretch, from: int) -> bool {
    let size = window.size as int;
    &&& window.data@.len() >= ringbuffer::HEAD_ROOM
    &&& stretch.data@ == window.data@.skip(ringbuffer::HEAD_ROOM as int)
    &&& stretch.mask == window.mask
    &&& stretch.gap == 0
    &&& 0 <= from
    &&& from + stretch.num_bytes == window.history@.len()
    &&& (stretch.block_start as int) % size == from % size
    &&& stretch.block_start == from || stretch.block_start >= stretch.limit && from
        >= stretch.limit
    &&& stretch.limit + stretch.num_bytes <= size
    &&& stretch.num_bytes <= window.tail_size
    &&& stretch.block_start + stretch.num_bytes <= usize::MAX
}

/// The masked position of a place in the stretch.
proof fn lemma_masked(window: &RingBuffer, stretch: &Stretch, from: int, at: int)
    requires
        window.wf(),
        lies_in(window, stretch, from),
        at <= stretch.num_bytes,
        0 <= stretch.block_start + at,
    ensures
        (((stretch.block_start + at) as usize) & stretch.mask) as int == (from + at) % (
        window.size as int),
{
    let size = window.size as int;
    let x = (stretch.block_start + at) as usize;
    math::lemma_mask_is_mod(x, window.size, window.bits@);
    div_mod::lemma_mod_equivalence(stretch.block_start as int, from, size);
    div_mod::lemma_mod_equivalence(stretch.block_start + at, from + at, size);
}

/// What a stretch reproduces, the input does.
proof fn lemma_told(window: &RingBuffer, stretch: &Stretch, from: int, at: int, len: int, distance: int)
    requires
        window.wf(),
        lies_in(window, stretch, from),
        stretch.reproduces(at, len, distance),
        distance <= stretch.reach(at),
    ensures
        copies(window.history@, from + at, len, distance),
{
    let input = window.history@;
    lemma_masked(window, stretch, from, at);
    lemma_masked(window, stretch, from, at - distance);
    let here = stretch.here(at);
    let back = stretch.back(at, distance);
    assert forall|i: int| from + at <= i < from + at + len implies #[trigger] input[i] == input[i
        - distance] by {
        let j = i - from - at;
        lemma_window(window, from + at, j);
        lemma_window(window, from + at - distance, j);
        assert(stretch.data@.skip(back)[j] == stretch.data@.skip(here)[j]);
    }
}

/// What commands tell of a stretch, they tell of the input.
pub proof fn lemma_retold(window: &RingBuffer, stretch: &Stretch, from: int, first: int, made: Seq<Command>)
    requires
        window.wf(),
        lies_in(window, stretch, from),
        stretch.faithful(first, made),
    ensures
        ({
            let bounds = Bounds {
                limit: stretch.limit as int,
                max_distance: stretch.max_distance as int,
            };
            &&& faithful(window.history@, bounds, from + first, stretch.starting@, made)
            &&& retold(bounds, from + first, stretch.starting@, made) == (
                from + stretch.replayed(first, made).0,
                stretch.replayed(first, made).1,
            )
            &&& made.len() > 0 ==> made.last().copy_len > 0
        }),
    decreases made.len(),
{
    if made.len() > 0 {
        lemma_retold(window, stretch, from, first, made.drop_last());
        let (position, held) = stretch.replayed(first, made.drop_last());
        let command = made.last();
        let at = position + command.insert_len;
        let distance = backward_references::decoded_distance(command.distance_code as int, held);
        if distance <= stretch.reach(at) {
            lemma_told(window, stretch, from, at, command.copy_len as int, distance);
        }
    }
}

/// A last command that goes on for a while still tells the input.
pub proof fn lemma_last_goes_on(
    input: Seq<u8>,
    bounds: Bounds,
    start: int,
    cache: Seq<i32>,
    commands: Seq<Command>,
    grown: Seq<Command>,
    k: int,
)
    requires
        faithful(input, bounds, start, cache, commands),
        commands.len() > 0,
        commands.last().copy_len > 0,
        grown.len() == commands.len(),
        grown.drop_last() == commands.drop_last(),
        grown.last() == (Command { copy_len: grown.last().copy_len, ..commands.last() }),
        grown.last().copy_len == commands.last().copy_len + k,
        k >= 0,
        k > 0 ==> ({
            let (end, held) = retold(bounds, start, cache, commands);
            let last = held[0] as int;
            let code = commands.last().distance_code as int;
            &&& code < 16 || code - 15 == last
            &&& last <= bounds.reach(end - commands.last().copy_len)
            &&& bounds.limit <= i32::MAX
            &&& copies(input, end, k, last)
        }),
    ensures
        faithful(input, bounds, start, cache, grown),
        retold(bounds, start, cache, grown) == (
            retold(bounds, start, cache, commands).0 + k,
            retold(bounds, start, cache, commands).1,
        ),
{
    let (position, held) = retold(bounds, start, cache, commands.drop_last());
    let command = commands.last();
    let at = position + command.insert_len;
    let distance = backward_references::decoded_distance(command.distance_code as int, held);
    let (end, left) = retold(bounds, start, cache, commands);
    assert(end == at + command.copy_len);
    if k > 0 {
        assert(distance == left[0]);
        assert(copies(input, at, command.copy_len as int, distance));
        assert forall|i: int| at <= i < at + grown.last().copy_len implies #[trigger] input[i]
            == input[i - distance] by {}
    }
}

/// Some bytes with `len` more, each a copy of the one a distance back.
pub open spec fn copied(out: Seq<u8>, distance: int, len: nat) -> Seq<u8>
    decreases len,
{
    if len == 0 {
        out
    } else {
        let before = copied(out, distance, (len - 1) as nat);
        before.push(before[before.len() - distance])
    }
}

/// What a decoder has once it ran a list of commands: it starts with the input up to
/// a position, takes the literals as they come, copies out of what it has, and looks
/// up the words that lie past the window.
pub open spec fn rebuilt(
    input: Seq<u8>,
    bounds: Bounds,
    start: int,
    cache: Seq<i32>,
    commands: Seq<Command>,
) -> Seq<u8>
    decreases commands.len(),
{
    if commands.len() == 0 {
        input.take(start)
    } else {
        let before = rebuilt(input, bounds, start, cache, commands.drop_last());
        let (position, held) = retold(bounds, start, cache, commands.drop_last());
        let command = commands.last();
        let at = position + command.insert_len;
        let literals = input.subrange(position, at);
        let distance = backward_references::decoded_distance(command.distance_code as int, held);
        if command.copy_len > 0 && distance > bounds.reach(at) {
            before + literals + input.subrange(at, at + command.copy_len)
        } else {
            copied(before + literals, distance, command.copy_len as nat)
        }
    }
}

/// Copying what repeats goes on with the input.
proof fn lemma_copied(input: Seq<u8>, at: int, distance: int, len: nat)
    requires
        0 <= at,
        at + len <= input.len(),
        len > 0 ==> copies(input, at, len as int, distance),
    ensures
        copied(input.take(at), distance, len) == input.take(at + len),
    decreases len,
{
    if len > 0 {
        let fewer = (len - 1) as nat;
        lemma_copied(input, at, distance, fewer);
        let before = input.take(at + fewer);
        assert(input[at + fewer] == input[at + fewer - distance]);
        assert(before[before.len() - distance] == input[at + fewer - distance]);
        assert(before.push(input[at + fewer]) =~= input.take((at + len) as int));
    }
}

/// A decoder that runs faithful commands has the input, up to where they lead.
pub proof fn lemma_read_back(
    input: Seq<u8>,
    bounds: Bounds,
    start: int,
    cache: Seq<i32>,
    commands: Seq<Command>,
)
    requires
        0 <= start,
        faithful(input, bounds, start, cache, commands),
        retold(bounds, start, cache, commands).0 <= input.len(),
    ensures
        start <= retold(bounds, start, cache, commands).0,
        rebuilt(input, bounds, start, cache, commands) == input.take(
            retold(bounds, start, cache, commands).0,
        ),
    decreases commands.len(),
{
    if commands.len() > 0 {
        let fewer = commands.drop_last();
        let (position, held) = retold(bounds, start, cache, fewer);
        let command = commands.last();
        let at = position + command.insert_len;
        let distance = backward_references::decoded_distance(command.distance_code as int, held);
        lemma_read_back(input, bounds, start, cache, fewer);
        assert(input.take(position) + input.subrange(position, at) =~= input.take(at));
        if command.copy_len > 0 && distance > bounds.reach(at) {
            assert(input.take(at) + input.subrange(at, at + command.copy_len) =~= input.take(
                at + command.copy_len,
            ));
        } else {
            lemma_copied(input, at, distance, command.copy_len as nat);
        }
    }
}

} // verus!
