//! What a scan for references owes: no byte is lost, no good match is dropped, and a match
//! is only put off for a better one.
use vstd::prelude::*;

use crate::greedy::backward_references;
use crate::greedy::backward_references::{Command, Scan, Scene};
use crate::greedy::search::SearchResult;

verus! {

/// The bytes that a scan has passed and has neither waiting as literals nor in a command.
pub open spec fn unaccounted(scan: Scan) -> int {
    scan.position - scan.insert - backward_references::accounted(scan.commands)
}

/// A command accounts for its literals and its copy.
proof fn lemma_accounted_push(commands: Seq<Command>, command: Command)
    ensures
        backward_references::accounted(commands.push(command)) == backward_references::accounted(
            commands,
        ) + command.insert_len + command.copy_len,
{
    assert(commands.push(command).drop_last() =~= commands);
}

/// Striding moves the position and the literals that wait alike, by whole strides, and
/// records each position it lands on.
proof fn lemma_strided<'a>(scene: &Scene<'a>, scan: Scan, until: int, stride: int)
    requires
        stride > 0,
    ensures
        ({
            let after = scene.strided(scan, until, stride);
            let steps = after.recorded.len() - scan.recorded.len();
            &&& 0 <= steps
            &&& after.position == scan.position + stride * steps
            &&& after.insert == scan.insert + stride * steps
            &&& after.position >= until || steps == 0 && scan.position >= until
            &&& steps > 0 ==> after.position < until + stride
            &&& after.commands == scan.commands
            &&& after.literals == scan.literals
            &&& after.cache == scan.cache
            &&& after.sparse_from == scan.sparse_from
            &&& after.lazy == scan.lazy
            &&& scan.recorded.is_prefix_of(after.recorded)
            &&& forall|i: int|
                0 <= i < steps ==> #[trigger] after.recorded[scan.recorded.len() + i]
                    == scan.position + stride * i
        }),
    decreases
            if until > scan.position {
                until - scan.position
            } else {
                0
            },
{
    if scan.position < until {
        let next = Scan {
            position: scan.position + stride,
            insert: scan.insert + stride,
            recorded: scan.recorded.push(scan.position),
            ..scan
        };
        lemma_strided(scene, next, until, stride);
        let after = scene.strided(next, until, stride);
        let left = after.recorded.len() - next.recorded.len();
        assert(stride * (left + 1) == stride * left + stride) by (nonlinear_arith);
        assert(stride * 0 == 0) by (nonlinear_arith);
        assert(left == 0 ==> stride * left == 0) by (nonlinear_arith);
        assert forall|i: int| 0 <= i < left + 1 implies #[trigger] after.recorded[
        scan.recorded.len() + i] == scan.position + stride * i by {
            if i > 0 {
                assert(after.recorded[next.recorded.len() + (i - 1)] == next.position + stride * (i
                    - 1));
                assert(stride * i == stride * (i - 1) + stride) by (nonlinear_arith);
            } else {
                assert(after.recorded[next.recorded.len() - 1] == next.recorded[
                next.recorded.len() - 1]);
            }
        }
    } else {
        assert(stride * 0 == 0) by (nonlinear_arith);
    }
}

/// A byte that no match starts at is passed as a literal, alone as long as a match was
/// close; behind that the scan passes up to four strides more, of two bytes, or of four
/// once it is 256 bytes farther.
pub proof fn lemma_miss_passes_literals<'a>(scene: &Scene<'a>, scan: Scan)
    ensures
        ({
            let after = scene.missed(scan);
            let passed = after.position - scan.position;
            &&& passed >= 1
            &&& after.insert - scan.insert == passed
            &&& after.commands == scan.commands
            &&& after.cache == scan.cache
            &&& after.lazy == scan.lazy
            &&& scan.position < scan.sparse_from ==> passed == 1 && after.recorded
                == scan.recorded
            &&& scan.sparse_from <= scan.position < scan.sparse_from + 256 ==> passed <= 9
                && passed % 2 == 1
            &&& scan.sparse_from + 256 <= scan.position ==> passed <= 17 && passed % 4 == 1
        }),
{
    let next = Scan { position: scan.position + 1, insert: scan.insert + 1, ..scan };
    if next.position > next.sparse_from {
        let stride = scene.stride(next);
        lemma_strided(scene, next, scene.stride_end(next), stride);
        let after = scene.strided(next, scene.stride_end(next), stride);
        let steps = after.recorded.len() - next.recorded.len();
        assert(steps <= 4) by {
            if steps > 4 {
                assert(stride * steps >= stride * 5) by (nonlinear_arith)
                    requires
                        stride > 0,
                        steps >= 5,
                ;
            }
        }
        assert(stride == 2 ==> stride * steps == 2 * steps);
        assert(stride == 4 ==> stride * steps == 4 * steps);
    }
}

/// A step of a scan loses no byte: each one it passes waits as a literal or is in a
/// command.
pub proof fn lemma_step_loses_nothing<'a>(
    scene: &Scene<'a>,
    start: int,
    scan: Scan,
    answer: SearchResult,
)
    requires
        0 <= scan.insert < usize::MAX,
    ensures
        unaccounted(scene.next(start, scan, answer)) == unaccounted(scan),
{
    let after = scene.next(start, scan, answer);
    let looked = Scan { recorded: scan.recorded.push(scene.asks_at(scan)), ..scan };
    match scan.lazy {
        None => {
            lemma_miss_passes_literals(scene, looked);
        },
        Some((current, delayed)) => {
            if after.commands.len() > 0 {
                lemma_accounted_push(scan.commands, after.commands.last());
                assert(after.commands != scan.commands ==> after.commands =~= scan.commands.push(
                    after.commands.last(),
                ));
            }
        },
    }
}

/// A match that scores above 2020 is never dropped: it is held, and then written as it is
/// or given up for one a byte later that scores at least 175 more. That happens at most
/// four times in a row.
pub proof fn lemma_match_is_kept_or_bettered<'a>(
    scene: &Scene<'a>,
    start: int,
    scan: Scan,
    answer: SearchResult,
)
    requires
        0 <= scan.insert < usize::MAX,
    ensures
        ({
            let after = scene.next(start, scan, answer);
            match scan.lazy {
                None => if answer.score > 2020 {
                    after.lazy == Some((answer, 0int)) && after.position == scan.position
                        && after.commands == scan.commands
                } else {
                    after.lazy is None && after.position > scan.position && after.commands
                        == scan.commands
                },
                Some((current, delayed)) => match after.lazy {
                    Some((better, times)) => {
                        &&& better == answer
                        &&& better.score >= current.score + 175
                        &&& times == delayed + 1
                        &&& times < 4
                        &&& after.position == scan.position + 1
                        &&& after.insert == scan.insert + 1
                        &&& after.commands == scan.commands
                    },
                    None => {
                        let made = after.commands.last();
                        &&& after.commands.len() == scan.commands.len() + 1
                        &&& after.insert == 0
                        &&& if answer.score >= current.score + 175 {
                            &&& made.copy_len == answer.len
                            &&& made.insert_len == scan.insert + 1
                            &&& delayed >= 3 || scan.position + 1 + scene.hash_length >= scene.end
                        } else {
                            &&& made.copy_len == current.len
                            &&& made.insert_len == scan.insert
                        }
                        &&& after.position == scan.position + made.copy_len + made.insert_len
                            - scan.insert
                    },
                },
            }
        }),
{
    let looked = Scan { recorded: scan.recorded.push(scene.asks_at(scan)), ..scan };
    lemma_miss_passes_literals(scene, looked);
}

/// The positions of a copy that are recorded: all behind its first two, as far as positions
/// are recorded at all, and where the copy repeats itself more than four times only those of
/// the last four.
pub proof fn lemma_covered_positions<'a>(
    scene: &Scene<'a>,
    start: int,
    at: int,
    len: int,
    distance: int,
    p: int,
)
    ensures
        scene.covered_stretch(start, at, len, distance).contains(p) <==> {
            &&& at + 2 <= p < at + len
            &&& scene.end - start >= scene.lookahead ==> p + scene.lookahead <= scene.end
            &&& scene.end - start < scene.lookahead ==> p < start
            &&& distance < len / 4 ==> p >= at + len - 4 * distance
        },
{
    let covered = scene.covered_stretch(start, at, len, distance);
    if covered.contains(p) {
        let i = choose|i: int| 0 <= i < covered.len() && covered[i] == p;
        assert(covered[i] == covered[0] + i);
    }
    if at + 2 <= p < at + len && (scene.end - start >= scene.lookahead ==> p + scene.lookahead
        <= scene.end) && (scene.end - start < scene.lookahead ==> p < start) && (distance < len / 4
        ==> p >= at + len - 4 * distance) {
        assert(covered.len() > 0);
        let first = covered[0];
        assert(covered[p - first] == p);
    }
}

/// A distance that a command used is the last one afterwards, and the ones before it keep
/// their order; one that repeats the last, or names a word, changes nothing.
pub proof fn lemma_cache_follows<'a>(scene: &Scene<'a>, at: int, distance: int, cache: Seq<i32>)
    requires
        1 <= distance <= i32::MAX,
        cache.len() == 16,
        scene.last_distances <= 16,
    ensures
        ({
            let after = scene.cache_after(at, distance, cache);
            let within = distance <= scene.horizon(at) + scene.gap;
            &&& !within ==> after == cache
            &&& within ==> after[0] == distance
            &&& within && distance != cache[0] ==> after[1] == cache[0] && after[2] == cache[1]
                && after[3] == cache[2]
            &&& distance == cache[0] && !scene.independent ==> after == cache
        }),
{
}

} // verus!
