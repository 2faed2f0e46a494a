//! How an input is handed to an encoder, whichever way it is compressed.
//!
//! One-shot compression, incremental streams and readers cut an input into the same
//! blocks, so an encoder that is asked the same answers the same.
use vstd::prelude::*;

use crate::backend::Backend;
use crate::config;
use crate::config::{BrotliCompressError, BrotliResult, CompressParams};
use crate::driver::{BlockEncoder, Family};
use crate::session::StreamEncoder;

verus! {

/// What an encoder is asked.
pub enum Call {
    /// To compress a block.
    Block {
        /// The block.
        bytes: Seq<u8>,
        /// Whether it is the last.
        is_last: bool,
    },
    /// To compress a block and realign the stream.
    Flush {
        /// The block.
        bytes: Seq<u8>,
    },
}

/// How an encoder can answer a call, and what it is afterwards.
pub type Steps<E> = spec_fn(E, Call, BrotliResult<Seq<u8>>, E) -> bool;

/// How a kind of one-shot encoder can answer.
pub open spec fn of_blocks<E: BlockEncoder>() -> Steps<E> {
    |before: E, call: Call, answer: BrotliResult<Seq<u8>>, after: E|
        E::does(before, call, answer, after)
}

/// How a kind of incremental encoder can answer.
pub open spec fn of_streams<E: StreamEncoder>() -> Steps<E> {
    |before: E, call: Call, answer: BrotliResult<Seq<u8>>, after: E|
        E::does(before, call, answer, after)
}

/// An encoder answers a call, and is another one afterwards.
pub open spec fn steps_to<E>(
    steps: Steps<E>,
    before: E,
    call: Call,
    answer: BrotliResult<Seq<u8>>,
    after: E,
) -> bool {
    steps(before, call, answer, after)
}

/// An encoder answers some calls one after the other, and is another one in the end.
pub open spec fn ran<E>(
    steps: Steps<E>,
    first: E,
    calls: Seq<Call>,
    answers: Seq<Seq<u8>>,
    last: E,
) -> bool
    decreases calls.len(),
{
    &&& calls.len() == answers.len()
    &&& if calls.len() == 0 {
        first == last
    } else {
        exists|between: E|
            #![trigger steps_to(steps, between, calls.last(), Ok(answers.last()), last)]
            ran(steps, first, calls.drop_last(), answers.drop_last(), between) && steps_to(
                steps,
                between,
                calls.last(),
                Ok(answers.last()),
                last,
            )
    }
}

/// One more call.
pub proof fn lemma_ran_on<E>(
    steps: Steps<E>,
    first: E,
    calls: Seq<Call>,
    answers: Seq<Seq<u8>>,
    between: E,
    call: Call,
    answer: Seq<u8>,
    last: E,
)
    requires
        ran(steps, first, calls, answers, between),
        steps_to(steps, between, call, Ok(answer), last),
    ensures
        ran(steps, first, calls.push(call), answers.push(answer), last),
{
    assert(calls.push(call).drop_last() =~= calls);
    assert(answers.push(answer).drop_last() =~= answers);
    assert(calls.push(call).last() == call);
    assert(answers.push(answer).last() == answer);
    assert(steps_to(
        steps,
        between,
        calls.push(call).last(),
        Ok(answers.push(answer).last()),
        last,
    ));
}

/// The first calls of a run are a run, up to some encoder.
pub proof fn lemma_ran_first<E>(
    steps: Steps<E>,
    first: E,
    calls: Seq<Call>,
    answers: Seq<Seq<u8>>,
    last: E,
    n: int,
) -> (between: E)
    requires
        ran(steps, first, calls, answers, last),
        0 <= n <= calls.len(),
    ensures
        ran(steps, first, calls.take(n), answers.take(n), between),
        n < calls.len() ==> exists|after: E| #[trigger]
            steps_to(steps, between, calls[n], Ok(answers[n]), after),
    decreases calls.len(),
{
    if n == calls.len() {
        assert(calls.take(n) =~= calls);
        assert(answers.take(n) =~= answers);
        last
    } else {
        let before = choose|between: E|
            #![trigger steps_to(steps, between, calls.last(), Ok(answers.last()), last)]
            ran(steps, first, calls.drop_last(), answers.drop_last(), between) && steps_to(
                steps,
                between,
                calls.last(),
                Ok(answers.last()),
                last,
            );
        assert(calls.drop_last().take(n) =~= calls.take(n));
        assert(answers.drop_last().take(n) =~= answers.take(n));
        let between = lemma_ran_first(
            steps,
            first,
            calls.drop_last(),
            answers.drop_last(),
            before,
            n,
        );
        if n == calls.len() - 1 {
            assert(steps_to(steps, before, calls[n], Ok(answers[n]), last));
            assert(calls.drop_last() =~= calls.take(n));
            assert(answers.drop_last() =~= answers.take(n));
            before
        } else {
            assert(calls.drop_last()[n] == calls[n]);
            assert(answers.drop_last()[n] == answers[n]);
            between
        }
    }
}

/// What holds of an encoder and outlasts every answer, holds of it after a run.
pub proof fn lemma_ran_keeps<E>(
    steps: Steps<E>,
    holds: spec_fn(E) -> bool,
    first: E,
    calls: Seq<Call>,
    answers: Seq<Seq<u8>>,
    last: E,
)
    requires
        ran(steps, first, calls, answers, last),
        holds(first),
        forall|before: E, call: Call, answer: Seq<u8>, after: E|
            #![trigger steps_to(steps, before, call, Ok(answer), after)]
            holds(before) && steps_to(steps, before, call, Ok(answer), after) ==> holds(after),
    ensures
        holds(last),
    decreases calls.len(),
{
    if calls.len() > 0 {
        let between = choose|between: E|
            #![trigger steps_to(steps, between, calls.last(), Ok(answers.last()), last)]
            ran(steps, first, calls.drop_last(), answers.drop_last(), between) && steps_to(
                steps,
                between,
                calls.last(),
                Ok(answers.last()),
                last,
            );
        lemma_ran_keeps(
            steps,
            holds,
            first,
            calls.drop_last(),
            answers.drop_last(),
            between,
        );
    }
}

/// No block of an input is larger than the limit.
pub proof fn lemma_schedule_fits(input: Seq<u8>, limit: int, i: int)
    requires
        limit >= 1,
        0 <= i < schedule(input, limit).len(),
    ensures
        schedule(input, limit)[i] is Block,
        bytes_of(schedule(input, limit)[i]).len() <= limit,
    decreases input.len(),
{
    if input.len() > limit && i > 0 {
        lemma_schedule_fits(input.skip(limit), limit, i - 1);
    }
}

/// Two kinds of encoders agree: where two of them are alike, they answer a call the
/// same, and are alike afterwards.
pub open spec fn agree<E, F>(
    left: Steps<E>,
    right: Steps<F>,
    alike: spec_fn(E, F) -> bool,
) -> bool {
    forall|
        e: E,
        f: F,
        call: Call,
        a: BrotliResult<Seq<u8>>,
        b: BrotliResult<Seq<u8>>,
        e2: E,
        f2: F,
    |
        #![trigger steps_to(left, e, call, a, e2), steps_to(right, f, call, b, f2)]
        alike(e, f) && steps_to(left, e, call, a, e2) && steps_to(right, f, call, b, f2) ==> a == b
            && (a is Ok ==> alike(e2, f2))
}

/// Encoders that agree answer the same calls the same.
pub proof fn lemma_ran_alike<E, F>(
    left: Steps<E>,
    right: Steps<F>,
    alike: spec_fn(E, F) -> bool,
    e: E,
    f: F,
    calls: Seq<Call>,
    a: Seq<Seq<u8>>,
    b: Seq<Seq<u8>>,
    e2: E,
    f2: F,
)
    requires
        agree(left, right, alike),
        alike(e, f),
        ran(left, e, calls, a, e2),
        ran(right, f, calls, b, f2),
    ensures
        a == b,
        alike(e2, f2),
    decreases calls.len(),
{
    if calls.len() == 0 {
        assert(a =~= b);
    } else {
        let before = choose|between: E|
            #![trigger steps_to(left, between, calls.last(), Ok(a.last()), e2)]
            ran(left, e, calls.drop_last(), a.drop_last(), between) && steps_to(
                left,
                between,
                calls.last(),
                Ok(a.last()),
                e2,
            );
        let other = choose|between: F|
            #![trigger steps_to(right, between, calls.last(), Ok(b.last()), f2)]
            ran(right, f, calls.drop_last(), b.drop_last(), between) && steps_to(
                right,
                between,
                calls.last(),
                Ok(b.last()),
                f2,
            );
        lemma_ran_alike(
            left,
            right,
            alike,
            e,
            f,
            calls.drop_last(),
            a.drop_last(),
            b.drop_last(),
            before,
            other,
        );
        assert(Ok::<Seq<u8>, BrotliCompressError>(a.last()) == Ok::<Seq<u8>, BrotliCompressError>(
            b.last(),
        ));
        assert(a =~= a.drop_last().push(a.last()));
        assert(b =~= b.drop_last().push(b.last()));
    }
}

/// The bytes of an answer.
pub open spec fn said(result: BrotliResult<Vec<u8>>) -> BrotliResult<Seq<u8>> {
    match result {
        Ok(bytes) => Ok(bytes@),
        Err(error) => Err(error),
    }
}

/// The blocks an input is cut into: full ones, and a last one that is only empty if
/// the input is.
pub open spec fn schedule(input: Seq<u8>, limit: int) -> Seq<Call>
    decreases input.len(),
{
    if limit < 1 || input.len() <= limit {
        seq![Call::Block { bytes: input, is_last: true }]
    } else {
        seq![Call::Block { bytes: input.take(limit), is_last: false }] + schedule(
            input.skip(limit),
            limit,
        )
    }
}

/// The full blocks an input starts with, none of them the last.
pub open spec fn full_blocks(input: Seq<u8>, limit: int, count: nat) -> Seq<Call> {
    Seq::new(
        count,
        |i: int|
            Call::Block { bytes: input.subrange(limit * i, limit * i + limit), is_last: false },
    )
}

/// The bytes a call hands on.
pub open spec fn bytes_of(call: Call) -> Seq<u8> {
    match call {
        Call::Block { bytes, .. } => bytes,
        Call::Flush { bytes } => bytes,
    }
}

/// The bytes some calls hand on, in order.
pub open spec fn handed_by(calls: Seq<Call>) -> Seq<u8>
    decreases calls.len(),
{
    if calls.len() == 0 {
        Seq::empty()
    } else {
        handed_by(calls.drop_last()) + bytes_of(calls.last())
    }
}

/// Answers put together.
pub open spec fn put_together(answers: Seq<Seq<u8>>) -> Seq<u8>
    decreases answers.len(),
{
    if answers.len() == 0 {
        Seq::empty()
    } else {
        put_together(answers.drop_last()) + answers.last()
    }
}

/// Full blocks and a last one that is not empty are the schedule of their bytes.
pub proof fn lemma_full_then_last(input: Seq<u8>, limit: int, count: nat)
    requires
        limit >= 1,
        limit * count <= input.len() <= limit * count + limit,
        input.len() > limit * count || count == 0,
    ensures
        full_blocks(input, limit, count).push(
            Call::Block { bytes: input.skip(limit * count), is_last: true },
        ) == schedule(input, limit),
    decreases count,
{
    if count == 0 {
        assert(limit * 0 == 0);
        assert(input.skip(0) =~= input);
        assert(full_blocks(input, limit, 0).push(
            Call::Block { bytes: input.skip(limit * 0), is_last: true },
        ) =~= schedule(input, limit));
    } else {
        let rest = input.skip(limit);
        let fewer = (count - 1) as nat;
        assert(limit * count == limit * fewer + limit) by (nonlinear_arith)
            requires
                fewer == count - 1,
        ;
        assert(limit * fewer >= 0) by (nonlinear_arith)
            requires
                limit >= 1,
                fewer >= 0,
        ;
        assert(input.len() > limit);
        lemma_full_then_last(rest, limit, fewer);
        let whole = full_blocks(input, limit, count).push(
            Call::Block { bytes: input.skip(limit * count), is_last: true },
        );
        let tail = full_blocks(rest, limit, fewer).push(
            Call::Block { bytes: rest.skip(limit * fewer), is_last: true },
        );
        let first = seq![Call::Block { bytes: input.take(limit), is_last: false }];
        assert forall|i: int| 0 <= i < whole.len() implies whole[i] == (first + tail)[i] by {
            if i == 0 {
                assert(limit * 0 == 0);
                assert(input.subrange(0, limit) =~= input.take(limit));
            } else if i < count {
                assert(limit * i == limit * (i - 1) + limit) by (nonlinear_arith);
                assert(limit * i + limit <= limit * count && limit * (i - 1) >= 0) by (nonlinear_arith)
                    requires
                        1 <= i < count,
                        limit >= 1,
                ;
                assert(input.subrange(limit * i, limit * i + limit) =~= rest.subrange(
                    limit * (i - 1),
                    limit * (i - 1) + limit,
                ));
            } else {
                assert(input.skip(limit * count) =~= rest.skip(limit * fewer));
            }
        }
        assert(whole =~= first + tail);
    }
}

/// The blocks of an input, put together, are the input: nothing is left out, nothing
/// comes twice.
pub proof fn lemma_schedule_covers(input: Seq<u8>, limit: int)
    ensures
        handed_by(schedule(input, limit)) == input,
    decreases input.len(),
{
    let calls = schedule(input, limit);
    reveal_with_fuel(handed_by, 2);
    if limit < 1 || input.len() <= limit {
        assert(calls.drop_last() =~= Seq::<Call>::empty());
        assert(handed_by(calls) =~= input);
    } else {
        let rest = input.skip(limit);
        lemma_schedule_covers(rest, limit);
        let first = seq![Call::Block { bytes: input.take(limit), is_last: false }];
        lemma_handed_joined(first, schedule(rest, limit));
        assert(first.drop_last() =~= Seq::<Call>::empty());
        assert(handed_by(first) =~= input.take(limit));
        assert(input.take(limit) + rest =~= input);
    }
}

/// What two runs of calls hand on stands one after the other.
proof fn lemma_handed_joined(left: Seq<Call>, right: Seq<Call>)
    ensures
        handed_by(left + right) == handed_by(left) + handed_by(right),
    decreases right.len(),
{
    if right.len() == 0 {
        assert(left + right =~= left);
        assert(handed_by(left) + handed_by(right) =~= handed_by(left));
    } else {
        lemma_handed_joined(left, right.drop_last());
        assert((left + right).drop_last() =~= left + right.drop_last());
        assert(handed_by(left + right) =~= handed_by(left) + handed_by(right));
    }
}

/// One more full block.
proof fn lemma_one_more_full(input: Seq<u8>, limit: int, count: nat, block: Seq<u8>)
    requires
        input.len() == limit * count,
        block.len() == limit,
    ensures
        full_blocks(input + block, limit, count + 1) == full_blocks(input, limit, count).push(
            Call::Block { bytes: block, is_last: false },
        ),
        (input + block).len() == limit * (count + 1),
{
    let longer = full_blocks(input + block, limit, count + 1);
    let last = Call::Block { bytes: block, is_last: false };
    assert(limit * (count + 1) == limit * count + limit) by (nonlinear_arith);
    assert forall|i: int| 0 <= i < longer.len() implies longer[i] == full_blocks(
        input,
        limit,
        count,
    ).push(last)[i] by {
        if i < count {
            assert(0 <= limit * i && limit * i + limit <= limit * count) by (nonlinear_arith)
                requires
                    0 <= i < count,
                    limit >= 0,
            ;
            assert((input + block).subrange(limit * i, limit * i + limit) =~= input.subrange(
                limit * i,
                limit * i + limit,
            ));
        } else {
            assert((input + block).subrange(limit * i, limit * i + limit) =~= block);
        }
    }
    assert(longer =~= full_blocks(input, limit, count).push(last));
}

/// Nothing but blocks was asked.
pub open spec fn only_blocks(calls: Seq<Call>) -> bool {
    forall|i: int| 0 <= i < calls.len() ==> #[trigger] calls[i] is Block
}

/// The calls so far asked for full blocks, none of them the last.
pub open spec fn full_so_far(handed: Seq<u8>, limit: int, calls: Seq<Call>) -> bool {
    &&& handed.len() == limit * calls.len()
    &&& calls == full_blocks(handed, limit, calls.len())
}

/// The calls asked for full blocks, and for what is left as the last.
pub open spec fn cut_up(input: Seq<u8>, limit: int, calls: Seq<Call>) -> bool {
    let count = (calls.len() - 1) as nat;
    &&& calls.len() >= 1
    &&& limit * count <= input.len() <= limit * count + limit
    &&& calls == full_blocks(input, limit, count).push(
        Call::Block { bytes: input.skip(limit * count), is_last: true },
    )
}

/// At first nothing was asked.
pub proof fn lemma_nothing_asked(limit: int)
    ensures
        full_so_far(Seq::empty(), limit, Seq::empty()),
{
    assert(limit * 0 == 0);
    assert(full_blocks(Seq::empty(), limit, 0) =~= Seq::<Call>::empty());
}

/// A flush stays on record.
pub proof fn lemma_flush_shows(calls: Seq<Call>, bytes: Seq<u8>)
    ensures
        !only_blocks(calls.push(Call::Flush { bytes })),
{
    assert(calls.push(Call::Flush { bytes })[calls.len() as int] is Flush);
}

/// What was only blocks with one call more was before.
proof fn lemma_only_blocks_before(calls: Seq<Call>, call: Call)
    requires
        only_blocks(calls.push(call)),
    ensures
        only_blocks(calls),
{
    assert forall|i: int| 0 <= i < calls.len() implies #[trigger] calls[i] is Block by {
        assert(calls.push(call)[i] is Block);
    }
}

/// Asking for one more full block goes on in order.
pub proof fn lemma_one_more(calls: Seq<Call>, handed: Seq<u8>, limit: int, block: Seq<u8>)
    requires
        only_blocks(calls) ==> full_so_far(handed, limit, calls),
        block.len() == limit,
    ensures
        ({
            let after = calls.push(Call::Block { bytes: block, is_last: false });
            only_blocks(after) ==> full_so_far(handed + block, limit, after)
        }),
{
    let call = Call::Block { bytes: block, is_last: false };
    if only_blocks(calls.push(call)) {
        lemma_only_blocks_before(calls, call);
        lemma_one_more_full(handed, limit, calls.len(), block);
    }
}

/// Asking for what is left as the last block ends in order.
pub proof fn lemma_the_end(calls: Seq<Call>, handed: Seq<u8>, limit: int, block: Seq<u8>)
    requires
        only_blocks(calls) ==> full_so_far(handed, limit, calls),
        block.len() <= limit,
    ensures
        ({
            let after = calls.push(Call::Block { bytes: block, is_last: true });
            only_blocks(after) ==> cut_up(handed + block, limit, after)
        }),
{
    let call = Call::Block { bytes: block, is_last: true };
    if only_blocks(calls.push(call)) {
        lemma_only_blocks_before(calls, call);
        let input = handed + block;
        let count = calls.len();
        assert(input.skip(limit * count) =~= block);
        assert forall|i: int| 0 <= i < count implies full_blocks(input, limit, count)[i]
            == full_blocks(handed, limit, count)[i] by {
            assert(0 <= limit * i && limit * i + limit <= limit * count) by (nonlinear_arith)
                requires
                    0 <= i < count,
                    limit >= 0,
            ;
            assert(input.subrange(limit * i, limit * i + limit) =~= handed.subrange(
                limit * i,
                limit * i + limit,
            ));
        }
        assert(full_blocks(input, limit, count) =~= full_blocks(handed, limit, count));
    }
}

/// An input cut up is cut as compressing it at once cuts it, unless an empty block
/// was asked for at the end.
pub proof fn lemma_cut_is_schedule(input: Seq<u8>, limit: int, calls: Seq<Call>)
    requires
        limit >= 1,
        cut_up(input, limit, calls),
        bytes_of(calls.last()).len() > 0 || input.len() == 0,
    ensures
        calls == schedule(input, limit),
{
    let count = (calls.len() - 1) as nat;
    assert(limit * 0 == 0);
    if input.len() == 0 && count > 0 {
        assert(limit * count > 0) by (nonlinear_arith)
            requires
                limit >= 1,
                count > 0,
        ;
    }
    lemma_full_then_last(input, limit, count);
}

/// The full blocks of an input that goes on after them begin its schedule.
pub proof fn lemma_full_begins(input: Seq<u8>, limit: int, count: nat)
    requires
        limit >= 1,
        limit * count < input.len() || count == 0,
    ensures
        full_blocks(input, limit, count).is_prefix_of(schedule(input, limit)),
    decreases count,
{
    let whole = schedule(input, limit);
    let full = full_blocks(input, limit, count);
    if count > 0 {
        let rest = input.skip(limit);
        let fewer = (count - 1) as nat;
        assert(limit * count == limit * fewer + limit) by (nonlinear_arith)
            requires
                fewer == count - 1,
        ;
        assert(limit * fewer >= 0) by (nonlinear_arith)
            requires
                limit >= 1,
                fewer >= 0,
        ;
        lemma_full_begins(rest, limit, fewer);
        let tail = full_blocks(rest, limit, fewer);
        let later = schedule(rest, limit);
        assert(later.take(fewer as int) == tail);
        assert(full =~= seq![Call::Block { bytes: input.take(limit), is_last: false }] + tail) by {
            assert forall|i: int| 0 <= i < count implies full[i] == (seq![
                Call::Block { bytes: input.take(limit), is_last: false },
            ] + tail)[i] by {
                if i == 0 {
                    assert(limit * 0 == 0);
                    assert(input.subrange(0, limit) =~= input.take(limit));
                } else {
                    assert(limit * i == limit * (i - 1) + limit) by (nonlinear_arith);
                    assert(limit * (i - 1) >= 0) by (nonlinear_arith)
                        requires
                            limit >= 1,
                            i >= 1,
                    ;
                    assert(limit * i + limit <= limit * count) by (nonlinear_arith)
                        requires
                            limit >= 1,
                            i + 1 <= count,
                    ;
                    assert(rest.subrange(limit * (i - 1), limit * (i - 1) + limit)
                        =~= input.subrange(limit * i, limit * i + limit));
                }
            }
        }
        assert(whole.take(count as int) =~= seq![
            Call::Block { bytes: input.take(limit), is_last: false },
        ] + later.take(fewer as int));
        assert(whole.take(count as int) =~= full);
    } else {
        assert(whole.take(0) =~= full);
    }
}

/// Fewer answers put together are no longer.
pub proof fn lemma_fewer_made(answers: Seq<Seq<u8>>, n: int)
    requires
        0 <= n <= answers.len(),
    ensures
        put_together(answers.take(n)).len() <= put_together(answers).len(),
    decreases answers.len(),
{
    if n < answers.len() {
        lemma_fewer_made(answers.drop_last(), n);
        assert(answers.drop_last().take(n) =~= answers.take(n));
    } else {
        assert(answers.take(n) =~= answers);
    }
}

/// How a stream got its encoder.
pub struct Start {
    /// The family the encoder is of.
    pub family: Family,
    /// The instructions it uses.
    pub backend: Backend,
    /// What it was built or restored for.
    pub settings: config::Settings,
    /// The size hint it goes by.
    pub hint: usize,
    /// Whether it served another stream before.
    pub reused: bool,
}

/// An encoder serves another stream, and is restored for it.
pub open spec fn restored<E: BlockEncoder>(
    before: E,
    settings: config::Settings,
    hint: usize,
    after: E,
) -> bool {
    E::serves(before, settings, hint, true, after)
}

/// An encoder does not serve another stream.
pub open spec fn turned_down<E: BlockEncoder>(
    before: E,
    settings: config::Settings,
    hint: usize,
    after: E,
) -> bool {
    E::serves(before, settings, hint, false, after)
}

/// What was asked of an encoder over one stream, and what it answered.
pub struct CallLog {
    /// How the stream got its encoder.
    pub start: Ghost<Option<Start>>,
    /// The calls that were answered, in order.
    pub calls: Ghost<Seq<Call>>,
    /// The answers.
    pub answers: Ghost<Seq<Seq<u8>>>,
    /// The last refusal.
    pub refused: Ghost<Option<BrotliCompressError>>,
    /// The call that was refused, unless there was no encoder at all.
    pub refusing: Ghost<Option<Call>>,
    /// What an encoder that was at hand was asked to serve, and did not.
    pub declined: Ghost<Option<Start>>,
    /// How much the encoder said it takes at once.
    pub limit: Ghost<Option<usize>>,
}

impl CallLog {
    /// Every call has its answer.
    pub open spec fn wf(&self) -> bool {
        self.answers@.len() == self.calls@.len()
    }

    /// The calls took an encoder from one to another.
    pub open spec fn ran_by<E>(&self, steps: Steps<E>, first: E, last: E) -> bool {
        ran(steps, first, self.calls@, self.answers@, last)
    }

    /// An encoder refused the call that is noted as refused.
    pub open spec fn refused_by<E>(&self, steps: Steps<E>, last: E) -> bool {
        &&& self.refusing@ is Some && self.refused@ is Some
        &&& exists|lost: E| #[trigger]
            steps_to(steps, last, self.refusing@->0, Err(self.refused@->0), lost)
    }

    /// An encoder that did not serve was asked to.
    pub open spec fn declined_by<E: BlockEncoder>(&self) -> bool {
        self.declined@ matches Some(start) ==> exists|before: E, after: E| #[trigger]
            turned_down(before, start.settings, start.hint, after)
    }

    /// What was handed to the encoder.
    pub open spec fn handed(&self) -> Seq<u8> {
        handed_by(self.calls@)
    }

    /// What the encoder made of it.
    pub open spec fn made(&self) -> Seq<u8> {
        put_together(self.answers@)
    }

    /// The log after one more call.
    pub open spec fn and_then_asked(&self, call: Call, answer: Seq<u8>, after: &CallLog) -> bool {
        &&& after.calls@ == self.calls@.push(call)
        &&& after.answers@ == self.answers@.push(answer)
        &&& after.handed() == self.handed() + bytes_of(call)
        &&& after.made() == self.made() + answer
        &&& after.refused == self.refused
        &&& after.refusing == self.refusing
        &&& self.same_encoder(after)
    }

    /// The encoder is the same.
    pub open spec fn same_encoder(&self, after: &CallLog) -> bool {
        &&& after.start == self.start
        &&& after.declined == self.declined
        &&& after.limit == self.limit
    }

    /// The log after a refusal.
    pub open spec fn but_refused(
        &self,
        call: Option<Call>,
        error: BrotliCompressError,
        after: &CallLog,
    ) -> bool {
        &&& after.refused@ == Some(error)
        &&& after.refusing@ == call
        &&& after.calls == self.calls
        &&& after.answers == self.answers
        &&& self.same_encoder(after)
    }

    /// The log once there is an encoder.
    pub open spec fn started_as(&self, start: Start, after: &CallLog) -> bool {
        &&& after.start@ == Some(start)
        &&& after.calls == self.calls
        &&& after.answers == self.answers
        &&& after.refused == self.refused
        &&& after.refusing == self.refusing
        &&& after.declined == self.declined
        &&& after.limit == self.limit
    }

    /// The log once an encoder declined to serve.
    pub open spec fn declined_as(&self, start: Start, after: &CallLog) -> bool {
        &&& after.declined@ == Some(start)
        &&& after.start == self.start
        &&& after.calls == self.calls
        &&& after.answers == self.answers
        &&& after.refused == self.refused
        &&& after.refusing == self.refusing
        &&& after.limit == self.limit
    }

    /// The log once the encoder said how much it takes at once.
    pub open spec fn limited_to(&self, said: usize, after: &CallLog) -> bool {
        &&& after.limit@ == Some(said)
        &&& after.start == self.start
        &&& after.calls == self.calls
        &&& after.answers == self.answers
        &&& after.refused == self.refused
        &&& after.refusing == self.refusing
        &&& after.declined == self.declined
    }

    /// Nothing was asked yet.
    pub fn new() -> (log: Self)
        ensures
            log.wf(),
            log.calls@ == Seq::<Call>::empty(),
            log.handed() == Seq::<u8>::empty(),
            log.made() == Seq::<u8>::empty(),
            log.start@ is None,
            log.refused@ is None,
            log.refusing@ is None,
            log.declined@ is None,
            log.limit@ is None,
    {
        CallLog {
            start: Ghost(None),
            calls: Ghost(Seq::empty()),
            answers: Ghost(Seq::empty()),
            refused: Ghost(None),
            refusing: Ghost(None),
            declined: Ghost(None),
            limit: Ghost(None),
        }
    }

    /// Asks for an encoder of the family a quality routes to.
    pub fn ask_for_encoder<E: BlockEncoder>(
        &mut self,
        backend: Backend,
        params: &CompressParams,
        hint: usize,
    ) -> (result: BrotliResult<E>)
        ensures
            ({
                let start = Start {
                    family: Family::of(params@.quality),
                    backend,
                    settings: params@,
                    hint,
                    reused: false,
                };
                match result {
                    Ok(encoder) => E::starts(start, Ok(encoder)) && old(self).started_as(
                        start,
                        final(self),
                    ),
                    Err(error) => E::starts(start, Err(error)) && old(self).but_refused(
                        None,
                        error,
                        final(self),
                    ),
                }
            }),
    {
        let family = Family::route(params.quality());
        match E::build(family, backend, params, hint) {
            Ok(encoder) => {
                self.start = Ghost(
                    Some(Start { family, backend, settings: params@, hint, reused: false }),
                );
                Ok(encoder)
            },
            Err(error) => {
                self.refused = Ghost(Some(error));
                self.refusing = Ghost(None);
                Err(error)
            },
        }
    }

    /// Asks an encoder that was built for `backend` to serve another stream, and
    /// returns whether it does. Either answer is noted.
    pub fn ask_to_serve<E: BlockEncoder>(
        &mut self,
        encoder: &mut E,
        backend: Backend,
        params: &CompressParams,
        hint: usize,
    ) -> (fits: bool)
        ensures
            ({
                let start = Start {
                    family: Family::of(params@.quality),
                    backend,
                    settings: params@,
                    hint,
                    reused: true,
                };
                &&& E::serves(*old(encoder), params@, hint, fits, *final(encoder))
                &&& if fits {
                    old(self).started_as(start, final(self))
                } else {
                    old(self).declined_as(start, final(self))
                }
            }),
    {
        let ghost start = Start {
            family: Family::of(params@.quality),
            backend,
            settings: params@,
            hint,
            reused: true,
        };
        let fits: bool = encoder.reset_for(params, hint);
        if fits {
            self.start = Ghost(Some(start));
        } else {
            self.declined = Ghost(Some(start));
        }
        fits
    }

    /// Asks an encoder how much it takes at once, and notes it.
    pub fn ask_limit<E: BlockEncoder>(&mut self, encoder: &E) -> (limit: usize)
        ensures
            old(self).limited_to(limit, final(self)),
            E::takes(*encoder, limit),
    {
        let limit: usize = encoder.block_size_limit();
        self.limit = Ghost(Some(limit));
        limit
    }

    /// Notes a call and its answer.
    fn note(&mut self, call: Ghost<Call>, answer: &Vec<u8>)
        ensures
            old(self).and_then_asked(call@, answer@, final(self)),
    {
        self.calls = Ghost(self.calls@.push(call@));
        self.answers = Ghost(self.answers@.push(answer@));
        proof {
            assert(self.calls@.drop_last() =~= old(self).calls@);
            assert(self.answers@.drop_last() =~= old(self).answers@);
        }
    }

    /// Asks for a block of a one-shot stream, and notes it if there is an answer.
    pub fn ask_block<E: BlockEncoder>(&mut self, encoder: &mut E, input: &[u8], is_last: bool) -> (result:
        BrotliResult<Vec<u8>>)
        ensures
            steps_to(
                of_blocks::<E>(),
                *old(encoder),
                Call::Block { bytes: input@, is_last },
                said(result),
                *final(encoder),
            ),
            is_last && result is Ok ==> result->Ok_0@.len() > 0,
            match result {
                Ok(bytes) => old(self).and_then_asked(
                    Call::Block { bytes: input@, is_last },
                    bytes@,
                    final(self),
                ),
                Err(error) => old(self).but_refused(
                    Some(Call::Block { bytes: input@, is_last }),
                    error,
                    final(self),
                ),
            },
    {
        match encoder.encode_block(input, is_last) {
            Ok(bytes) => {
                self.note(Ghost(Call::Block { bytes: input@, is_last }), &bytes);
                Ok(bytes)
            },
            Err(error) => {
                self.refused = Ghost(Some(error));
                self.refusing = Ghost(Some(Call::Block { bytes: input@, is_last }));
                Err(error)
            },
        }
    }

    /// Asks for a block of an incremental stream, and notes it if there is an
    /// answer.
    pub fn ask_next<E: StreamEncoder>(&mut self, encoder: &mut E, input: &[u8], is_last: bool) -> (result:
        BrotliResult<Vec<u8>>)
        ensures
            steps_to(
                of_streams::<E>(),
                *old(encoder),
                Call::Block { bytes: input@, is_last },
                said(result),
                *final(encoder),
            ),
            match result {
                Ok(bytes) => old(self).and_then_asked(
                    Call::Block { bytes: input@, is_last },
                    bytes@,
                    final(self),
                ),
                Err(error) => old(self).but_refused(
                    Some(Call::Block { bytes: input@, is_last }),
                    error,
                    final(self),
                ),
            },
    {
        match encoder.encode_block(input, is_last) {
            Ok(bytes) => {
                self.note(Ghost(Call::Block { bytes: input@, is_last }), &bytes);
                Ok(bytes)
            },
            Err(error) => {
                self.refused = Ghost(Some(error));
                self.refusing = Ghost(Some(Call::Block { bytes: input@, is_last }));
                Err(error)
            },
        }
    }

    /// Asks for a block and a flush, and notes it if there is an answer.
    pub fn ask_flush<E: StreamEncoder>(&mut self, encoder: &mut E, input: &[u8]) -> (result:
        BrotliResult<Vec<u8>>)
        ensures
            steps_to(
                of_streams::<E>(),
                *old(encoder),
                Call::Flush { bytes: input@ },
                said(result),
                *final(encoder),
            ),
            match result {
                Ok(bytes) => old(self).and_then_asked(
                    Call::Flush { bytes: input@ },
                    bytes@,
                    final(self),
                ),
                Err(error) => old(self).but_refused(
                    Some(Call::Flush { bytes: input@ }),
                    error,
                    final(self),
                ),
            },
    {
        match encoder.flush_block(input) {
            Ok(bytes) => {
                self.note(Ghost(Call::Flush { bytes: input@ }), &bytes);
                Ok(bytes)
            },
            Err(error) => {
                self.refused = Ghost(Some(error));
                self.refusing = Ghost(Some(Call::Flush { bytes: input@ }));
                Err(error)
            },
        }
    }
}

} // verus!
