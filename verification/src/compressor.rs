//! One-shot entry points for a chosen backend.
use vstd::prelude::*;

use crate::backend::Backend;
use crate::bound;
use crate::bound::bound;
use crate::calls;
use crate::calls::CallLog;
use crate::config;
use crate::config::{BrotliCompressError, BrotliResult, CompressParams, SharedBrotliError};
use crate::driver;
use crate::driver::{compress_to_slice, compress_to_vec, BlockEncoder, EncoderCache, Family};
use crate::reader::{CompressorReader, Source};
use crate::session;
use crate::session::{EncoderSession, Phase, StreamEncoder};

verus! {

/// Compresses with the instructions of one backend.
#[derive(Copy, Clone, Debug)]
pub struct Compressor {
    /// The instructions to use.
    pub backend: Backend,
}

impl From<Backend> for Compressor {
    /// Compresses with the instructions of `backend`.
    fn from(backend: Backend) -> (compressor: Self) {
        Compressor { backend }
    }
}

impl vstd::std_specs::convert::FromSpecImpl<Backend> for Compressor {
    open spec fn obeys_from_spec() -> bool {
        true
    }

    open spec fn from_spec(backend: Backend) -> Self {
        Compressor { backend }
    }
}

/// The bytes of a result.
pub open spec fn shown(result: BrotliResult<Vec<u8>>) -> BrotliResult<Seq<u8>> {
    match result {
        Ok(output) => Ok(output@),
        Err(error) => Err(error),
    }
}

impl Compressor {
    /// Returns the most an input of this size can take once compressed.
    pub fn calculate_bound(&self, params: &CompressParams, input_size: usize) -> (result: BrotliResult<
        usize,
    >)
        ensures
            match result {
                Ok(bytes) => bytes == bound::bound_of(params@, input_size as int),
                Err(error) => error == BrotliCompressError::BoundOverflow && bound::bound_of(
                    params@,
                    input_size as int,
                ) > usize::MAX,
            },
    {
        bound(params, input_size)
    }

    /// Compresses an input into a new vector.
    ///
    /// An empty input is one byte. A stream longer than compressing may make it is
    /// replaced by one that holds the input verbatim.
    pub fn compress<E: BlockEncoder>(&self, params: CompressParams, src: &[u8]) -> (result: BrotliResult<
        Vec<u8>,
    >)
        ensures
            bound::bound_of(params@, src@.len() as int) > usize::MAX ==> result == Err::<Vec<u8>, _>(
                BrotliCompressError::BoundOverflow,
            ),
            bound::bound_of(params@, src@.len() as int) <= usize::MAX
                && driver::refuses_large_window(params@) ==> result == Err::<Vec<u8>, _>(
                BrotliCompressError::Shared(
                    SharedBrotliError::UnsupportedLargeWindow { quality: params@.quality.number() },
                ),
            ),
            bound::bound_of(params@, src@.len() as int) <= usize::MAX
                && !driver::refuses_large_window(params@) && src@.len() == 0 ==> result is Ok
                && result->Ok_0@ == seq![6u8],
            bound::bound_of(params@, src@.len() as int) <= usize::MAX
                && !driver::refuses_large_window(params@) && src@.len() > 0 ==> exists|
                log: CallLog,
            | #[trigger]
                driver::stream_settled::<E>(
                    &log,
                    driver::started(params@, self.backend, src@.len() as usize, false),
                    src@,
                    shown(result),
                ),
    {
        match bound(&params, src.len()) {
            Err(error) => return Err(error),
            Ok(_) => {},
        }
        let mut cache: EncoderCache<E> = EncoderCache::new();
        let mut output: Vec<u8> = Vec::new();
        match compress_to_vec(&mut cache, self.backend, &params, src, &mut output) {
            Err(error) => Err(error),
            Ok(_) => {
                proof {
                    assert(output@.skip(0) =~= output@);
                    if src@.len() == 0 {
                        assert(output@ =~= seq![6u8]);
                    }
                }
                Ok(output)
            },
        }
    }

    /// Compresses an input into a caller's buffer, and returns how much is used.
    pub fn compress_to_slice<E: BlockEncoder>(
        &self,
        params: CompressParams,
        src: &[u8],
        dst: &mut [u8],
    ) -> (result: BrotliResult<usize>)
        ensures
            final(dst)@.len() == old(dst)@.len(),
            driver::refuses_large_window(params@) ==> result == Err::<usize, _>(
                BrotliCompressError::Shared(
                    SharedBrotliError::UnsupportedLargeWindow { quality: params@.quality.number() },
                ),
            ),
            !driver::refuses_large_window(params@) && src@.len() == 0 ==> (if old(dst)@.len() == 0 {
                result == Err::<usize, _>(BrotliCompressError::OutputTooSmall)
            } else {
                result == Ok::<usize, BrotliCompressError>(1) && final(dst)@ == old(dst)@.update(
                    0,
                    6,
                )
            }),
            result matches Ok(n) ==> 0 < n <= final(dst)@.len() && n <= driver::most_compressed(
                src@.len() as int,
            ),
            !driver::refuses_large_window(params@) && src@.len() > 0 ==> exists|log: CallLog|
             #[trigger] driver::slice_settled::<E>(
                &log,
                driver::started(params@, self.backend, src@.len() as usize, false),
                src@,
                final(dst)@,
                result,
            ),
    {
        let mut cache: EncoderCache<E> = EncoderCache::new();
        compress_to_slice(&mut cache, self.backend, &params, src, dst)
    }

    /// Compresses what a source delivers.
    pub fn compress_reader<T: Source, E: BlockEncoder>(&self, params: CompressParams, reader: T) -> (source:
        CompressorReader<T, E>)
        ensures
            source.wf(),
            source.reader == reader,
            source.backend == self.backend,
            source.params == params,
            source.encoder is None,
            source.served == source.output@.len(),
            !source.eof,
            !source.ended,
            source.log.calls@.len() == 0,
            source.received@.len() == 0,
            source.delivered@.len() == 0,
    {
        CompressorReader::new(reader, self.backend, params)
    }
}

/// Two kinds of encoders are interchangeable: where they get to a stream with the same
/// settings and size hint, whichever instructions they use and whatever they served
/// before, both are refused for the same reason or they are alike; and where two of
/// them are alike, they take equally much at once, answer a call the same, and are
/// alike afterwards.
pub open spec fn interchangeable<E: BlockEncoder, F: BlockEncoder>(
    alike: spec_fn(E, F) -> bool,
) -> bool {
    &&& begin_alike(alike)
    &&& take_alike(alike)
    &&& calls::agree(calls::of_blocks::<E>(), calls::of_blocks::<F>(), alike)
}

/// A stream can get its encoder so, or be refused one.
pub open spec fn got<E: BlockEncoder>(start: calls::Start, built: BrotliResult<E>) -> bool {
    match built {
        Ok(encoder) => driver::begun(start, encoder),
        Err(error) => !start.reused && E::starts(start, Err(error)),
    }
}

/// Encoders for the same settings and size hint are alike, or both are refused.
pub open spec fn begin_alike<E: BlockEncoder, F: BlockEncoder>(
    alike: spec_fn(E, F) -> bool,
) -> bool {
    forall|a: calls::Start, b: calls::Start, left: BrotliResult<E>, right: BrotliResult<F>|
        #![trigger got::<E>(a, left), got::<F>(b, right)]
        a.settings == b.settings && a.hint == b.hint && a.family == Family::of(a.settings.quality)
            && b.family == a.family && got::<E>(a, left) && got::<F>(b, right) ==> match (left, right) {
            (Ok(e), Ok(f)) => alike(e, f),
            (Err(e), Err(f)) => e == f,
            (_, _) => false,
        }
}

/// Encoders that are alike take equally much at once.
pub open spec fn take_alike<E: BlockEncoder, F: BlockEncoder>(
    alike: spec_fn(E, F) -> bool,
) -> bool {
    forall|e: E, f: F, l: usize, m: usize|
        #![trigger E::takes(e, l), F::takes(f, m)]
        alike(e, f) && E::takes(e, l) && F::takes(f, m) ==> l == m
}

/// Of two streams of the same input, the one that came less far was answered like the
/// other, and was not refused a call that the other one answered.
proof fn lemma_one_goes_as_far<E, F>(
    steps: (calls::Steps<E>, calls::Steps<F>),
    alike: spec_fn(E, F) -> bool,
    left: &CallLog,
    right: &CallLog,
    firsts: (E, F),
    lasts: (E, F),
    whole: Seq<calls::Call>,
)
    requires
        calls::agree(steps.0, steps.1, alike),
        alike(firsts.0, firsts.1),
        left.ran_by(steps.0, firsts.0, lasts.0),
        right.ran_by(steps.1, firsts.1, lasts.1),
        left.calls@.is_prefix_of(whole),
        right.calls@.is_prefix_of(whole),
        left.calls@.len() <= right.calls@.len(),
    ensures
        left.answers@ == right.answers@.take(left.calls@.len() as int),
        left.calls@.len() == right.calls@.len() ==> alike(lasts.0, lasts.1),
        // What the other one answered next, this one does not refuse.
        left.calls@.len() < right.calls@.len() && left.refused_by(steps.0, lasts.0)
            ==> left.refusing@->0 != right.calls@[left.calls@.len() as int],
{
    let n = left.calls@.len() as int;
    let between = calls::lemma_ran_first(
        steps.1,
        firsts.1,
        right.calls@,
        right.answers@,
        lasts.1,
        n,
    );
    assert(left.calls@ =~= right.calls@.take(n));
    calls::lemma_ran_alike(
        steps.0,
        steps.1,
        alike,
        firsts.0,
        firsts.1,
        left.calls@,
        left.answers@,
        right.answers@.take(n),
        lasts.0,
        between,
    );
    if n == right.calls@.len() {
        assert(right.answers@.take(n) =~= right.answers@);
        calls::lemma_ran_alike(
            steps.0,
            steps.1,
            alike,
            firsts.0,
            firsts.1,
            left.calls@,
            left.answers@,
            right.answers@,
            lasts.0,
            lasts.1,
        );
    } else if left.refused_by(steps.0, lasts.0) {
        let lost = choose|lost: E| #[trigger]
            calls::steps_to(
                steps.0,
                lasts.0,
                left.refusing@->0,
                Err(left.refused@->0),
                lost,
            );
        let after = choose|after: F| #[trigger]
            calls::steps_to(steps.1, between, right.calls@[n], Ok(right.answers@[n]), after);
        if left.refusing@->0 == right.calls@[n] {
            assert(calls::steps_to(
                steps.1,
                between,
                left.refusing@->0,
                Ok(right.answers@[n]),
                after,
            ));
            assert(false);
        }
    }
}

/// Two streams of the same input that both were refused, were refused for the same
/// reason.
proof fn lemma_refused_alike<E, F>(
    steps: (calls::Steps<E>, calls::Steps<F>),
    alike: spec_fn(E, F) -> bool,
    left: &CallLog,
    right: &CallLog,
    lasts: (E, F),
)
    requires
        calls::agree(steps.0, steps.1, alike),
        alike(lasts.0, lasts.1),
        left.refused_by(steps.0, lasts.0),
        right.refused_by(steps.1, lasts.1),
        left.refusing@ == right.refusing@,
    ensures
        left.refused@ == right.refused@,
{
    let lost = choose|lost: E| #[trigger]
        calls::steps_to(steps.0, lasts.0, left.refusing@->0, Err(left.refused@->0), lost);
    let other = choose|other: F| #[trigger]
        calls::steps_to(steps.1, lasts.1, right.refusing@->0, Err(right.refused@->0), other);
    assert(Err::<Seq<u8>, BrotliCompressError>(left.refused@->0) == Err::<
        Seq<u8>,
        BrotliCompressError,
    >(right.refused@->0));
}

/// Agreement read the other way round.
proof fn lemma_agree_back<E, F>(
    steps: (calls::Steps<E>, calls::Steps<F>),
    alike: spec_fn(E, F) -> bool,
) -> (back: spec_fn(F, E) -> bool)
    requires
        calls::agree(steps.0, steps.1, alike),
    ensures
        calls::agree(steps.1, steps.0, back),
        back == (|f: F, e: E| alike(e, f)),
{
    let back = |f: F, e: E| alike(e, f);
    assert forall|
        f: F,
        e: E,
        call: calls::Call,
        b: BrotliResult<Seq<u8>>,
        a: BrotliResult<Seq<u8>>,
        f2: F,
        e2: E,
    |
        #![trigger calls::steps_to(steps.1, f, call, b, f2), calls::steps_to(steps.0, e, call, a, e2)]
        back(f, e) && calls::steps_to(steps.1, f, call, b, f2) && calls::steps_to(
            steps.0,
            e,
            call,
            a,
            e2,
        ) implies b == a && (b is Ok ==> back(f2, e2)) by {
        assert(calls::steps_to(steps.0, e, call, a, e2));
        assert(calls::steps_to(steps.1, f, call, b, f2));
    }
    back
}

/// Where a stream got its encoder, and where another did: they are alike and take
/// equally much.
proof fn lemma_both_got<E: BlockEncoder, F: BlockEncoder>(
    alike: spec_fn(E, F) -> bool,
    left: &CallLog,
    right: &CallLog,
    firsts: (E, F),
    lasts: (E, F),
)
    requires
        interchangeable(alike),
        driver::ran_through(left, firsts.0, lasts.0),
        driver::ran_through(right, firsts.1, lasts.1),
        left.start@->0.settings == right.start@->0.settings,
        left.start@->0.hint == right.start@->0.hint,
        left.start@->0.family == Family::of(left.start@->0.settings.quality),
        left.start@->0.family == right.start@->0.family,
    ensures
        alike(firsts.0, firsts.1),
        left.limit@ == right.limit@,
{
    assert(got::<E>(left.start@->0, Ok(firsts.0)));
    assert(got::<F>(right.start@->0, Ok(firsts.1)));
    assert(E::takes(firsts.0, left.limit@->0) && F::takes(firsts.1, right.limit@->0));
}

/// The same input with the same settings comes to the same, whatever encoder was
/// retained before and whatever instructions are used, if the encoders are
/// interchangeable: the same bytes, or the same refusal.
pub proof fn lemma_caches_and_backends_agree<E: BlockEncoder, F: BlockEncoder>(
    alike: spec_fn(E, F) -> bool,
    left: &CallLog,
    right: &CallLog,
    settings: config::Settings,
    backends: (Backend, Backend),
    src: Seq<u8>,
    outcomes: (BrotliResult<Seq<u8>>, BrotliResult<Seq<u8>>),
)
    requires
        interchangeable(alike),
        driver::stream_settled::<E>(
            left,
            driver::started(settings, backends.0, src.len() as usize, false),
            src,
            outcomes.0,
        ),
        driver::stream_settled::<F>(
            right,
            driver::started(settings, backends.1, src.len() as usize, false),
            src,
            outcomes.1,
        ),
    ensures
        outcomes.0 == outcomes.1,
{
    let known = src.len() as usize;
    let a = driver::started(settings, backends.0, known, false);
    let b = driver::started(settings, backends.1, known, false);
    if left.start@ is None {
        assert(got::<E>(a, Err(left.refused@->0)));
        if right.start@ is None {
            assert(got::<F>(b, Err(right.refused@->0)));
        } else {
            let (first, last) = choose|first: F, last: F| #[trigger]
                driver::ran_through(right, first, last);
            assert(got::<F>(right.start@->0, Ok(first)));
        }
    } else {
        let (e, e2) = choose|first: E, last: E| #[trigger] driver::ran_through(left, first, last);
        if right.start@ is None {
            assert(got::<F>(b, Err(right.refused@->0)));
            assert(got::<E>(left.start@->0, Ok(e)));
        } else {
            let (f, f2) = choose|first: F, last: F| #[trigger]
                driver::ran_through(right, first, last);
            lemma_both_got(alike, left, right, (e, f), (e2, f2));
            lemma_same_outcome(alike, left, right, (e, f), (e2, f2), src, outcomes);
        }
    }
}

/// Two streams whose encoders started alike come to the same.
proof fn lemma_same_outcome<E: BlockEncoder, F: BlockEncoder>(
    alike: spec_fn(E, F) -> bool,
    left: &CallLog,
    right: &CallLog,
    firsts: (E, F),
    lasts: (E, F),
    src: Seq<u8>,
    outcomes: (BrotliResult<Seq<u8>>, BrotliResult<Seq<u8>>),
)
    requires
        calls::agree(calls::of_blocks::<E>(), calls::of_blocks::<F>(), alike),
        alike(firsts.0, firsts.1),
        driver::ran_through(left, firsts.0, lasts.0),
        driver::ran_through(right, firsts.1, lasts.1),
        left.limit@ == right.limit@,
        exists|start: calls::Start| #[trigger]
            driver::stream_settled::<E>(left, start, src, outcomes.0),
        exists|start: calls::Start| #[trigger]
            driver::stream_settled::<F>(right, start, src, outcomes.1),
    ensures
        outcomes.0 == outcomes.1,
{
    let steps = (calls::of_blocks::<E>(), calls::of_blocks::<F>());
    let whole = calls::schedule(src, driver::at_once(left.limit@->0));
    assert(whole.take(whole.len() as int) =~= whole);
    lemma_begins(left, whole);
    lemma_begins(right, whole);
    if left.calls@.len() <= right.calls@.len() {
        lemma_one_goes_as_far(steps, alike, left, right, firsts, lasts, whole);
        assert(right.answers@.take(right.answers@.len() as int) =~= right.answers@);
    } else {
        let back = lemma_agree_back(steps, alike);
        lemma_one_goes_as_far(
            (steps.1, steps.0),
            back,
            right,
            left,
            (firsts.1, firsts.0),
            (lasts.1, lasts.0),
            whole,
        );
    }
    if left.refused@ is Some && right.refused@ is Some && left.calls@.len() == right.calls@.len() {
        lemma_refused_alike(steps, alike, left, right, lasts);
    }
}

/// What was asked before a refusal, and the refused call, begin what there was to ask.
proof fn lemma_begins(log: &CallLog, whole: Seq<calls::Call>)
    requires
        log.calls@ == whole || log.refusing@ is Some && log.calls@.push(
            log.refusing@->0,
        ).is_prefix_of(whole),
    ensures
        log.calls@.is_prefix_of(whole),
        log.calls@ != whole ==> log.calls@.len() < whole.len() && log.refusing@->0
            == whole[log.calls@.len() as int],
{
    if log.calls@ == whole {
        assert(whole.take(whole.len() as int) =~= whole);
    } else {
        let more = log.calls@.push(log.refusing@->0);
        assert(more[log.calls@.len() as int] == log.refusing@->0);
        assert(log.calls@ =~= whole.take(log.calls@.len() as int)) by {
            assert forall|i: int| 0 <= i < log.calls@.len() implies log.calls@[i] == whole[i] by {
                assert(more[i] == log.calls@[i]);
            }
        }
    }
}

/// An input compressed into a vector and into a buffer becomes the same bytes, if the
/// encoders are interchangeable and the buffer has room for what the vector holds. If it
/// has not, the buffer is too small, or the input verbatim is shorter and fits.
pub proof fn lemma_vector_and_slice_agree<E: BlockEncoder, F: BlockEncoder>(
    alike: spec_fn(E, F) -> bool,
    vector: &CallLog,
    slice: &CallLog,
    settings: config::Settings,
    backends: (Backend, Backend),
    src: Seq<u8>,
    made: Seq<u8>,
    dst: Seq<u8>,
    result: BrotliResult<usize>,
)
    requires
        interchangeable(alike),
        driver::stream_settled::<E>(
            vector,
            driver::started(settings, backends.0, src.len() as usize, false),
            src,
            Ok(made),
        ),
        driver::slice_settled::<F>(
            slice,
            driver::started(settings, backends.1, src.len() as usize, false),
            src,
            dst,
            result,
        ),
    ensures
        made.len() <= dst.len() ==> (result matches Ok(n) && n == made.len() && dst.take(n as int)
            == made),
        made.len() > dst.len() ==> if driver::most_compressed(src.len() as int) <= usize::MAX
            && driver::verbatim_stream(src).len() <= dst.len() {
            result matches Ok(n) && dst.take(n as int) == driver::verbatim_stream(src)
        } else {
            result == Err::<usize, _>(BrotliCompressError::OutputTooSmall)
        },
{
    let (e, e2) = choose|first: E, last: E| #[trigger] driver::ran_through(vector, first, last);
    assert(got::<E>(vector.start@->0, Ok(e)));
    if slice.start@ is None {
        let b = driver::started(settings, backends.1, src.len() as usize, false);
        assert(got::<F>(b, Err(slice.refused@->0)));
    } else {
        let (f, f2) = choose|first: F, last: F| #[trigger] driver::ran_through(slice, first, last);
        lemma_both_got(alike, vector, slice, (e, f), (e2, f2));
        let steps = (calls::of_blocks::<E>(), calls::of_blocks::<F>());
        let back = lemma_agree_back(steps, alike);
        let n = slice.calls@.len() as int;
        assert(vector.calls@.take(vector.calls@.len() as int) =~= vector.calls@);
        lemma_one_goes_as_far(
            (steps.1, steps.0),
            back,
            slice,
            vector,
            (f, e),
            (f2, e2),
            vector.calls@,
        );
        if slice.refused@ is Some {
            lemma_begins(slice, vector.calls@);
        }
        calls::lemma_fewer_made(vector.answers@, n);
        assert(vector.answers@.take(vector.answers@.len() as int) =~= vector.answers@);
    }
}

/// Two sessions whose encoders started alike deliver the same bytes for the same input,
/// whatever pieces it was given and taken out in.
///
/// Neither continues another stream nor was flushed, and each was given its input in
/// order: what a call left is offered again.
pub proof fn lemma_sessions_agree<E: StreamEncoder, F: StreamEncoder>(
    alike: spec_fn(E, F) -> bool,
    left: &EncoderSession<E>,
    right: &EncoderSession<F>,
)
    requires
        calls::agree(calls::of_streams::<E>(), calls::of_streams::<F>(), alike),
        alike(left.first@, right.first@),
        left.limit == right.limit,
        left.wf(),
        left.encoder is Some,
        left.phase == Phase::Finished,
        left.waiting().len() == 0,
        left.course@.uninterrupted(),
        right.wf(),
        right.encoder is Some,
        right.phase == Phase::Finished,
        right.waiting().len() == 0,
        right.course@.uninterrupted(),
        left.accepted@ == right.accepted@,
    ensures
        left.delivered@ == right.delivered@,
{
    session::lemma_session_asks_the_schedule(left);
    session::lemma_session_asks_the_schedule(right);
    calls::lemma_ran_alike(
        calls::of_streams::<E>(),
        calls::of_streams::<F>(),
        alike,
        left.first@,
        right.first@,
        left.log.calls@,
        left.log.answers@,
        right.log.answers@,
        left.encoder->0,
        right.encoder->0,
    );
    assert(left.delivered@ + left.waiting() =~= left.delivered@);
    assert(right.delivered@ + right.waiting() =~= right.delivered@);
}

/// The same input becomes the same bytes, whether it is compressed at once, through
/// a session in any pieces, or through a reader, if the encoders started alike, agree
/// and take equally much at once.
///
/// What is compressed at once differs only where it is too long, and held verbatim.
/// A session must have started anew, must not have been flushed, and must have been
/// given its input in order: what a call left is offered again.
pub proof fn lemma_every_way_makes_the_same_bytes<
    T: Source,
    E: StreamEncoder,
    F: BlockEncoder,
>(
    alike: spec_fn(E, F) -> bool,
    once: &CallLog,
    start: calls::Start,
    made: Seq<u8>,
    session: &EncoderSession<E>,
    reader: &CompressorReader<T, F>,
    src: Seq<u8>,
)
    requires
        calls::agree(calls::of_streams::<E>(), calls::of_blocks::<F>(), alike),
        driver::stream_settled::<F>(once, start, src, Ok(made)),
        forall|f: F| #[trigger]
            driver::begun(once.start@->0, f) ==> alike(session.first@, f),
        driver::at_once(once.limit@->0) == session.limit,
        session.wf(),
        session.encoder is Some,
        session.phase == Phase::Finished,
        session.waiting().len() == 0,
        session.accepted@ == src,
        session.course@.uninterrupted(),
        reader.wf(),
        reader.ended,
        reader.served == reader.output@.len(),
        reader.received@ == src,
        reader.encoder matches Some(held) && held.1 == session.limit,
        reader.log.refused@ is None,
        forall|f: F| #[trigger]
            driver::begun(reader.log.start@->0, f) ==> alike(session.first@, f),
    ensures
        reader.delivered@ == session.delivered@,
        made == driver::one_shot(src, session.delivered@),
{
    session::lemma_session_asks_the_schedule(session);
    let steps = (calls::of_streams::<E>(), calls::of_blocks::<F>());
    let (f, f2) = choose|first: F, last: F| #[trigger] driver::ran_through(once, first, last);
    calls::lemma_ran_alike(
        steps.0,
        steps.1,
        alike,
        session.first@,
        f,
        session.log.calls@,
        session.log.answers@,
        once.answers@,
        session.encoder->0,
        f2,
    );
    let held = (reader.encoder->0).0;
    let g = choose|first: F| #[trigger] driver::ran_through(&reader.log, first, held);
    calls::lemma_ran_alike(
        steps.0,
        steps.1,
        alike,
        session.first@,
        g,
        session.log.calls@,
        session.log.answers@,
        reader.log.answers@,
        session.encoder->0,
        held,
    );
    assert(session.delivered@ + session.waiting() =~= session.delivered@);
    assert(reader.delivered@ + reader.output@.skip(reader.served as int) =~= reader.delivered@);
}

} // verus!
