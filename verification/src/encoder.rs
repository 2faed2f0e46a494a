//! The encoders, as the entry points are served by them.

use crate::backend::Backend;
use crate::calls;
use crate::calls::CallLog;
use crate::compressor;
use crate::config;
use crate::config::{BrotliCompressError, BrotliResult, CompressParams, WindowBits};
use crate::driver;
use crate::driver::{check_large_window, BlockEncoder, Family};
use crate::fast::encoder;
use crate::fast::encoder::{FastEncoder, FastQuality, Writing};
use crate::fast::fragment;
use crate::fast::fragment::{FragmentCoder, GiveUp};
use crate::fast::header;
use crate::fast::header::MAX_META_BLOCK;
use crate::hq::candidates::{NoCopies, NoPrefix, PrefixMatcher, TreeMatcher};
use crate::hq::encoder::{BlockEngine, HqEncoder, StoreOnly};
use crate::hq::nodes::{CostModel, PriceTable};
use crate::hq::params;
use crate::hq::params::{HqParams, HqQuality};
use crate::session::MAX_STREAM_POSITION;
use vstd::arithmetic::power2;
use vstd::prelude::*;

verus! {

/// What an encoder is given besides its parameters, made anew for every stream.
pub trait Fresh: Sized {
    /// One of this kind can be made for these settings.
    open spec fn makes(settings: config::Settings, made: Self) -> bool {
        arbitrary()
    }

    /// Makes one for a stream.
    fn fresh(backend: Backend, params: &CompressParams) -> (made: Self)
        ensures
            Self::makes(params@, made),
    ;
}

impl Fresh for GiveUp {
    open spec fn makes(settings: config::Settings, made: Self) -> bool {
        true
    }

    fn fresh(backend: Backend, params: &CompressParams) -> Self {
        GiveUp
    }
}

impl Fresh for NoCopies {
    open spec fn makes(settings: config::Settings, made: Self) -> bool {
        true
    }

    fn fresh(backend: Backend, params: &CompressParams) -> Self {
        NoCopies
    }
}

impl Fresh for NoPrefix {
    open spec fn makes(settings: config::Settings, made: Self) -> bool {
        true
    }

    fn fresh(backend: Backend, params: &CompressParams) -> Self {
        NoPrefix
    }
}

impl Fresh for StoreOnly {
    open spec fn makes(settings: config::Settings, made: Self) -> bool {
        true
    }

    fn fresh(backend: Backend, params: &CompressParams) -> Self {
        StoreOnly
    }
}

impl Fresh for PriceTable {
    /// A literal costs its eight bits, and nothing else costs anything.
    open spec fn makes(settings: config::Settings, made: Self) -> bool {
        &&& made.literal == 8
        &&& made.commands@.len() == 0
        &&& made.distances@.len() == 0
        &&& made.least == 0
    }

    fn fresh(backend: Backend, params: &CompressParams) -> (table: Self)
    {
        PriceTable { literal: 8, commands: Vec::new(), distances: Vec::new(), least: 0 }
    }
}

/// The encoder of the two lowest qualities with the coder that writes for it.
pub struct FastBlocks<F: FragmentCoder> {
    /// The instructions it uses.
    backend: Backend,
    /// The quality it was built for.
    quality: FastQuality,
    /// The window it was built for.
    window: WindowBits,
    /// The encoder and the coder.
    held: Option<(FastEncoder, F)>,
}

/// What a fast encoder makes of a block.
///
/// More than a meta-block holds is refused, and nothing is written for an empty block
/// that is not the last.
pub open spec fn fast_step<F: FragmentCoder>(
    before: FastEncoder,
    input: Seq<u8>,
    is_last: bool,
    after: FastEncoder,
    answer: BrotliResult<Seq<u8>>,
) -> bool {
    if input.len() > MAX_META_BLOCK {
        &&& answer == Err::<Seq<u8>, _>(BrotliCompressError::BufferOverflow)
        &&& after == before
    } else if input.len() == 0 && !is_last {
        &&& answer == Ok::<Seq<u8>, BrotliCompressError>(Seq::empty())
        &&& after == before
    } else {
        &&& after.wf()
        &&& after.quality == before.quality
        &&& after.block_size_limit == before.block_size_limit
        &&& input.len() == 0 ==> answer == Ok::<Seq<u8>, BrotliCompressError>(
            header::closed(
                fragment::seeded(before.last_bytes, 511),
                before.last_bytes_bits as int,
            ).take(header::aligned(before.last_bytes_bits + 2) / 8),
        ) && after.last_bytes == 0 && after.last_bytes_bits == 0
        &&& input.len() > 0 ==> {
            &&& after.writing@ matches Some(writing)
            &&& before.asks_for::<F>(input, writing)
            &&& answer matches Ok(made) ==> before.leads_to::<F>(input, is_last, writing, made)
                && after.carries(input, is_last, writing)
            &&& fragment::in_order(writing, is_last) ==> answer is Ok
        }
        &&& answer is Ok ==> after.finished == is_last
        &&& answer matches Err(error) ==> error == BrotliCompressError::BufferOverflow && after
            == (FastEncoder { table: after.table, writing: after.writing, ..before })
    }
}

/// A fast encoder that has not been asked anything.
pub open spec fn fast_fresh(encoder: FastEncoder, settings: config::Settings) -> bool {
    &&& encoder.wf()
    &&& FastQuality::route(settings.quality) == Ok::<_, BrotliCompressError>(encoder.quality)
    &&& encoder.block_size_limit == power2::pow2(settings.lgwin.value() as nat)
    &&& (encoder.last_bytes as int, encoder.last_bytes_bits as int) == encoder::window_header(
        FastEncoder::advertised(settings.lgwin.value() as int),
    )
    &&& !encoder.finished
}

/// Why the fast encoder is not built, if it is not.
pub open spec fn fast_refusal(settings: config::Settings) -> Option<BrotliCompressError> {
    if driver::refuses_large_window(settings) {
        Some(
            BrotliCompressError::Shared(
                config::SharedBrotliError::UnsupportedLargeWindow {
                    quality: settings.quality.number(),
                },
            ),
        )
    } else {
        match FastQuality::route(settings.quality) {
            Err(error) => Some(error),
            Ok(_) => None,
        }
    }
}

/// A last block of a fast encoder is never nothing.
proof fn lemma_fast_last<F: FragmentCoder>(
    before: FastEncoder,
    input: Seq<u8>,
    after: FastEncoder,
    made: Seq<u8>,
)
    requires
        before.wf(),
        fast_step::<F>(before, input, true, after, Ok(made)),
    ensures
        made.len() > 0,
{
    if input.len() == 0 {
        let bits = before.last_bytes_bits as int;
        let seed = fragment::seeded(before.last_bytes, 511);
        assert(header::aligned(bits + 2) / 8 >= 1);
    } else {
        let writing = after.writing@->0;
        if header::too_long(writing.end - writing.start, input.len() as int) {
        } else {
            assert(header::aligned(writing.end + 2) / 8 >= 1);
        }
    }
}

impl<F: FragmentCoder> FastBlocks<F> {
    /// The carried bits fit their count, and blocks are as large as the window.
    #[verifier::type_invariant]
    closed spec fn inv(self) -> bool {
        &&& 10 <= self.window.value() <= 24
        &&& self.held matches Some(held) ==> held.0.wf() && held.0.block_size_limit
            == power2::pow2(self.window.value() as nat)
    }

    /// The encoder, unless it was lost.
    pub closed spec fn encoder(&self) -> Option<FastEncoder> {
        match self.held {
            Some(held) => Some(held.0),
            None => None,
        }
    }

    /// A block is answered by the encoder, unless that was lost.
    pub open spec fn fast_answer(
        &self,
        input: Seq<u8>,
        is_last: bool,
        after: Self,
        answer: BrotliResult<Seq<u8>>,
    ) -> bool {
        match self.encoder() {
            Some(before) => before.wf() && (after.encoder() matches Some(held) && fast_step::<F>(
                before,
                input,
                is_last,
                held,
                answer,
            )),
            None => answer == Err::<Seq<u8>, _>(BrotliCompressError::BufferOverflow)
                && after.encoder() is None,
        }
    }

    /// The quality and the window it serves.
    pub closed spec fn shape(&self) -> (FastQuality, WindowBits) {
        (self.quality, self.window)
    }

    /// Parameters resolve to this encoder's shape.
    pub open spec fn fits(&self, settings: config::Settings) -> bool {
        &&& fast_refusal(settings) is None
        &&& FastQuality::route(settings.quality) == Ok::<_, BrotliCompressError>(self.shape().0)
        &&& settings.lgwin == self.shape().1
    }
}

impl<F: FragmentCoder + Fresh> BlockEncoder for FastBlocks<F> {
    open spec fn starts(start: calls::Start, built: BrotliResult<Self>) -> bool {
        match built {
            Ok(blocks) => {
                &&& fast_refusal(start.settings) is None
                &&& blocks.fits(start.settings)
                &&& blocks.encoder() matches Some(encoder)
                &&& fast_fresh(encoder, start.settings)
            },
            Err(error) => fast_refusal(start.settings) == Some(error),
        }
    }

    open spec fn serves(
        before: Self,
        settings: config::Settings,
        hint: usize,
        fits: bool,
        after: Self,
    ) -> bool {
        &&& fits == before.fits(settings)
        &&& after.shape() == before.shape()
        &&& fits ==> (after.encoder() matches Some(encoder) && fast_fresh(encoder, settings))
        &&& !fits ==> after == before
    }

    open spec fn takes(blocks: Self, limit: usize) -> bool {
        match blocks.encoder() {
            Some(encoder) => limit == encoder.block_size_limit,
            None => limit == 1,
        }
    }

    open spec fn does(
        before: Self,
        call: calls::Call,
        answer: BrotliResult<Seq<u8>>,
        after: Self,
    ) -> bool {
        &&& call matches calls::Call::Block { bytes, is_last }
        &&& after.shape() == before.shape()
        &&& before.fast_answer(bytes, is_last, after, answer)
    }

    fn build(family: Family, backend: Backend, params: &CompressParams, size_hint: usize) -> (result:
        BrotliResult<Self>)
    {
        if let Err(error) = check_large_window(params) {
            return Err(error);
        }
        let quality: FastQuality = match FastQuality::try_from(params.quality()) {
            Ok(quality) => quality,
            Err(error) => return Err(error),
        };
        let window: WindowBits = params.lgwin();
        let bits: u8 = window.bits();
        match FastEncoder::new(params) {
            Err(error) => Err(error),
            Ok(encoder) => {
                let coder: F = F::fresh(backend, params);
                Ok(FastBlocks { backend, quality, window, held: Some((encoder, coder)) })
            },
        }
    }

    fn reset_for(&mut self, params: &CompressParams, size_hint: usize) -> (fits: bool)
    {
        if check_large_window(params).is_err() {
            return false;
        }
        match FastQuality::try_from(params.quality()) {
            Err(_) => return false,
            Ok(quality) => if quality != self.quality {
                return false;
            },
        }
        let window: WindowBits = params.lgwin();
        if window != self.window {
            return false;
        }
        let bits: u8 = window.bits();
        match FastEncoder::new(params) {
            Err(_) => false,
            Ok(encoder) => {
                let coder: F = F::fresh(self.backend, params);
                self.held = Some((encoder, coder));
                true
            },
        }
    }

    fn block_size_limit(&self) -> (limit: usize)
    {
        proof {
            use_type_invariant(self);
        }
        match &self.held {
            Some(held) => held.0.block_size_limit(),
            None => 1,
        }
    }

    fn encode_block(&mut self, input: &[u8], is_last: bool) -> (result: BrotliResult<Vec<u8>>)
    {
        proof {
            use_type_invariant(&*self);
        }
        let mut held: Option<(FastEncoder, F)> = None;
        std::mem::swap(&mut held, &mut self.held);
        match held {
            None => {
                let lost: BrotliResult<Vec<u8>> = Err(BrotliCompressError::BufferOverflow);
                assert(calls::said(lost) == Err::<Seq<u8>, _>(BrotliCompressError::BufferOverflow));
                lost
            },
            Some((mut encoder, mut coder)) => {
                let ghost before = encoder;
                let result: BrotliResult<Vec<u8>> = if input.len() > MAX_META_BLOCK {
                    Err(BrotliCompressError::BufferOverflow)
                } else if input.len() == 0 && !is_last {
                    Ok(Vec::new())
                } else {
                    encoder.encode_block(self.backend, input, is_last, &mut coder)
                };
                proof {
                    assert(fast_step::<F>(before, input@, is_last, encoder, calls::said(result)));
                    if is_last && result is Ok {
                        lemma_fast_last::<F>(before, input@, encoder, result->Ok_0@);
                    }
                }
                self.held = Some((encoder, coder));
                result
            },
        }
    }
}

/// What the encoder of the two highest qualities is given.
pub struct Surroundings<C, T, A, B> {
    /// What prices go by.
    pub model: C,
    /// What finds copies in the window.
    pub matcher: T,
    /// What finds copies in an attached prefix.
    pub prefix: A,
    /// What writes meta-blocks.
    pub engine: B,
}

/// The encoder of the two highest qualities with its surroundings.
pub struct HqBlocks<C: CostModel, T: TreeMatcher, A: PrefixMatcher, B: BlockEngine> {
    /// The encoder and what it is given.
    held: Option<(HqEncoder, Surroundings<C, T, A, B>)>,
}

/// A high-quality encoder between two blocks.
pub open spec fn between_blocks(encoder: HqEncoder) -> bool {
    &&& encoder.wf()
    &&& encoder.input_pos == encoder.last_processed_pos
}

/// A high-quality encoder takes a block: its stream is not complete, and the block
/// and the position behind it are not too large.
pub open spec fn takes_block(encoder: HqEncoder, len: int) -> bool {
    &&& !encoder.finished
    &&& len <= power2::pow2(encoder.params.lgblock as nat)
    &&& encoder.input_pos + len <= MAX_STREAM_POSITION
}

/// The block is taken in and, where one is due, a meta-block is written.
pub open spec fn hq_advances<C: CostModel, T: TreeMatcher, A: PrefixMatcher, B: BlockEngine>(
    before: HqEncoder,
    given: Surroundings<C, T, A, B>,
    input: Seq<u8>,
    is_last: bool,
    after: HqEncoder,
    left: Surroundings<C, T, A, B>,
    made: BrotliResult<Vec<u8>>,
) -> bool {
    exists|ready: HqEncoder, taken: HqEncoder, guided: B|
        #![trigger before.given(input, &ready), ready.advances::<C, T, A, B>(is_last, &given.model, &left.model, (given.matcher, left.matcher), (given.engine, guided, left.engine), &taken, &after, made)]
        before.given(input, &ready) && ready.advances::<C, T, A, B>(
            is_last,
            &given.model,
            &left.model,
            (given.matcher, left.matcher),
            (given.engine, guided, left.engine),
            &taken,
            &after,
            made,
        )
}

/// What a high-quality encoder makes of a block that it takes.
pub open spec fn hq_step<C: CostModel, T: TreeMatcher, A: PrefixMatcher, B: BlockEngine>(
    before: HqEncoder,
    given: Surroundings<C, T, A, B>,
    input: Seq<u8>,
    is_last: bool,
    after: HqEncoder,
    left: Surroundings<C, T, A, B>,
    made: BrotliResult<Vec<u8>>,
) -> bool {
    &&& after.ringbuffer.history@ == before.ringbuffer.history@ + input
    &&& input.len() == 0 && !is_last ==> made is Ok && made->Ok_0@.len() == 0
    &&& input.len() == 0 && is_last && before.ringbuffer.cur_size == 0 ==> made is Ok
        && made->Ok_0@ == before.closed()
    &&& input.len() > 0 && before.is_last_block_emitted ==> made == Err::<Vec<u8>, _>(
        BrotliCompressError::BufferOverflow,
    )
    &&& (input.len() > 0 || is_last && before.ringbuffer.cur_size > 0)
        && !before.is_last_block_emitted ==> hq_advances::<C, T, A, B>(
        before,
        given,
        input,
        is_last,
        after,
        left,
        made,
    )
    &&& made is Err ==> made->Err_0 == BrotliCompressError::BufferOverflow
    &&& made is Ok ==> between_blocks(after) && after.finished == is_last
}

/// A last block that came to nothing is refused.
pub open spec fn owed(is_last: bool, made: BrotliResult<Seq<u8>>) -> BrotliResult<Seq<u8>> {
    match made {
        Ok(bytes) => if is_last && bytes.len() == 0 {
            Err(BrotliCompressError::BufferOverflow)
        } else {
            made
        },
        Err(_) => made,
    }
}

/// Surroundings made anew.
pub open spec fn made_for<C: Fresh, T: Fresh, A: Fresh, B: Fresh>(
    given: Surroundings<C, T, A, B>,
    settings: config::Settings,
) -> bool {
    &&& C::makes(settings, given.model)
    &&& T::makes(settings, given.matcher)
    &&& A::makes(settings, given.prefix)
    &&& B::makes(settings, given.engine)
}

/// A high-quality encoder that has not been asked anything.
pub open spec fn hq_fresh(encoder: HqEncoder, settings: config::Settings) -> bool {
    &&& between_blocks(encoder)
    &&& HqQuality::route(settings.quality) matches Ok(quality) && encoder.params
        == HqParams::resolved(settings, quality)
    &&& encoder.input_pos == 0
    &&& encoder.commands@.len() == 0
    &&& !encoder.finished
    &&& !encoder.is_last_block_emitted
    &&& (encoder.last_bytes as int, encoder.last_bytes_bits as int) == params::stream_header(
        settings.lgwin.value() as int,
        settings.lgwin.large_header(),
    )
}

/// An encoder takes a block, and is kept unless that failed.
pub open spec fn hq_kept<C: CostModel, T: TreeMatcher, A: PrefixMatcher, B: BlockEngine>(
    before: HqEncoder,
    given: Surroundings<C, T, A, B>,
    input: Seq<u8>,
    is_last: bool,
    kept: Option<HqEncoder>,
    left: Surroundings<C, T, A, B>,
    answer: BrotliResult<Seq<u8>>,
) -> bool {
    exists|
        after: HqEncoder,
        rest: Surroundings<C, T, A, B>,
        made: BrotliResult<Vec<u8>>,
    |
        #[trigger] hq_step::<C, T, A, B>(before, given, input, is_last, after, rest, made)
            && answer == owed(is_last, calls::said(made)) && if answer is Ok {
            kept == Some(after) && left == rest
        } else {
            kept is None
        }
}

/// Returns whether two sets of parameters are the same.
fn same_params(left: &HqParams, right: &HqParams) -> (same: bool)
    ensures
        same == (*left == *right),
{
    left.quality == right.quality && left.window == right.window && left.lgwin == right.lgwin
        && left.lgblock == right.lgblock && left.dist == right.dist
}

impl<C: CostModel, T: TreeMatcher, A: PrefixMatcher, B: BlockEngine> HqBlocks<C, T, A, B> {
    /// The encoder stands between two blocks.
    #[verifier::type_invariant]
    closed spec fn inv(self) -> bool {
        self.held matches Some(held) ==> between_blocks(held.0)
    }

    /// The encoder, unless a failure lost it.
    pub closed spec fn encoder(&self) -> Option<HqEncoder> {
        match self.held {
            Some(held) => Some(held.0),
            None => None,
        }
    }

    /// What the encoder is given, unless a failure lost it.
    pub closed spec fn given(&self) -> Surroundings<C, T, A, B> {
        match self.held {
            Some(held) => held.1,
            None => arbitrary(),
        }
    }

    /// A block is answered by the encoder, unless that was lost or does not take it.
    pub open spec fn hq_answer(
        &self,
        input: Seq<u8>,
        is_last: bool,
        after: Self,
        answer: BrotliResult<Seq<u8>>,
    ) -> bool {
        match self.encoder() {
            Some(before) => if takes_block(before, input.len() as int) {
                hq_kept::<C, T, A, B>(
                    before,
                    self.given(),
                    input,
                    is_last,
                    after.encoder(),
                    after.given(),
                    answer,
                )
            } else {
                answer == Err::<Seq<u8>, _>(BrotliCompressError::BufferOverflow)
                    && after.encoder() is None
            },
            None => answer == Err::<Seq<u8>, _>(BrotliCompressError::BufferOverflow)
                && after.encoder() is None,
        }
    }

    /// Parameters resolve to this encoder's shape.
    pub open spec fn fits(&self, settings: config::Settings) -> bool {
        &&& HqQuality::route(settings.quality) matches Ok(quality)
        &&& self.encoder() matches Some(encoder)
        &&& encoder.params == HqParams::resolved(settings, quality)
    }
}

impl<
    C: CostModel + Fresh,
    T: TreeMatcher + Fresh,
    A: PrefixMatcher + Fresh,
    B: BlockEngine + Fresh,
> HqBlocks<C, T, A, B> {
    /// Has an encoder take a block.
    fn run(
        encoder: &mut HqEncoder,
        given: &mut Surroundings<C, T, A, B>,
        input: &[u8],
        is_last: bool,
    ) -> (made: BrotliResult<Vec<u8>>)
        requires
            between_blocks(*old(encoder)),
            takes_block(*old(encoder), input@.len() as int),
        ensures
            hq_step::<C, T, A, B>(
                *old(encoder),
                *old(given),
                input@,
                is_last,
                *final(encoder),
                *final(given),
                made,
            ),
    {
        let made: BrotliResult<Vec<u8>> = encoder.encode_block(
            input,
            is_last,
            &mut given.model,
            &mut given.matcher,
            &mut given.prefix,
            &mut given.engine,
        );
        proof {
            if (input@.len() > 0 || is_last && old(encoder).ringbuffer.cur_size > 0) && !old(encoder).is_last_block_emitted {
                let (ready, taken, guided) = choose|ready: HqEncoder, taken: HqEncoder, guided: B|
                    #![trigger old(encoder).given(input@, &ready), ready.advances::<C, T, A, B>(is_last, &old(given).model, &given.model, (old(given).matcher, given.matcher), (old(given).engine, guided, given.engine), &taken, encoder, made)]
                    old(encoder).given(input@, &ready) && ready.advances::<C, T, A, B>(
                        is_last,
                        &old(given).model,
                        &given.model,
                        (old(given).matcher, given.matcher),
                        (old(given).engine, guided, given.engine),
                        &taken,
                        encoder,
                        made,
                    );
                assert(old(encoder).given(input@, &ready));
                assert(ready.advances::<C, T, A, B>(
                    is_last,
                    &old(given).model,
                    &given.model,
                    (old(given).matcher, given.matcher),
                    (old(given).engine, guided, given.engine),
                    &taken,
                    encoder,
                    made,
                ));
                assert(hq_advances::<C, T, A, B>(
                    *old(encoder),
                    *old(given),
                    input@,
                    is_last,
                    *encoder,
                    *given,
                    made,
                ));
            }
        }
        made
    }

    /// Makes what an encoder is given.
    fn surroundings(backend: Backend, params: &CompressParams) -> (given: Surroundings<C, T, A, B>)
        ensures
            made_for(given, params@),
    {
        Surroundings {
            model: C::fresh(backend, params),
            matcher: T::fresh(backend, params),
            prefix: A::fresh(backend, params),
            engine: B::fresh(backend, params),
        }
    }
}

impl<
    C: CostModel + Fresh,
    T: TreeMatcher + Fresh,
    A: PrefixMatcher + Fresh,
    B: BlockEngine + Fresh,
> BlockEncoder for HqBlocks<C, T, A, B> {
    open spec fn starts(start: calls::Start, built: BrotliResult<Self>) -> bool {
        match built {
            Ok(blocks) => {
                &&& HqQuality::route(start.settings.quality) is Ok
                &&& blocks.fits(start.settings)
                &&& blocks.encoder() matches Some(encoder)
                &&& hq_fresh(encoder, start.settings)
                &&& made_for(blocks.given(), start.settings)
            },
            Err(error) => HqQuality::route(start.settings.quality) == Err::<HqQuality, _>(error),
        }
    }

    open spec fn serves(
        before: Self,
        settings: config::Settings,
        hint: usize,
        fits: bool,
        after: Self,
    ) -> bool {
        &&& fits == before.fits(settings)
        &&& fits ==> (after.encoder() matches Some(encoder) && hq_fresh(encoder, settings))
            && made_for(after.given(), settings)
        &&& !fits ==> after == before
    }

    open spec fn takes(blocks: Self, limit: usize) -> bool {
        match blocks.encoder() {
            Some(encoder) => limit == power2::pow2(encoder.params.lgblock as nat),
            None => limit == 1,
        }
    }

    open spec fn does(
        before: Self,
        call: calls::Call,
        answer: BrotliResult<Seq<u8>>,
        after: Self,
    ) -> bool {
        &&& call matches calls::Call::Block { bytes, is_last }
        &&& before.hq_answer(bytes, is_last, after, answer)
    }

    fn build(family: Family, backend: Backend, params: &CompressParams, size_hint: usize) -> (result:
        BrotliResult<Self>)
    {
        match HqEncoder::new(backend, params) {
            Err(error) => Err(error),
            Ok(encoder) => {
                let given = Self::surroundings(backend, params);
                Ok(HqBlocks { held: Some((encoder, given)) })
            },
        }
    }

    fn reset_for(&mut self, params: &CompressParams, size_hint: usize) -> (fits: bool)
    {
        let fresh: HqParams = match HqParams::new(params) {
            Err(_) => return false,
            Ok(fresh) => fresh,
        };
        let backend: Backend = match &self.held {
            None => return false,
            Some(held) => if same_params(&held.0.params, &fresh) {
                held.0.backend
            } else {
                return false;
            },
        };
        match HqEncoder::new(backend, params) {
            Err(_) => false,
            Ok(encoder) => {
                let given = Self::surroundings(backend, params);
                self.held = Some((encoder, given));
                true
            },
        }
    }

    fn block_size_limit(&self) -> (limit: usize)
    {
        proof {
            use_type_invariant(self);
        }
        match &self.held {
            Some(held) => held.0.block_size_limit(),
            None => 1,
        }
    }

    fn encode_block(&mut self, input: &[u8], is_last: bool) -> (result: BrotliResult<Vec<u8>>)
    {
        proof {
            use_type_invariant(&*self);
        }
        let mut held: Option<(HqEncoder, Surroundings<C, T, A, B>)> = None;
        std::mem::swap(&mut held, &mut self.held);
        let lost: BrotliResult<Vec<u8>> = Err(BrotliCompressError::BufferOverflow);
        assert(calls::said(lost) == Err::<Seq<u8>, _>(BrotliCompressError::BufferOverflow));
        match held {
            None => lost,
            Some((mut encoder, mut given)) => {
                let ghost before = encoder;
                let ghost first = given;
                let most: usize = encoder.block_size_limit();
                if encoder.finished || input.len() > most || input.len() as u64
                    > MAX_STREAM_POSITION - encoder.input_pos {
                    return lost;
                }
                let made: BrotliResult<Vec<u8>> = Self::run(&mut encoder, &mut given, input, is_last);
                let ghost outcome = made;
                let ghost after = encoder;
                let ghost left = given;
                match made {
                    Err(error) => {
                        let failed: BrotliResult<Vec<u8>> = Err(error);
                        proof {
                            assert(calls::said(failed) == owed(is_last, calls::said(outcome)));
                            assert(hq_step::<C, T, A, B>(before, first, input@, is_last, after, left, outcome));
                            assert(hq_kept::<C, T, A, B>(
                                before,
                                first,
                                input@,
                                is_last,
                                self.encoder(),
                                self.given(),
                                calls::said(failed),
                            ));
                        }
                        failed
                    },
                    Ok(bytes) => {
                        if is_last && bytes.len() == 0 {
                            proof {
                                assert(calls::said(lost) == owed(is_last, calls::said(outcome)));
                                assert(hq_step::<C, T, A, B>(before, first, input@, is_last, after, left, outcome));
                                assert(hq_kept::<C, T, A, B>(
                                    before,
                                    first,
                                    input@,
                                    is_last,
                                    self.encoder(),
                                    self.given(),
                                    calls::said(lost),
                                ));
                            }
                            return lost;
                        }
                        self.held = Some((encoder, given));
                        let full: BrotliResult<Vec<u8>> = Ok(bytes);
                        proof {
                            assert(calls::said(full) == owed(is_last, calls::said(outcome)));
                            assert(hq_step::<C, T, A, B>(before, first, input@, is_last, after, left, outcome));
                            assert(hq_kept::<C, T, A, B>(
                                before,
                                first,
                                input@,
                                is_last,
                                self.encoder(),
                                self.given(),
                                calls::said(full),
                            ));
                        }
                        full
                    },
                }
            },
        }
    }
}

/// The encoder a quality routes to.
///
/// The greedy one is whatever it is built with.
pub enum Encoder<G, F: FragmentCoder, C: CostModel, T: TreeMatcher, A: PrefixMatcher, B: BlockEngine> {
    /// One fragment at a time.
    Fast(FastBlocks<F>),
    /// Greedy references over a sliding window.
    Greedy(G),
    /// The cheapest path through each block.
    Hq(HqBlocks<C, T, A, B>),
}

impl<
    G: BlockEncoder,
    F: FragmentCoder + Fresh,
    C: CostModel + Fresh,
    T: TreeMatcher + Fresh,
    A: PrefixMatcher + Fresh,
    B: BlockEngine + Fresh,
> BlockEncoder for Encoder<G, F, C, T, A, B> {
    open spec fn starts(start: calls::Start, built: BrotliResult<Self>) -> bool {
        match start.family {
            Family::Fast => match built {
                Ok(encoder) => encoder matches Encoder::Fast(blocks) && FastBlocks::<F>::starts(
                    start,
                    Ok(blocks),
                ),
                Err(error) => FastBlocks::<F>::starts(start, Err(error)),
            },
            Family::Greedy => match built {
                Ok(encoder) => encoder matches Encoder::Greedy(blocks) && G::starts(
                    start,
                    Ok(blocks),
                ),
                Err(error) => G::starts(start, Err(error)),
            },
            Family::Hq => match built {
                Ok(encoder) => encoder matches Encoder::Hq(blocks) && HqBlocks::<
                    C,
                    T,
                    A,
                    B,
                >::starts(start, Ok(blocks)),
                Err(error) => HqBlocks::<C, T, A, B>::starts(start, Err(error)),
            },
        }
    }

    open spec fn serves(
        before: Self,
        settings: config::Settings,
        hint: usize,
        fits: bool,
        after: Self,
    ) -> bool {
        match before {
            Encoder::Fast(blocks) => after matches Encoder::Fast(left) && FastBlocks::<F>::serves(
                blocks,
                settings,
                hint,
                fits,
                left,
            ),
            Encoder::Greedy(blocks) => after matches Encoder::Greedy(left) && G::serves(
                blocks,
                settings,
                hint,
                fits,
                left,
            ),
            Encoder::Hq(blocks) => after matches Encoder::Hq(left) && HqBlocks::<
                C,
                T,
                A,
                B,
            >::serves(blocks, settings, hint, fits, left),
        }
    }

    open spec fn takes(encoder: Self, limit: usize) -> bool {
        match encoder {
            Encoder::Fast(blocks) => FastBlocks::<F>::takes(blocks, limit),
            Encoder::Greedy(blocks) => G::takes(blocks, limit),
            Encoder::Hq(blocks) => HqBlocks::<C, T, A, B>::takes(blocks, limit),
        }
    }

    open spec fn does(
        before: Self,
        call: calls::Call,
        answer: BrotliResult<Seq<u8>>,
        after: Self,
    ) -> bool {
        match before {
            Encoder::Fast(blocks) => after matches Encoder::Fast(left) && FastBlocks::<F>::does(
                blocks,
                call,
                answer,
                left,
            ),
            Encoder::Greedy(blocks) => after matches Encoder::Greedy(left) && G::does(
                blocks,
                call,
                answer,
                left,
            ),
            Encoder::Hq(blocks) => after matches Encoder::Hq(left) && HqBlocks::<C, T, A, B>::does(
                blocks,
                call,
                answer,
                left,
            ),
        }
    }

    fn build(family: Family, backend: Backend, params: &CompressParams, size_hint: usize) -> (result:
        BrotliResult<Self>)
    {
        match family {
            Family::Fast => match FastBlocks::<F>::build(family, backend, params, size_hint) {
                Ok(blocks) => Ok(Encoder::Fast(blocks)),
                Err(error) => Err(error),
            },
            Family::Greedy => match G::build(family, backend, params, size_hint) {
                Ok(blocks) => Ok(Encoder::Greedy(blocks)),
                Err(error) => Err(error),
            },
            Family::Hq => match HqBlocks::<C, T, A, B>::build(family, backend, params, size_hint) {
                Ok(blocks) => Ok(Encoder::Hq(blocks)),
                Err(error) => Err(error),
            },
        }
    }

    fn reset_for(&mut self, params: &CompressParams, size_hint: usize) -> (fits: bool)
    {
        match self {
            Encoder::Fast(blocks) => blocks.reset_for(params, size_hint),
            Encoder::Greedy(blocks) => blocks.reset_for(params, size_hint),
            Encoder::Hq(blocks) => blocks.reset_for(params, size_hint),
        }
    }

    fn block_size_limit(&self) -> (limit: usize)
    {
        match self {
            Encoder::Fast(blocks) => blocks.block_size_limit(),
            Encoder::Greedy(blocks) => blocks.block_size_limit(),
            Encoder::Hq(blocks) => blocks.block_size_limit(),
        }
    }

    fn encode_block(&mut self, input: &[u8], is_last: bool) -> (result: BrotliResult<Vec<u8>>)
    {
        match self {
            Encoder::Fast(blocks) => blocks.encode_block(input, is_last),
            Encoder::Greedy(blocks) => blocks.encode_block(input, is_last),
            Encoder::Hq(blocks) => blocks.encode_block(input, is_last),
        }
    }
}

/// Two fast encoders stand at the same place of a stream.
pub open spec fn fast_alike<F: FragmentCoder, G: FragmentCoder>(
    left: FastBlocks<F>,
    right: FastBlocks<G>,
) -> bool {
    match (left.encoder(), right.encoder()) {
        (Some(a), Some(b)) => {
            &&& a.quality == b.quality
            &&& a.block_size_limit == b.block_size_limit
            &&& a.last_bytes == b.last_bytes
            &&& a.last_bytes_bits == b.last_bytes_bits
        },
        (None, None) => true,
        (_, _) => false,
    }
}

/// Two coders make the same of every fragment that a fast encoder has written, and what
/// they make can be taken.
pub open spec fn coders_agree<F: FragmentCoder, G: FragmentCoder>() -> bool {
    forall|encoder: FastEncoder, input: Seq<u8>, a: Writing, b: Writing|
        #![trigger encoder.asks_for::<F>(input, a), encoder.asks_for::<G>(input, b)]
        encoder.wf() && 0 < input.len() <= MAX_META_BLOCK && encoder.asks_for::<F>(input, a)
            && encoder.asks_for::<G>(input, b) ==> a.made == b.made && a.end == b.end
            && fragment::in_order(a, false)
}

/// Fast encoders at the same place make the same of a block, if their coders agree.
proof fn lemma_fast_steps_agree<F: FragmentCoder, G: FragmentCoder>(
    left: FastEncoder,
    right: FastEncoder,
    input: Seq<u8>,
    is_last: bool,
    afters: (FastEncoder, FastEncoder),
    answers: (BrotliResult<Seq<u8>>, BrotliResult<Seq<u8>>),
)
    requires
        coders_agree::<F, G>(),
        left.wf(),
        left.quality == right.quality,
        left.block_size_limit == right.block_size_limit,
        left.last_bytes == right.last_bytes,
        left.last_bytes_bits == right.last_bytes_bits,
        fast_step::<F>(left, input, is_last, afters.0, answers.0),
        fast_step::<G>(right, input, is_last, afters.1, answers.1),
    ensures
        answers.0 == answers.1,
        afters.0.quality == afters.1.quality,
        afters.0.block_size_limit == afters.1.block_size_limit,
        afters.0.last_bytes == afters.1.last_bytes,
        afters.0.last_bytes_bits == afters.1.last_bytes_bits,
{
    if 0 < input.len() <= MAX_META_BLOCK {
        let a = afters.0.writing@->0;
        let b = afters.1.writing@->0;
        assert(left.asks_for::<F>(input, a));
        assert(left.asks_for::<G>(input, b));
        assert(fragment::in_order(a, is_last));
        assert(fragment::in_order(b, is_last));
        assert(answers.0 is Ok && answers.1 is Ok);
        assert(answers.0->Ok_0 == answers.1->Ok_0);
    }
}

/// Fast encoders are interchangeable, if their coders agree: what they make of a stream
/// depends on its settings and its blocks alone, whichever instructions are used and
/// whatever was compressed before.
pub proof fn lemma_fast_encoders_interchangeable<
    F: FragmentCoder + Fresh,
    G: FragmentCoder + Fresh,
>()
    requires
        coders_agree::<F, G>(),
    ensures
        compressor::interchangeable::<FastBlocks<F>, FastBlocks<G>>(
            |left: FastBlocks<F>, right: FastBlocks<G>| fast_alike(left, right),
        ),
{
    let alike = |left: FastBlocks<F>, right: FastBlocks<G>| fast_alike(left, right);
    assert forall|
        e: FastBlocks<F>,
        f: FastBlocks<G>,
        call: calls::Call,
        a: BrotliResult<Seq<u8>>,
        b: BrotliResult<Seq<u8>>,
        e2: FastBlocks<F>,
        f2: FastBlocks<G>,
    |
        #![trigger calls::steps_to(calls::of_blocks::<FastBlocks<F>>(), e, call, a, e2), calls::steps_to(calls::of_blocks::<FastBlocks<G>>(), f, call, b, f2)]
        alike(e, f) && calls::steps_to(calls::of_blocks::<FastBlocks<F>>(), e, call, a, e2)
            && calls::steps_to(calls::of_blocks::<FastBlocks<G>>(), f, call, b, f2) implies a == b
        && (a is Ok ==> alike(e2, f2)) by {
        assert(FastBlocks::<F>::does(e, call, a, e2));
        assert(FastBlocks::<G>::does(f, call, b, f2));
        if e.encoder() is Some {
            let bytes = call->Block_bytes;
            let is_last = call->is_last;
            lemma_fast_steps_agree::<F, G>(
                e.encoder()->0,
                f.encoder()->0,
                bytes,
                is_last,
                (e2.encoder()->0, f2.encoder()->0),
                (a, b),
            );
        }
    }
    assert(compressor::begin_alike(alike)) by {
        assert forall|
            a: calls::Start,
            b: calls::Start,
            left: BrotliResult<FastBlocks<F>>,
            right: BrotliResult<FastBlocks<G>>,
        |
            #![trigger compressor::got::<FastBlocks<F>>(a, left), compressor::got::<FastBlocks<G>>(b, right)]
            a.settings == b.settings && a.hint == b.hint && a.family == Family::of(
                a.settings.quality,
            ) && b.family == a.family && compressor::got::<FastBlocks<F>>(a, left)
                && compressor::got::<FastBlocks<G>>(b, right) implies match (left, right) {
            (Ok(e), Ok(f)) => alike(e, f),
            (Err(e), Err(f)) => e == f,
            (_, _) => false,
        } by {
            lemma_fast_got::<F>(a, left);
            lemma_fast_got::<G>(b, right);
        }
    }
    assert(compressor::take_alike(alike));
}

/// A fast encoder that gets to a stream is as good as new, and none does where the
/// settings do not allow it.
proof fn lemma_fast_got<F: FragmentCoder + Fresh>(
    start: calls::Start,
    built: BrotliResult<FastBlocks<F>>,
)
    requires
        compressor::got::<FastBlocks<F>>(start, built),
    ensures
        match built {
            Ok(blocks) => {
                &&& fast_refusal(start.settings) is None
                &&& blocks.encoder() matches Some(encoder)
                &&& fast_fresh(encoder, start.settings)
            },
            Err(error) => fast_refusal(start.settings) == Some(error),
        },
{
    if let Ok(blocks) = built {
        if start.reused {
            let before = choose|before: FastBlocks<F>| #[trigger]
                calls::restored(before, start.settings, start.hint, blocks);
            assert(FastBlocks::<F>::serves(before, start.settings, start.hint, true, blocks));
        }
    }
}

/// A fast encoder whose coder agrees with itself compresses every input, unless its
/// settings are refused.
pub proof fn lemma_fast_stream_succeeds<F: FragmentCoder + Fresh>(
    log: &CallLog,
    settings: config::Settings,
    backend: Backend,
    src: Seq<u8>,
    result: BrotliResult<Seq<u8>>,
)
    requires
        coders_agree::<F, F>(),
        driver::stream_settled::<FastBlocks<F>>(
            log,
            driver::started(settings, backend, src.len() as usize, false),
            src,
            result,
        ),
        settings.lgwin.large_header() || settings.lgwin.value() <= 24,
    ensures
        match fast_refusal(settings) {
            Some(error) => result == Err::<Seq<u8>, _>(error),
            None => result is Ok,
        },
{
    let start = driver::started(settings, backend, src.len() as usize, false);
    if log.start@ is None {
        lemma_fast_got::<F>(start, Err(log.refused@->0));
    } else {
        let (first, last) = choose|first: FastBlocks<F>, last: FastBlocks<F>| #[trigger]
            driver::ran_through(log, first, last);
        lemma_fast_got::<F>(log.start@->0, Ok(first));
        if result is Err {
            lemma_fast_run_goes_on::<F>(log, first, last, settings, src);
        }
    }
}

/// A run of a fast encoder is not refused its next block.
proof fn lemma_fast_run_goes_on<F: FragmentCoder + Fresh>(
    log: &CallLog,
    first: FastBlocks<F>,
    last: FastBlocks<F>,
    settings: config::Settings,
    src: Seq<u8>,
)
    requires
        coders_agree::<F, F>(),
        driver::ran_through(log, first, last),
        first.encoder() matches Some(encoder) && fast_fresh(encoder, settings),
        settings.lgwin.value() <= 24,
        log.refused@ is Some ==> log.refusing@ is Some && log.calls@.push(
            log.refusing@->0,
        ).is_prefix_of(calls::schedule(src, driver::at_once(log.limit@->0))),
    ensures
        log.refused@ is None,
{
    let steps = calls::of_blocks::<FastBlocks<F>>();
    let holds = |blocks: FastBlocks<F>|
        match blocks.encoder() {
            Some(encoder) => encoder.wf(),
            None => false,
        };
    assert forall|
        before: FastBlocks<F>,
        call: calls::Call,
        answer: Seq<u8>,
        after: FastBlocks<F>,
    |
        #![trigger calls::steps_to(steps, before, call, Ok(answer), after)]
        holds(before) && calls::steps_to(steps, before, call, Ok(answer), after) implies holds(
        after,
    ) by {
        assert(FastBlocks::<F>::does(before, call, Ok(answer), after));
    }
    calls::lemma_ran_keeps(steps, holds, first, log.calls@, log.answers@, last);
    if log.refused@ is Some {
        let limit = driver::at_once(log.limit@->0);
        let whole = calls::schedule(src, limit);
        let call = log.refusing@->0;
        let n = log.calls@.len() as int;
        assert(log.calls@.push(call)[n] == call);
        assert(whole[n] == call);
        power2::lemma_pow2_pos(settings.lgwin.value() as nat);
        calls::lemma_schedule_fits(src, limit, n);
        assert(limit <= MAX_META_BLOCK) by {
            if settings.lgwin.value() < 24 {
                power2::lemma_pow2_strictly_increases(settings.lgwin.value() as nat, 24);
            }
            assert(power2::pow2(24) == 0x100_0000) by {
                power2::lemma2_to64();
            }
        }
        let lost = choose|lost: FastBlocks<F>| #[trigger]
            calls::steps_to(steps, last, call, Err(log.refused@->0), lost);
        assert(FastBlocks::<F>::does(last, call, Err(log.refused@->0), lost));
        let bytes = call->Block_bytes;
        if bytes.len() > 0 {
            let encoder = last.encoder()->0;
            let writing = (lost.encoder()->0).writing@->0;
            assert(encoder.asks_for::<F>(bytes, writing));
            assert(fragment::in_order(writing, call->is_last));
        }
    }
}

/// A coder that gives up agrees with itself, so the encoders it writes for are
/// interchangeable.
pub proof fn lemma_giving_up_agrees()
    ensures
        coders_agree::<GiveUp, GiveUp>(),
{
    assert forall|encoder: FastEncoder, input: Seq<u8>, a: Writing, b: Writing|
        #![trigger encoder.asks_for::<GiveUp>(input, a), encoder.asks_for::<GiveUp>(input, b)]
        encoder.wf() && 0 < input.len() <= MAX_META_BLOCK && encoder.asks_for::<GiveUp>(input, a)
            && encoder.asks_for::<GiveUp>(input, b) implies a.made == b.made && a.end == b.end
        && fragment::in_order(a, false) by {
    }
}

/// The same input with the same settings comes to the same, whatever encoder was
/// retained before and whatever instructions are used, where the fast encoder stores what
/// it is given.
pub proof fn lemma_stored_streams_agree(
    left: &CallLog,
    right: &CallLog,
    settings: config::Settings,
    backends: (Backend, Backend),
    src: Seq<u8>,
    outcomes: (BrotliResult<Seq<u8>>, BrotliResult<Seq<u8>>),
)
    requires
        driver::stream_settled::<FastBlocks<GiveUp>>(
            left,
            driver::started(settings, backends.0, src.len() as usize, false),
            src,
            outcomes.0,
        ),
        driver::stream_settled::<FastBlocks<GiveUp>>(
            right,
            driver::started(settings, backends.1, src.len() as usize, false),
            src,
            outcomes.1,
        ),
    ensures
        outcomes.0 == outcomes.1,
{
    lemma_giving_up_agrees();
    lemma_fast_encoders_interchangeable::<GiveUp, GiveUp>();
    compressor::lemma_caches_and_backends_agree(
        |a: FastBlocks<GiveUp>, b: FastBlocks<GiveUp>| fast_alike(a, b),
        left,
        right,
        settings,
        backends,
        src,
        outcomes,
    );
}

/// A vector and a buffer with room for it hold the same bytes, where the fast encoder
/// stores what it is given.
pub proof fn lemma_stored_slices_agree(
    vector: &CallLog,
    slice: &CallLog,
    settings: config::Settings,
    backends: (Backend, Backend),
    src: Seq<u8>,
    made: Seq<u8>,
    dst: Seq<u8>,
    result: BrotliResult<usize>,
)
    requires
        driver::stream_settled::<FastBlocks<GiveUp>>(
            vector,
            driver::started(settings, backends.0, src.len() as usize, false),
            src,
            Ok(made),
        ),
        driver::slice_settled::<FastBlocks<GiveUp>>(
            slice,
            driver::started(settings, backends.1, src.len() as usize, false),
            src,
            dst,
            result,
        ),
        made.len() <= dst.len(),
    ensures
        result matches Ok(n) && n == made.len() && dst.take(n as int) == made,
{
    lemma_giving_up_agrees();
    lemma_fast_encoders_interchangeable::<GiveUp, GiveUp>();
    compressor::lemma_vector_and_slice_agree(
        |a: FastBlocks<GiveUp>, b: FastBlocks<GiveUp>| fast_alike(a, b),
        vector,
        slice,
        settings,
        backends,
        src,
        made,
        dst,
        result,
    );
}

/// Two high-quality encoders and what they are given stand at the same place of a
/// stream, by a relation on both, or both were lost.
pub open spec fn hq_alike<C: CostModel, T: TreeMatcher, A: PrefixMatcher, B: BlockEngine>(
    same: spec_fn(
        (HqEncoder, Surroundings<C, T, A, B>),
        (HqEncoder, Surroundings<C, T, A, B>),
    ) -> bool,
    left: HqBlocks<C, T, A, B>,
    right: HqBlocks<C, T, A, B>,
) -> bool {
    match (left.encoder(), right.encoder()) {
        (Some(a), Some(b)) => same((a, left.given()), (b, right.given())),
        (None, None) => true,
        (_, _) => false,
    }
}

/// Surroundings are such that a relation holds of two encoders made for the same
/// settings, and carries over from block to block: encoders at the same place take the
/// same blocks, and make the same of each.
pub open spec fn surroundings_agree<
    C: CostModel + Fresh,
    T: TreeMatcher + Fresh,
    A: PrefixMatcher + Fresh,
    B: BlockEngine + Fresh,
>(
    same: spec_fn(
        (HqEncoder, Surroundings<C, T, A, B>),
        (HqEncoder, Surroundings<C, T, A, B>),
    ) -> bool,
) -> bool {
    &&& forall|
        a: HqEncoder,
        b: HqEncoder,
        x: Surroundings<C, T, A, B>,
        y: Surroundings<C, T, A, B>,
        settings: config::Settings,
    |
        #![trigger hq_fresh(a, settings), hq_fresh(b, settings), made_for(x, settings), made_for(y, settings)]
        hq_fresh(a, settings) && hq_fresh(b, settings) && made_for(x, settings) && made_for(
            y,
            settings,
        ) ==> same((a, x), (b, y))
    &&& forall|
        a: HqEncoder,
        b: HqEncoder,
        x: Surroundings<C, T, A, B>,
        y: Surroundings<C, T, A, B>,
    | #[trigger]
        same((a, x), (b, y)) ==> a.params.lgblock == b.params.lgblock
    &&& forall|
        a: HqEncoder,
        b: HqEncoder,
        x: Surroundings<C, T, A, B>,
        y: Surroundings<C, T, A, B>,
        len: int,
    |
        #![trigger same((a, x), (b, y)), takes_block(a, len)]
        same((a, x), (b, y)) ==> takes_block(a, len) == takes_block(b, len)
    &&& forall|
        a: HqEncoder,
        b: HqEncoder,
        x: Surroundings<C, T, A, B>,
        y: Surroundings<C, T, A, B>,
        input: Seq<u8>,
        is_last: bool,
        kept: (Option<HqEncoder>, Option<HqEncoder>),
        left: (Surroundings<C, T, A, B>, Surroundings<C, T, A, B>),
        p: BrotliResult<Seq<u8>>,
        q: BrotliResult<Seq<u8>>,
    |
        #![trigger hq_kept::<C, T, A, B>(a, x, input, is_last, kept.0, left.0, p), hq_kept::<C, T, A, B>(b, y, input, is_last, kept.1, left.1, q)]
        same((a, x), (b, y)) && hq_kept::<C, T, A, B>(a, x, input, is_last, kept.0, left.0, p)
            && hq_kept::<C, T, A, B>(b, y, input, is_last, kept.1, left.1, q) ==> p == q && (p is Ok
            ==> same((kept.0->0, left.0), (kept.1->0, left.1)))
}

/// High-quality encoders are interchangeable, if their surroundings agree.
pub proof fn lemma_hq_encoders_interchangeable<
    C: CostModel + Fresh,
    T: TreeMatcher + Fresh,
    A: PrefixMatcher + Fresh,
    B: BlockEngine + Fresh,
>(
    same: spec_fn(
        (HqEncoder, Surroundings<C, T, A, B>),
        (HqEncoder, Surroundings<C, T, A, B>),
    ) -> bool,
)
    requires
        surroundings_agree::<C, T, A, B>(same),
    ensures
        compressor::interchangeable::<HqBlocks<C, T, A, B>, HqBlocks<C, T, A, B>>(
            |left: HqBlocks<C, T, A, B>, right: HqBlocks<C, T, A, B>| hq_alike(same, left, right),
        ),
{
    let alike = |left: HqBlocks<C, T, A, B>, right: HqBlocks<C, T, A, B>|
        hq_alike(same, left, right);
    assert forall|
        e: HqBlocks<C, T, A, B>,
        f: HqBlocks<C, T, A, B>,
        call: calls::Call,
        a: BrotliResult<Seq<u8>>,
        b: BrotliResult<Seq<u8>>,
        e2: HqBlocks<C, T, A, B>,
        f2: HqBlocks<C, T, A, B>,
    |
        #![trigger calls::steps_to(calls::of_blocks::<HqBlocks<C, T, A, B>>(), e, call, a, e2), calls::steps_to(calls::of_blocks::<HqBlocks<C, T, A, B>>(), f, call, b, f2)]
        alike(e, f) && calls::steps_to(calls::of_blocks::<HqBlocks<C, T, A, B>>(), e, call, a, e2)
            && calls::steps_to(
            calls::of_blocks::<HqBlocks<C, T, A, B>>(),
            f,
            call,
            b,
            f2,
        ) implies a == b && (a is Ok ==> alike(e2, f2)) by {
        assert(HqBlocks::<C, T, A, B>::does(e, call, a, e2));
        assert(HqBlocks::<C, T, A, B>::does(f, call, b, f2));
        if e.encoder() is Some {
            lemma_hq_answers_agree(
                same,
                e,
                f,
                call->Block_bytes,
                call->is_last,
                (e2, f2),
                (a, b),
            );
        }
    }
    assert(compressor::begin_alike(alike)) by {
        assert forall|
            a: calls::Start,
            b: calls::Start,
            left: BrotliResult<HqBlocks<C, T, A, B>>,
            right: BrotliResult<HqBlocks<C, T, A, B>>,
        |
            #![trigger compressor::got::<HqBlocks<C, T, A, B>>(a, left), compressor::got::<HqBlocks<C, T, A, B>>(b, right)]
            a.settings == b.settings && a.hint == b.hint && a.family == Family::of(
                a.settings.quality,
            ) && b.family == a.family && compressor::got::<HqBlocks<C, T, A, B>>(a, left)
                && compressor::got::<HqBlocks<C, T, A, B>>(b, right) implies match (left, right) {
            (Ok(e), Ok(f)) => alike(e, f),
            (Err(e), Err(f)) => e == f,
            (_, _) => false,
        } by {
            lemma_hq_got::<C, T, A, B>(a, left);
            lemma_hq_got::<C, T, A, B>(b, right);
        }
    }
    assert(compressor::take_alike(alike)) by {
        assert forall|
            e: HqBlocks<C, T, A, B>,
            f: HqBlocks<C, T, A, B>,
            l: usize,
            m: usize,
        |
            #![trigger HqBlocks::<C, T, A, B>::takes(e, l), HqBlocks::<C, T, A, B>::takes(f, m)]
            alike(e, f) && HqBlocks::<C, T, A, B>::takes(e, l) && HqBlocks::<C, T, A, B>::takes(
                f,
                m,
            ) implies l == m by {
            if e.encoder() is Some {
                let a = e.encoder()->0;
                let b = f.encoder()->0;
                assert(same((a, e.given()), (b, f.given())));
            }
        }
    }
}

/// Encoders at the same place answer a block the same, and stay at the same place.
proof fn lemma_hq_answers_agree<
    C: CostModel + Fresh,
    T: TreeMatcher + Fresh,
    A: PrefixMatcher + Fresh,
    B: BlockEngine + Fresh,
>(
    same: spec_fn(
        (HqEncoder, Surroundings<C, T, A, B>),
        (HqEncoder, Surroundings<C, T, A, B>),
    ) -> bool,
    left: HqBlocks<C, T, A, B>,
    right: HqBlocks<C, T, A, B>,
    input: Seq<u8>,
    is_last: bool,
    afters: (HqBlocks<C, T, A, B>, HqBlocks<C, T, A, B>),
    answers: (BrotliResult<Seq<u8>>, BrotliResult<Seq<u8>>),
)
    requires
        surroundings_agree::<C, T, A, B>(same),
        left.encoder() is Some,
        hq_alike(same, left, right),
        left.hq_answer(input, is_last, afters.0, answers.0),
        right.hq_answer(input, is_last, afters.1, answers.1),
    ensures
        answers.0 == answers.1,
        answers.0 is Ok ==> hq_alike(same, afters.0, afters.1),
{
    let a = left.encoder()->0;
    let b = right.encoder()->0;
    let x = left.given();
    let y = right.given();
    assert(same((a, x), (b, y)));
    assert(takes_block(a, input.len() as int) == takes_block(b, input.len() as int));
    if takes_block(a, input.len() as int) {
        let kept = (afters.0.encoder(), afters.1.encoder());
        let rest = (afters.0.given(), afters.1.given());
        assert(hq_kept::<C, T, A, B>(a, x, input, is_last, kept.0, rest.0, answers.0));
        assert(hq_kept::<C, T, A, B>(b, y, input, is_last, kept.1, rest.1, answers.1));
    }
}

/// A high-quality encoder that gets to a stream is as good as new.
proof fn lemma_hq_got<
    C: CostModel + Fresh,
    T: TreeMatcher + Fresh,
    A: PrefixMatcher + Fresh,
    B: BlockEngine + Fresh,
>(start: calls::Start, built: BrotliResult<HqBlocks<C, T, A, B>>)
    requires
        compressor::got::<HqBlocks<C, T, A, B>>(start, built),
    ensures
        match built {
            Ok(blocks) => {
                &&& HqQuality::route(start.settings.quality) is Ok
                &&& blocks.encoder() matches Some(encoder)
                &&& hq_fresh(encoder, start.settings)
                &&& made_for(blocks.given(), start.settings)
            },
            Err(error) => HqQuality::route(start.settings.quality) == Err::<HqQuality, _>(error),
        },
{
    if let Ok(blocks) = built {
        if start.reused {
            let before = choose|before: HqBlocks<C, T, A, B>| #[trigger]
                calls::restored(before, start.settings, start.hint, blocks);
            assert(HqBlocks::<C, T, A, B>::serves(
                before,
                start.settings,
                start.hint,
                true,
                blocks,
            ));
        }
    }
}

/// Two encoders of the same family are alike.
pub open spec fn encoders_alike<
    G: BlockEncoder,
    F: FragmentCoder,
    C: CostModel,
    T: TreeMatcher,
    A: PrefixMatcher,
    B: BlockEngine,
>(
    greedy: spec_fn(G, G) -> bool,
    same: spec_fn(
        (HqEncoder, Surroundings<C, T, A, B>),
        (HqEncoder, Surroundings<C, T, A, B>),
    ) -> bool,
    left: Encoder<G, F, C, T, A, B>,
    right: Encoder<G, F, C, T, A, B>,
) -> bool {
    match (left, right) {
        (Encoder::Fast(a), Encoder::Fast(b)) => fast_alike(a, b),
        (Encoder::Greedy(a), Encoder::Greedy(b)) => greedy(a, b),
        (Encoder::Hq(a), Encoder::Hq(b)) => hq_alike(same, a, b),
        (_, _) => false,
    }
}

/// A greedy encoder serves the qualities of its family alone.
pub open spec fn keeps_to_family<G: BlockEncoder>() -> bool {
    forall|before: G, settings: config::Settings, hint: usize, after: G| #[trigger]
        calls::restored(before, settings, hint, after) ==> Family::of(settings.quality)
            == Family::Greedy
}

/// The encoders of all families are interchangeable, if the coder of the fast one and
/// the surroundings of the high-quality one agree, and the greedy one is interchangeable
/// and keeps to its family: what becomes of an input depends on its settings alone,
/// whichever instructions are used and whatever was compressed before.
pub proof fn lemma_encoders_interchangeable<
    G: BlockEncoder,
    F: FragmentCoder + Fresh,
    C: CostModel + Fresh,
    T: TreeMatcher + Fresh,
    A: PrefixMatcher + Fresh,
    B: BlockEngine + Fresh,
>(
    greedy: spec_fn(G, G) -> bool,
    same: spec_fn(
        (HqEncoder, Surroundings<C, T, A, B>),
        (HqEncoder, Surroundings<C, T, A, B>),
    ) -> bool,
)
    requires
        coders_agree::<F, F>(),
        compressor::interchangeable::<G, G>(greedy),
        keeps_to_family::<G>(),
        surroundings_agree::<C, T, A, B>(same),
    ensures
        compressor::interchangeable::<Encoder<G, F, C, T, A, B>, Encoder<G, F, C, T, A, B>>(
            |left: Encoder<G, F, C, T, A, B>, right: Encoder<G, F, C, T, A, B>|
                encoders_alike(greedy, same, left, right),
        ),
{
    lemma_fast_encoders_interchangeable::<F, F>();
    lemma_hq_encoders_interchangeable::<C, T, A, B>(same);
    let alike = |left: Encoder<G, F, C, T, A, B>, right: Encoder<G, F, C, T, A, B>|
        encoders_alike(greedy, same, left, right);
    let fast = |left: FastBlocks<F>, right: FastBlocks<F>| fast_alike(left, right);
    let high = |left: HqBlocks<C, T, A, B>, right: HqBlocks<C, T, A, B>|
        hq_alike(same, left, right);
    assert forall|
        e: Encoder<G, F, C, T, A, B>,
        f: Encoder<G, F, C, T, A, B>,
        call: calls::Call,
        a: BrotliResult<Seq<u8>>,
        b: BrotliResult<Seq<u8>>,
        e2: Encoder<G, F, C, T, A, B>,
        f2: Encoder<G, F, C, T, A, B>,
    |
        #![trigger calls::steps_to(calls::of_blocks::<Encoder<G, F, C, T, A, B>>(), e, call, a, e2), calls::steps_to(calls::of_blocks::<Encoder<G, F, C, T, A, B>>(), f, call, b, f2)]
        alike(e, f) && calls::steps_to(
            calls::of_blocks::<Encoder<G, F, C, T, A, B>>(),
            e,
            call,
            a,
            e2,
        ) && calls::steps_to(
            calls::of_blocks::<Encoder<G, F, C, T, A, B>>(),
            f,
            call,
            b,
            f2,
        ) implies a == b && (a is Ok ==> alike(e2, f2)) by {
        assert(Encoder::<G, F, C, T, A, B>::does(e, call, a, e2));
        assert(Encoder::<G, F, C, T, A, B>::does(f, call, b, f2));
        match (e, e2, f, f2) {
            (Encoder::Fast(p), Encoder::Fast(p2), Encoder::Fast(q), Encoder::Fast(q2)) => {
                let steps = calls::of_blocks::<FastBlocks<F>>();
                assert(fast(p, q));
                assert(calls::steps_to(steps, p, call, a, p2));
                assert(calls::steps_to(steps, q, call, b, q2));
                assert(a is Ok ==> fast(p2, q2));
            },
            (
                Encoder::Greedy(p),
                Encoder::Greedy(p2),
                Encoder::Greedy(q),
                Encoder::Greedy(q2),
            ) => {
                let steps = calls::of_blocks::<G>();
                assert(calls::steps_to(steps, p, call, a, p2));
                assert(calls::steps_to(steps, q, call, b, q2));
            },
            (Encoder::Hq(p), Encoder::Hq(p2), Encoder::Hq(q), Encoder::Hq(q2)) => {
                let steps = calls::of_blocks::<HqBlocks<C, T, A, B>>();
                assert(high(p, q));
                assert(calls::steps_to(steps, p, call, a, p2));
                assert(calls::steps_to(steps, q, call, b, q2));
                assert(a is Ok ==> high(p2, q2));
            },
            (_, _, _, _) => {},
        }
    }
    assert(compressor::begin_alike(alike)) by {
        assert forall|
            a: calls::Start,
            b: calls::Start,
            left: BrotliResult<Encoder<G, F, C, T, A, B>>,
            right: BrotliResult<Encoder<G, F, C, T, A, B>>,
        |
            #![trigger compressor::got::<Encoder<G, F, C, T, A, B>>(a, left), compressor::got::<Encoder<G, F, C, T, A, B>>(b, right)]
            a.settings == b.settings && a.hint == b.hint && a.family == Family::of(
                a.settings.quality,
            ) && b.family == a.family && compressor::got::<Encoder<G, F, C, T, A, B>>(a, left)
                && compressor::got::<Encoder<G, F, C, T, A, B>>(b, right) implies match (
            left,
            right,
        ) {
            (Ok(e), Ok(f)) => alike(e, f),
            (Err(e), Err(f)) => e == f,
            (_, _) => false,
        } by {
            lemma_encoder_got::<G, F, C, T, A, B>(a, left);
            lemma_encoder_got::<G, F, C, T, A, B>(b, right);
            match a.family {
                Family::Fast => {
                    lemma_fast_got::<F>(a, fast_part(left));
                    lemma_fast_got::<F>(b, fast_part(right));
                },
                Family::Greedy => {
                    assert(compressor::got::<G>(a, greedy_part(left)));
                    assert(compressor::got::<G>(b, greedy_part(right)));
                },
                Family::Hq => {
                    lemma_hq_got::<C, T, A, B>(a, hq_part(left));
                    lemma_hq_got::<C, T, A, B>(b, hq_part(right));
                },
            }
        }
    }
    assert(compressor::take_alike(alike)) by {
        assert forall|
            e: Encoder<G, F, C, T, A, B>,
            f: Encoder<G, F, C, T, A, B>,
            l: usize,
            m: usize,
        |
            #![trigger Encoder::<G, F, C, T, A, B>::takes(e, l), Encoder::<G, F, C, T, A, B>::takes(f, m)]
            alike(e, f) && Encoder::<G, F, C, T, A, B>::takes(e, l) && Encoder::<
                G,
                F,
                C,
                T,
                A,
                B,
            >::takes(f, m) implies l == m by {
            match (e, f) {
                (Encoder::Fast(p), Encoder::Fast(q)) => {
                    assert(fast(p, q));
                    assert(FastBlocks::<F>::takes(p, l) && FastBlocks::<F>::takes(q, m));
                },
                (Encoder::Greedy(p), Encoder::Greedy(q)) => {
                    assert(G::takes(p, l) && G::takes(q, m));
                },
                (Encoder::Hq(p), Encoder::Hq(q)) => {
                    assert(high(p, q));
                    assert(HqBlocks::<C, T, A, B>::takes(p, l) && HqBlocks::<
                        C,
                        T,
                        A,
                        B,
                    >::takes(q, m));
                },
                (_, _) => {},
            }
        }
    }
}

/// The fast encoder in a result.
spec fn fast_part<
    G: BlockEncoder,
    F: FragmentCoder,
    C: CostModel,
    T: TreeMatcher,
    A: PrefixMatcher,
    B: BlockEngine,
>(built: BrotliResult<Encoder<G, F, C, T, A, B>>) -> BrotliResult<FastBlocks<F>> {
    match built {
        Ok(encoder) => Ok(encoder->Fast_0),
        Err(error) => Err(error),
    }
}

/// The greedy encoder in a result.
spec fn greedy_part<
    G: BlockEncoder,
    F: FragmentCoder,
    C: CostModel,
    T: TreeMatcher,
    A: PrefixMatcher,
    B: BlockEngine,
>(built: BrotliResult<Encoder<G, F, C, T, A, B>>) -> BrotliResult<G> {
    match built {
        Ok(encoder) => Ok(encoder->Greedy_0),
        Err(error) => Err(error),
    }
}

/// The high-quality encoder in a result.
spec fn hq_part<
    G: BlockEncoder,
    F: FragmentCoder,
    C: CostModel,
    T: TreeMatcher,
    A: PrefixMatcher,
    B: BlockEngine,
>(built: BrotliResult<Encoder<G, F, C, T, A, B>>) -> BrotliResult<HqBlocks<C, T, A, B>> {
    match built {
        Ok(encoder) => Ok(encoder->Hq_0),
        Err(error) => Err(error),
    }
}

/// An encoder that gets to a stream is one of the family the quality routes to.
proof fn lemma_encoder_got<
    G: BlockEncoder,
    F: FragmentCoder + Fresh,
    C: CostModel + Fresh,
    T: TreeMatcher + Fresh,
    A: PrefixMatcher + Fresh,
    B: BlockEngine + Fresh,
>(start: calls::Start, built: BrotliResult<Encoder<G, F, C, T, A, B>>)
    requires
        keeps_to_family::<G>(),
        compressor::got::<Encoder<G, F, C, T, A, B>>(start, built),
        start.family == Family::of(start.settings.quality),
    ensures
        match start.family {
            Family::Fast => {
                &&& built matches Ok(encoder) ==> encoder is Fast
                &&& compressor::got::<FastBlocks<F>>(start, fast_part(built))
            },
            Family::Greedy => {
                &&& built matches Ok(encoder) ==> encoder is Greedy
                &&& compressor::got::<G>(start, greedy_part(built))
            },
            Family::Hq => {
                &&& built matches Ok(encoder) ==> encoder is Hq
                &&& compressor::got::<HqBlocks<C, T, A, B>>(start, hq_part(built))
            },
        },
{
    if let Ok(encoder) = built {
        if start.reused {
            let before = choose|before: Encoder<G, F, C, T, A, B>| #[trigger]
                calls::restored(before, start.settings, start.hint, encoder);
            assert(Encoder::<G, F, C, T, A, B>::serves(
                before,
                start.settings,
                start.hint,
                true,
                encoder,
            ));
            match (before, encoder) {
                (Encoder::Fast(p), Encoder::Fast(q)) => {
                    assert(calls::restored(p, start.settings, start.hint, q));
                },
                (Encoder::Greedy(p), Encoder::Greedy(q)) => {
                    assert(calls::restored(p, start.settings, start.hint, q));
                },
                (Encoder::Hq(p), Encoder::Hq(q)) => {
                    assert(calls::restored(p, start.settings, start.hint, q));
                },
                (_, _) => {},
            }
        }
    }
}

} // verus!
