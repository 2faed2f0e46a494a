//! Execution backends: which vector unit compares bytes.
//!
//! The outside crate's tokens stay inside the wrappers; everything else sees a
//! plain enumeration. Every backend computes the same results.
use fearless_simd::{u8x16, u8x32, u8x64, Fallback, Level, SimdBase, SimdMask};
use vstd::prelude::*;

use crate::math;

verus! {

/// The instruction sets a backend can stand for.
#[derive(Copy, Clone, Debug, PartialEq, Eq, Structural)]
pub enum BackendKind {
    /// Portable scalar code.
    Scalar,
    /// SSE2.
    Sse2,
    /// SSE4.2.
    Sse4_2,
    /// AVX2.
    Avx2,
    /// AVX-512.
    Avx512,
    /// Something else the vector crate knows.
    Native,
}

/// A supported execution backend, independent of the vector crate.
///
/// Unsupported backends cannot be constructed: a value is the scalar backend or
/// was read off the host.
#[derive(Copy, Clone, Debug, PartialEq, Eq, Structural)]
pub struct Backend {
    kind: BackendKind,
}

/// Every backend a host with this best one can execute, scalar first and each
/// one after those it extends.
pub open spec fn supported_by(best: BackendKind) -> Seq<BackendKind> {
    match best {
        BackendKind::Scalar => seq![BackendKind::Scalar],
        BackendKind::Sse2 => seq![BackendKind::Scalar, BackendKind::Sse2],
        BackendKind::Sse4_2 => seq![BackendKind::Scalar, BackendKind::Sse2, BackendKind::Sse4_2],
        BackendKind::Avx2 => seq![
            BackendKind::Scalar,
            BackendKind::Sse2,
            BackendKind::Sse4_2,
            BackendKind::Avx2,
        ],
        BackendKind::Avx512 => seq![
            BackendKind::Scalar,
            BackendKind::Sse2,
            BackendKind::Sse4_2,
            BackendKind::Avx2,
            BackendKind::Avx512,
        ],
        BackendKind::Native => seq![BackendKind::Scalar],
    }
}

impl Backend {
    /// The instruction set.
    pub closed spec fn of(self) -> BackendKind {
        self.kind
    }

    /// The portable scalar implementation, without explicit vector kernels.
    pub fn scalar() -> (backend: Self)
        ensures
            backend.of() == BackendKind::Scalar,
    {
        Backend { kind: BackendKind::Scalar }
    }

    /// Returns every distinct backend this host can execute, scalar first.
    pub fn available() -> (backends: Vec<Self>)
        ensures
            exists|best: BackendKind|
                backends@.map_values(|b: Backend| b.of()) == #[trigger] supported_by(best),
    {
        let best: BackendKind = detected();
        Self::up_to(best)
    }

    /// Lists the backends a host with this best one can execute.
    fn up_to(best: BackendKind) -> (backends: Vec<Self>)
        ensures
            backends@.map_values(|b: Backend| b.of()) == supported_by(best),
    {
        let mut backends: Vec<Backend> = Vec::new();
        backends.push(Backend { kind: BackendKind::Scalar });
        let sse2: bool = matches!(
            best,
            BackendKind::Sse2 | BackendKind::Sse4_2 | BackendKind::Avx2 | BackendKind::Avx512
        );
        if sse2 {
            backends.push(Backend { kind: BackendKind::Sse2 });
        }
        if sse2 && !matches!(best, BackendKind::Sse2) {
            backends.push(Backend { kind: BackendKind::Sse4_2 });
        }
        if matches!(best, BackendKind::Avx2 | BackendKind::Avx512) {
            backends.push(Backend { kind: BackendKind::Avx2 });
        }
        if matches!(best, BackendKind::Avx512) {
            backends.push(Backend { kind: BackendKind::Avx512 });
        }
        assert(backends@.map_values(|b: Backend| b.of()) =~= supported_by(best));
        backends
    }

    /// Stable diagnostic name, available without allocating or formatting.
    pub fn name(self) -> (name: &'static str)
        ensures
            name@ == match self.of() {
                BackendKind::Scalar => "fallback"@,
                BackendKind::Sse2 => "sse2"@,
                BackendKind::Sse4_2 => "sse4.2"@,
                BackendKind::Avx2 => "avx2"@,
                BackendKind::Avx512 => "avx512"@,
                BackendKind::Native => "native"@,
            },
    {
        match self.kind {
            BackendKind::Scalar => "fallback",
            BackendKind::Sse2 => "sse2",
            BackendKind::Sse4_2 => "sse4.2",
            BackendKind::Avx2 => "avx2",
            BackendKind::Avx512 => "avx512",
            BackendKind::Native => "native",
        }
    }

    /// Returns the instruction set.
    pub fn kind(self) -> (kind: BackendKind)
        ensures
            kind == self.of(),
    {
        self.kind
    }

    /// Returns whether this is the portable scalar backend.
    pub fn is_scalar(self) -> (scalar: bool)
        ensures
            scalar == (self.of() == BackendKind::Scalar),
    {
        matches!(self.kind, BackendKind::Scalar)
    }
}

impl Default for Backend {
    /// The best backend of this host.
    fn default() -> (backend: Self) {
        Backend { kind: detected() }
    }
}

/// Bit `i` of an equality mask tells whether lanes `i` agree; bits past the
/// lanes are clear.
pub open spec fn is_equality_mask(mask: u64, left: Seq<u8>, right: Seq<u8>) -> bool {
    forall|i: int|
        0 <= i < 64 ==> (#[trigger] math::word_bit(mask, i) <==> (i < left.len() && left[i] == right[i]))
}

/// Asks `Level::try_detect` for the best level of this host, or
/// `Level::baseline` where detection is unavailable, and reads off its variant.
/// Nothing is claimed: the answer is a fact about the machine.
#[verifier::external_body]
fn detected() -> (kind: BackendKind) {
    match Level::try_detect().unwrap_or_else(Level::baseline) {
        Level::Fallback(_) => BackendKind::Scalar,
        Level::Sse2(_) => BackendKind::Sse2,
        Level::Sse4_2(_) => BackendKind::Sse4_2,
        Level::Avx2(_) => BackendKind::Avx2,
        Level::Avx512(_) => BackendKind::Avx512,
        _ => BackendKind::Native,
    }
}

/// Compares sixteen lanes with the scalar token's `u8x16::simd_eq` and turns the
/// result into bits with `to_bitmask`: bit `i` is set exactly when lanes `i`
/// are equal, lane zero in the least significant bit.
#[verifier::external_body]
pub(crate) fn scalar_lanes_16(left: &[u8], right: &[u8]) -> (mask: u64)
    requires
        left@.len() == 16,
        right@.len() == 16,
    ensures
        is_equality_mask(mask, left@, right@),
{
    let simd = Fallback::new();
    u8x16::from_slice(simd, left).simd_eq(u8x16::from_slice(simd, right)).to_bitmask()
}

/// As [`scalar_lanes_16`], with the SSE2 token where `Level::as_sse2` has one.
#[verifier::external_body]
pub(crate) fn native_lanes_16(left: &[u8], right: &[u8]) -> (mask: Option<u64>)
    requires
        left@.len() == 16,
        right@.len() == 16,
    ensures
        mask is Some ==> is_equality_mask(mask->0, left@, right@),
{
    let simd = Level::new().as_sse2()?;
    Some(u8x16::from_slice(simd, left).simd_eq(u8x16::from_slice(simd, right)).to_bitmask())
}

/// As [`scalar_lanes_16`] for 32 lanes, with the AVX2 token where
/// `Level::as_avx2` has one.
#[verifier::external_body]
pub(crate) fn native_lanes_32(left: &[u8], right: &[u8]) -> (mask: Option<u64>)
    requires
        left@.len() == 32,
        right@.len() == 32,
    ensures
        mask is Some ==> is_equality_mask(mask->0, left@, right@),
{
    let simd = Level::new().as_avx2()?;
    Some(u8x32::from_slice(simd, left).simd_eq(u8x32::from_slice(simd, right)).to_bitmask())
}

/// As [`scalar_lanes_16`] for 64 lanes, with the AVX-512 token where
/// `Level::as_avx512` has one.
#[verifier::external_body]
pub(crate) fn native_lanes_64(left: &[u8], right: &[u8]) -> (mask: Option<u64>)
    requires
        left@.len() == 64,
        right@.len() == 64,
    ensures
        mask is Some ==> is_equality_mask(mask->0, left@, right@),
{
    let simd = Level::new().as_avx512()?;
    Some(u8x64::from_slice(simd, left).simd_eq(u8x64::from_slice(simd, right)).to_bitmask())
}

/// The equality mask of up to 64 lanes, one lane at a time.
pub fn plain_lanes(left: &[u8], right: &[u8]) -> (mask: u64)
    requires
        left@.len() == right@.len(),
        left@.len() <= 64,
    ensures
        is_equality_mask(mask, left@, right@),
{
    let mut mask: u64 = 0;
    let mut k: usize = 0;
    proof {
        assert forall|i: int| 0 <= i < 64 implies !#[trigger] math::word_bit(0u64, i) by {
            math::lemma_empty_mask(i);
        }
    }
    while k < left.len()
        invariant
            k <= left@.len() <= 64,
            left@.len() == right@.len(),
            forall|i: int|
                0 <= i < 64 ==> (#[trigger] math::word_bit(mask, i) <==> (i < k && left@[i]
                    == right@[i])),
        decreases left@.len() - k,
    {
        if left[k] == right[k] {
            let ghost before = mask;
            mask = mask | (1u64 << k);
            proof {
                assert forall|i: int| 0 <= i < 64 implies (#[trigger] math::word_bit(mask, i) <==> (i < k
                    + 1 && left@[i] == right@[i])) by {
                    math::lemma_set_bit(before, k, i);
                    assert(math::word_bit(before, i) <==> (i < k && left@[i] == right@[i]));
                }
            }
        }
        k += 1;
    }
    mask
}

/// Lanes one comparison of this backend covers.
pub open spec fn stride_of(kind: BackendKind) -> usize {
    match kind {
        BackendKind::Avx2 => 32,
        BackendKind::Avx512 => 64,
        _ => 16,
    }
}

/// Compares one stride of lanes on a backend.
pub fn equal_lanes(backend: Backend, left: &[u8], right: &[u8]) -> (mask: u64)
    requires
        left@.len() == stride_of(backend.of()),
        right@.len() == stride_of(backend.of()),
    ensures
        is_equality_mask(mask, left@, right@),
{
    let native: Option<u64> = match backend.kind {
        BackendKind::Scalar => Some(scalar_lanes_16(left, right)),
        BackendKind::Sse2 | BackendKind::Sse4_2 => native_lanes_16(left, right),
        BackendKind::Avx2 => native_lanes_32(left, right),
        BackendKind::Avx512 => native_lanes_64(left, right),
        BackendKind::Native => None,
    };
    match native {
        Some(mask) => mask,
        None => plain_lanes(left, right),
    }
}

} // verus!
