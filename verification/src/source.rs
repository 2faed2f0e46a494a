//! Inputs that are read at any offset, and how their versions are told apart.
use std::sync::Arc;

use vstd::prelude::*;

verus! {

/// What tells one version of an input from another.
#[derive(Clone, Debug, PartialEq, Eq, Hash)]
pub struct SourceIdentity(pub Vec<u8>);

impl From<Vec<u8>> for SourceIdentity {
    /// Takes any bytes for an identity.
    fn from(bytes: Vec<u8>) -> (identity: Self) {
        SourceIdentity(bytes)
    }
}

impl vstd::std_specs::convert::FromSpecImpl<Vec<u8>> for SourceIdentity {
    open spec fn obeys_from_spec() -> bool {
        true
    }

    open spec fn from_spec(bytes: Vec<u8>) -> Self {
        SourceIdentity(bytes)
    }
}

/// Why an input could not be read.
#[derive(Copy, Clone, Debug, PartialEq, Eq, Structural)]
pub enum SourceError {
    /// The input ends before the range does.
    UnexpectedEof,
    /// The range cannot be addressed.
    InvalidInput,
    /// The input failed for a reason of its own.
    Failed,
}

/// An input that is read at any offset.
///
/// A range is filled whole or not read, and the bytes do not change meanwhile.
pub trait RandomAccessSource: Send + Sync + 'static {
    /// The input can say this of how long it is, whenever it is asked.
    open spec fn may_say(&self, length: Result<u64, SourceError>) -> bool {
        arbitrary()
    }

    /// Returns how long the input is.
    fn len(&self) -> (result: Result<u64, SourceError>)
        ensures
            self.may_say(result),
    ;

    /// Returns whether the input is empty: whether what it says of its length is
    /// none, or why it cannot say.
    fn is_empty(&self) -> (result: Result<bool, SourceError>)
        ensures
            match result {
                Ok(true) => self.may_say(Ok(0)),
                Ok(false) => exists|length: u64| length > 0 && #[trigger] self.may_say(Ok(length)),
                Err(error) => self.may_say(Err(error)),
            },
    {
        match self.len() {
            Ok(length) => Ok(length == 0),
            Err(error) => Err(error),
        }
    }

    /// Fills `dst` from `offset` on.
    fn read_exact_at(&self, offset: u64, dst: &mut [u8]) -> Result<(), SourceError>;

    /// Returns what tells this version of the input from others, if that is known.
    ///
    /// Unless a source says otherwise, nothing is known.
    fn identity(&self) -> (identity: Option<SourceIdentity>)
        default_ensures
            identity is None,
    {
        None
    }
}

/// Bytes in memory, shared.
#[derive(Clone, Debug)]
pub struct ArcBytesSource(pub Arc<[u8]>);

impl ArcBytesSource {
    /// The bytes.
    pub open spec fn bytes(&self) -> Seq<u8> {
        (*self.0)@
    }

    /// Borrows the bytes.
    pub fn as_bytes(&self) -> (bytes: &[u8])
        ensures
            bytes@ == self.bytes(),
    {
        &*self.0
    }
}

impl From<Arc<[u8]>> for ArcBytesSource {
    /// Shares the bytes.
    fn from(bytes: Arc<[u8]>) -> (source: Self) {
        ArcBytesSource(bytes)
    }
}

impl vstd::std_specs::convert::FromSpecImpl<Arc<[u8]>> for ArcBytesSource {
    open spec fn obeys_from_spec() -> bool {
        true
    }

    open spec fn from_spec(bytes: Arc<[u8]>) -> Self {
        ArcBytesSource(bytes)
    }
}

impl AsRef<[u8]> for ArcBytesSource {
    /// Borrows the bytes.
    fn as_ref(&self) -> (bytes: &[u8])
        ensures
            bytes@ == self.bytes(),
    {
        self.as_bytes()
    }
}

impl RandomAccessSource for ArcBytesSource {
    /// As many bytes as there are.
    open spec fn may_say(&self, length: Result<u64, SourceError>) -> bool {
        length == Ok::<u64, SourceError>(self.bytes().len() as u64)
    }

    fn len(&self) -> (result: Result<u64, SourceError>)
        ensures
            result == Ok::<u64, SourceError>(self.bytes().len() as u64),
    {
        Ok(self.as_bytes().len() as u64)
    }

    fn read_exact_at(&self, offset: u64, dst: &mut [u8]) -> (result: Result<(), SourceError>)
        ensures
            final(dst)@.len() == old(dst)@.len(),
            offset + old(dst)@.len() <= self.bytes().len() ==> result is Ok && final(dst)@
                == self.bytes().subrange(offset as int, offset + old(dst)@.len()),
            offset + old(dst)@.len() > self.bytes().len() ==> result == Err::<(), _>(
                SourceError::UnexpectedEof,
            ) && final(dst)@ == old(dst)@,
    {
        let bytes = self.as_bytes();
        let size: usize = bytes.len();
        let want: usize = dst.len();
        if want > size || offset > (size - want) as u64 {
            return Err(SourceError::UnexpectedEof);
        }
        let start: usize = offset as usize;
        let mut i: usize = 0;
        while i < want
            invariant
                i <= want,
                want == dst@.len(),
                want == old(dst)@.len(),
                bytes@ == self.bytes(),
                size == bytes@.len(),
                start + want <= size,
                forall|k: int| 0 <= k < i ==> #[trigger] dst@[k] == bytes@[start + k],
            decreases want - i,
        {
            dst[i] = bytes[start + i];
            i += 1;
        }
        assert(dst@ =~= self.bytes().subrange(offset as int, offset + want));
        Ok(())
    }
}

/// What is left to read after a read: where it goes on, and how much.
///
/// A read that brings nothing is the end of the input.
pub fn next_read(offset: u64, left: usize, count: usize) -> (result: Result<(u64, usize), SourceError>)
    requires
        count <= left,
    ensures
        result == if count == 0 {
            Err::<(u64, usize), _>(SourceError::UnexpectedEof)
        } else if offset + count > u64::MAX {
            Err(SourceError::InvalidInput)
        } else {
            Ok(((offset + count) as u64, (left - count) as usize))
        },
{
    if count == 0 {
        return Err(SourceError::UnexpectedEof);
    }
    match offset.checked_add(count as u64) {
        None => Err(SourceError::InvalidInput),
        Some(next) => Ok((next, left - count)),
    }
}

/// What a file system says of a file.
#[derive(Copy, Clone, Debug, PartialEq, Eq, Structural)]
pub struct FileFacts {
    /// How long it is.
    pub length: u64,
    /// When it was written, in nanoseconds since the epoch.
    pub modified: Option<u128>,
    /// Where it is and when its entry changed, where that is known.
    pub entry: Option<EntryFacts>,
}

/// What a file system says of a file's entry.
#[derive(Copy, Clone, Debug, PartialEq, Eq, Structural)]
pub struct EntryFacts {
    /// The device.
    pub device: u64,
    /// The number of the file on it.
    pub inode: u64,
    /// When the entry changed, in seconds.
    pub changed: u64,
    /// The nanoseconds of that second.
    pub changed_nanos: u64,
}

/// A number's bytes, the lowest first.
pub open spec fn low_first(value: int, count: nat) -> Seq<u8>
    decreases count,
{
    if count == 0 {
        Seq::empty()
    } else {
        seq![(value % 256) as u8] + low_first(value / 256, (count - 1) as nat)
    }
}

/// The bytes that tell one version of a file from another.
pub open spec fn identity_of(facts: FileFacts) -> Seq<u8> {
    low_first(facts.length as int, 8) + (match facts.modified {
        Some(nanos) => low_first(nanos as int, 16),
        None => Seq::empty(),
    }) + (match facts.entry {
        Some(entry) => low_first(entry.device as int, 8) + low_first(entry.inode as int, 8)
            + low_first(entry.changed as int, 8) + low_first(entry.changed_nanos as int, 8),
        None => Seq::empty(),
    })
}

/// Appends a number's bytes, the lowest first.
fn push_low_first(value: u128, count: usize, out: &mut Vec<u8>)
    ensures
        final(out)@ == old(out)@ + low_first(value as int, count as nat),
{
    let mut left: u128 = value;
    let mut i: usize = 0;
    assert(out@ + low_first(left as int, count as nat) =~= old(out)@ + low_first(
        value as int,
        count as nat,
    ));
    while i < count
        invariant
            i <= count,
            out@ + low_first(left as int, (count - i) as nat) == old(out)@ + low_first(
                value as int,
                count as nat,
            ),
        decreases count - i,
    {
        let ghost before = out@;
        let byte: u8 = (left % 256) as u8;
        out.push(byte);
        proof {
            assert(before + (seq![byte] + low_first(left as int / 256, (count - i - 1) as nat))
                =~= out@ + low_first(left as int / 256, (count - i - 1) as nat));
        }
        left = left / 256;
        i += 1;
    }
    assert(out@ + low_first(left as int, 0) =~= out@);
}

/// Returns what tells this version of a file from others.
pub fn file_identity(facts: FileFacts) -> (identity: SourceIdentity)
    ensures
        identity.0@ == identity_of(facts),
{
    let mut bytes: Vec<u8> = Vec::new();
    push_low_first(facts.length as u128, 8, &mut bytes);
    match facts.modified {
        None => {},
        Some(nanos) => push_low_first(nanos, 16, &mut bytes),
    }
    match facts.entry {
        None => {},
        Some(entry) => {
            push_low_first(entry.device as u128, 8, &mut bytes);
            push_low_first(entry.inode as u128, 8, &mut bytes);
            push_low_first(entry.changed as u128, 8, &mut bytes);
            push_low_first(entry.changed_nanos as u128, 8, &mut bytes);
        },
    }
    assert(bytes@ =~= identity_of(facts));
    SourceIdentity(bytes)
}

/// Two numbers with the same bytes are the same number.
proof fn lemma_low_first_tells(left: int, right: int, count: nat)
    requires
        0 <= left,
        0 <= right,
        low_first(left, count) == low_first(right, count),
        left < pow256(count),
        right < pow256(count),
    ensures
        left == right,
    decreases count,
{
    if count > 0 {
        let a = low_first(left, count);
        let b = low_first(right, count);
        assert(a[0] == b[0]);
        assert(a.skip(1) =~= low_first(left / 256, (count - 1) as nat));
        assert(b.skip(1) =~= low_first(right / 256, (count - 1) as nat));
        assert(left / 256 < pow256((count - 1) as nat) && right / 256 < pow256(
            (count - 1) as nat,
        )) by (nonlinear_arith)
            requires
                left < 256 * pow256((count - 1) as nat),
                right < 256 * pow256((count - 1) as nat),
                0 <= left,
                0 <= right,
        ;
        lemma_low_first_tells(left / 256, right / 256, (count - 1) as nat);
    }
}

/// How many numbers some bytes can hold.
pub open spec fn pow256(count: nat) -> int
    decreases count,
{
    if count == 0 {
        1
    } else {
        256 * pow256((count - 1) as nat)
    }
}

/// A number has as many bytes as asked for.
proof fn lemma_low_first_len(value: int, count: nat)
    ensures
        low_first(value, count).len() == count,
    decreases count,
{
    if count > 0 {
        lemma_low_first_len(value / 256, (count - 1) as nat);
    }
}

/// Two files of different lengths have different identities.
pub proof fn lemma_length_tells(left: FileFacts, right: FileFacts)
    requires
        left.length != right.length,
    ensures
        identity_of(left) != identity_of(right),
{
    lemma_low_first_len(left.length as int, 8);
    lemma_low_first_len(right.length as int, 8);
    assert(identity_of(left).take(8) =~= low_first(left.length as int, 8));
    assert(identity_of(right).take(8) =~= low_first(right.length as int, 8));
    reveal_with_fuel(pow256, 9);
    if identity_of(left) == identity_of(right) {
        lemma_low_first_tells(left.length as int, right.length as int, 8);
    }
}

} // verus!
