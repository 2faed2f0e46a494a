use mbrotli::backend::Backend;
use mbrotli::config::{BrotliCompressError, BrotliResult, CompressParams, QualityLevel, WindowBits};
use mbrotli::driver::{BlockEncoder, Family};
use mbrotli::reader::{CompressorReader, ReadError, Source, Step};
use mbrotli::source::{
    file_identity, next_read, ArcBytesSource, EntryFacts, FileFacts, RandomAccessSource,
    SourceError, SourceIdentity,
};
use std::sync::Arc;

/// A source that delivers a few bytes at a time, and fails once if asked to.
struct Trickle {
    bytes: Vec<u8>,
    at: usize,
    step: usize,
    fail: bool,
}

impl Source for Trickle {
    type Error = &'static str;

    fn read(&mut self, buffer: &mut [u8]) -> Result<usize, &'static str> {
        if self.fail {
            self.fail = false;
            return Err("once");
        }
        let count = self.step.min(self.bytes.len() - self.at).min(buffer.len());
        buffer[..count].copy_from_slice(&self.bytes[self.at..self.at + count]);
        self.at += count;
        Ok(count)
    }
}

/// An encoder that frames its blocks.
struct Framed;

impl BlockEncoder for Framed {
    fn build(
        _family: Family,
        _backend: Backend,
        params: &CompressParams,
        _size_hint: usize,
    ) -> BrotliResult<Self> {
        if params.quality() == QualityLevel::Q9 {
            Err(BrotliCompressError::UnsupportedQuality(9))
        } else {
            Ok(Framed)
        }
    }

    fn reset_for(&mut self, _params: &CompressParams, _size_hint: usize) -> bool {
        true
    }

    fn block_size_limit(&self) -> usize {
        4
    }

    fn encode_block(&mut self, input: &[u8], is_last: bool) -> BrotliResult<Vec<u8>> {
        let mut out = vec![if is_last { b'.' } else { b'+' }];
        out.extend_from_slice(input);
        Ok(out)
    }
}

fn reader(bytes: &[u8], step: usize, quality: QualityLevel) -> CompressorReader<Trickle, Framed> {
    CompressorReader::new(
        Trickle {
            bytes: bytes.to_vec(),
            at: 0,
            step,
            fail: false,
        },
        Backend::scalar(),
        CompressParams::new(quality, WindowBits::default()),
    )
}

fn read_all(mut reader: CompressorReader<Trickle, Framed>) -> Vec<u8> {
    let mut out = Vec::new();
    let mut buf = [0u8; 3];
    loop {
        match reader.step(&mut buf).expect("a step") {
            Step::Served(count) => out.extend_from_slice(&buf[..count]),
            Step::Again => {}
            Step::End => break,
        }
    }
    out
}

#[test]
fn a_reader_cuts_its_source_into_fragments() {
    for step in [1, 3, 100] {
        assert_eq!(read_all(reader(b"abcdefghi", step, QualityLevel::Q5)), b"+abcd+efgh.i");
        // A source that ends at a fragment has that fragment for its last.
        assert_eq!(read_all(reader(b"abcdefgh", step, QualityLevel::Q5)), b"+abcd.efgh");
        assert_eq!(read_all(reader(b"", step, QualityLevel::Q5)), b".");
    }
}

#[test]
fn a_reader_goes_on_after_its_source_failed() {
    let mut broken = reader(b"abcde", 2, QualityLevel::Q5);
    broken.reader.fail = true;
    let mut buf = [0u8; 8];
    assert!(matches!(
        broken.step(&mut buf),
        Err(ReadError::Source("once"))
    ));
    assert_eq!(broken.get_ref().at, 0);
    assert_eq!(read_all(broken), b"+abcd.e");
    let mut refused = reader(b"abc", 2, QualityLevel::Q9);
    assert!(matches!(
        refused.step(&mut buf),
        Err(ReadError::Compress(BrotliCompressError::UnsupportedQuality(9)))
    ));
    assert_eq!(refused.step(&mut []).ok(), Some(Step::Served(0)));
}

#[test]
fn bytes_in_memory_are_read_at_any_offset() {
    let source = ArcBytesSource::from(Arc::<[u8]>::from(&b"0123456789"[..]));
    assert_eq!(source.len(), Ok(10));
    assert_eq!(source.is_empty(), Ok(false));
    assert_eq!(source.identity(), None);
    let mut dst = [0u8; 4];
    assert_eq!(source.read_exact_at(6, &mut dst), Ok(()));
    assert_eq!(&dst, b"6789");
    assert_eq!(
        source.read_exact_at(7, &mut dst),
        Err(SourceError::UnexpectedEof)
    );
    assert_eq!(
        source.read_exact_at(u64::MAX, &mut dst),
        Err(SourceError::UnexpectedEof)
    );
    assert_eq!(source.read_exact_at(10, &mut []), Ok(()));
    assert_eq!(source.as_ref(), b"0123456789");
}

#[test]
fn a_read_goes_on_where_it_stopped() {
    assert_eq!(next_read(10, 8, 3), Ok((13, 5)));
    assert_eq!(next_read(10, 8, 0), Err(SourceError::UnexpectedEof));
    assert_eq!(next_read(u64::MAX, 8, 1), Err(SourceError::InvalidInput));
}

#[test]
fn a_file_is_told_by_its_facts() {
    let facts = FileFacts {
        length: 0x0102,
        modified: Some(5),
        entry: Some(EntryFacts {
            device: 1,
            inode: 2,
            changed: 3,
            changed_nanos: 4,
        }),
    };
    let mut expected = 0x0102u64.to_le_bytes().to_vec();
    expected.extend_from_slice(&5u128.to_le_bytes());
    for number in [1u64, 2, 3, 4] {
        expected.extend_from_slice(&number.to_le_bytes());
    }
    assert_eq!(file_identity(facts), SourceIdentity::from(expected));
    let bare = FileFacts {
        length: 7,
        modified: None,
        entry: None,
    };
    assert_eq!(file_identity(bare).0, 7u64.to_le_bytes());
    assert_ne!(file_identity(bare), file_identity(FileFacts { length: 8, ..bare }));
}

/// An input that cannot say how long it is.
struct Unmeasured;

impl RandomAccessSource for Unmeasured {
    fn len(&self) -> Result<u64, SourceError> {
        Err(SourceError::Failed)
    }

    fn read_exact_at(&self, _offset: u64, _dst: &mut [u8]) -> Result<(), SourceError> {
        Err(SourceError::Failed)
    }
}

#[test]
fn an_input_is_empty_if_it_says_it_has_no_bytes() {
    let nothing = ArcBytesSource::from(Arc::<[u8]>::from(&b""[..]));
    assert_eq!(nothing.is_empty(), Ok(true));
    let one = ArcBytesSource::from(Arc::<[u8]>::from(&b"x"[..]));
    assert_eq!(one.is_empty(), Ok(false));
    assert_eq!(Unmeasured.is_empty(), Err(SourceError::Failed));
}

/// A source that notes how much room it was given, and claims to have filled more.
struct Boasting {
    rooms: Vec<usize>,
    left: usize,
}

impl Source for Boasting {
    type Error = &'static str;

    fn read(&mut self, buffer: &mut [u8]) -> Result<usize, &'static str> {
        self.rooms.push(buffer.len());
        if self.left == 0 {
            return Ok(0);
        }
        self.left -= 1;
        buffer.fill(b'x');
        Ok(buffer.len() + 7)
    }
}

#[test]
fn a_reader_asks_for_one_byte_more_than_a_fragment() {
    let source = Boasting {
        rooms: Vec::new(),
        left: 2,
    };
    let mut reader: CompressorReader<Boasting, Framed> = CompressorReader::new(
        source,
        Backend::scalar(),
        CompressParams::new(QualityLevel::Q5, WindowBits::default()),
    );
    let mut out = Vec::new();
    let mut buf = [0u8; 16];
    loop {
        match reader.step(&mut buf).expect("a step") {
            Step::Served(count) => out.extend_from_slice(&buf[..count]),
            Step::Again => {}
            Step::End => break,
        }
    }
    assert_eq!(out, b"+xxxx+xxxx.x");
    assert_eq!(reader.get_ref().rooms, [5, 4, 4]);
}

#[test]
fn a_step_compresses_a_fragment_before_it_delivers_it() {
    let mut stepped = reader(b"abcde", 100, QualityLevel::Q5);
    let mut buf = [0u8; 8];
    assert_eq!(stepped.step(&mut buf).ok(), Some(Step::Again));
    assert_eq!(stepped.get_ref().at, 5);
    assert_eq!(stepped.step(&mut buf).ok(), Some(Step::Served(5)));
    assert_eq!(&buf[..5], b"+abcd");
    assert_eq!(stepped.step(&mut buf).ok(), Some(Step::Again));
    assert_eq!(stepped.step(&mut buf[..1]).ok(), Some(Step::Served(1)));
    assert_eq!(buf[0], b'.');
    assert_eq!(stepped.step(&mut buf).ok(), Some(Step::Served(1)));
    assert_eq!(buf[0], b'e');
    assert_eq!(stepped.step(&mut buf).ok(), Some(Step::End));
    assert_eq!(stepped.step(&mut buf).ok(), Some(Step::End));
}
