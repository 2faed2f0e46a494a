use mbrotli::backend::Backend;
use mbrotli::shared::bits::{BitWriter, WRITE_SLACK};
use mbrotli::shared::capacity::{held_by, room_for, total};
use mbrotli::shared::fast_log::log2_floor_non_zero;
use mbrotli::shared::match_len::{
    find_match_length, load_u64_le, match_len_native_vectors, native_vector_stride,
};
use mbrotli::shared::ringbuffer::{wrap_position, RingBuffer};

fn writer_output(bits: &[(u32, u64)]) -> (Vec<u8>, usize) {
    let mut storage = vec![0u8; 64];
    let mut writer = BitWriter::new(&mut storage, 0);
    for &(n, value) in bits {
        writer.write(n, value);
    }
    let position = writer.position();
    assert!(!writer.overflowed());
    (storage, position)
}

#[test]
fn writes_bits_least_significant_first() {
    let (storage, position) = writer_output(&[(1, 1), (2, 2), (5, 0b10101)]);
    assert_eq!(position, 8);
    assert_eq!(storage[0], 0b1010_1101);
}

#[test]
fn writes_across_a_byte_boundary() {
    let (storage, position) = writer_output(&[(4, 0xF), (8, 0xA5)]);
    assert_eq!(position, 12);
    assert_eq!(storage[0], 0x5F);
    assert_eq!(storage[1], 0x0A);
}

#[test]
fn writes_the_widest_supported_field() {
    let value = (1u64 << 56) - 1;
    let (storage, position) = writer_output(&[(3, 5), (56, value)]);
    assert_eq!(position, 59);
    assert_eq!(storage[0], 0b1111_1101);
    assert_eq!(&storage[1..7], &[0xFF; 6]);
    assert_eq!(storage[7], 0b0000_0111);
}

#[test]
fn zero_width_writes_leave_the_stream_untouched() {
    let (storage, position) = writer_output(&[(3, 5), (0, 0), (3, 5)]);
    assert_eq!(position, 6);
    assert_eq!(storage[0], 0b0010_1101);
}

#[test]
fn clears_the_bytes_that_follow_the_write() {
    let mut storage = vec![0xFFu8; 16];
    storage[0] = 0;
    let mut writer = BitWriter::new(&mut storage, 0);
    writer.write(4, 0);
    assert_eq!(&storage[..8], &[0u8; 8]);
    assert_eq!(&storage[8..], &[0xFFu8; 8]);
}

#[test]
fn update_rewrites_an_already_emitted_field() {
    let mut storage = vec![0u8; 16];
    let mut writer = BitWriter::new(&mut storage, 0);
    writer.write(3, 0b101);
    let patched = writer.position();
    writer.write(20, 0);
    writer.write(4, 0xF);
    writer.update(20, 0x0F_F0F, patched);
    assert_eq!(writer.position(), 27);
    let value = u32::from_le_bytes([storage[0], storage[1], storage[2], storage[3]]);
    assert_eq!(value & 0b111, 0b101);
    assert_eq!((value >> 3) & 0xF_FFFF, 0x0F_F0F);
    assert_eq!((value >> 23) & 0xF, 0xF);
}

#[test]
fn rewind_discards_bits_written_after_the_mark() {
    let mut storage = vec![0u8; 16];
    let mut writer = BitWriter::new(&mut storage, 0);
    writer.write(5, 0b10101);
    let mark = writer.position();
    writer.write(20, 0xF_FFFF);
    writer.rewind(mark);
    assert_eq!(writer.position(), 5);
    assert_eq!(storage[0], 0b0001_0101);
}

#[test]
fn align_moves_to_the_next_byte_boundary() {
    let mut storage = vec![0u8; 8];
    let mut writer = BitWriter::new(&mut storage, 0);
    writer.write(3, 0b111);
    writer.align();
    assert_eq!(writer.position(), 8);
    writer.align();
    assert_eq!(writer.position(), 8);
}

#[test]
fn jumping_to_a_byte_boundary_clears_the_byte_landed_on() {
    let mut storage = vec![0xFFu8; 16];
    storage[0] = 0;
    let mut writer = BitWriter::new(&mut storage, 0);
    writer.write(3, 0b101);
    writer.jump_to_byte_boundary();
    assert_eq!(writer.position(), 8);
    assert_eq!(storage[0], 0b101);
    assert_eq!(storage[1], 0);
}

#[test]
fn preparing_storage_clears_only_the_current_byte() {
    let mut storage = vec![0xFFu8; 4];
    let mut writer = BitWriter::new(&mut storage, 16);
    writer.prepare_storage();
    assert_eq!(storage, vec![0xFF, 0xFF, 0x00, 0xFF]);
}

#[test]
fn preparing_storage_past_the_buffer_reports_an_overflow() {
    let mut storage = vec![0u8; 1];
    let mut writer = BitWriter::new(&mut storage, 64);
    writer.prepare_storage();
    assert!(writer.overflowed());
}

#[test]
fn write_bytes_copies_verbatim_and_clears_the_next_byte() {
    let mut storage = vec![0xFFu8; 16];
    storage[0] = 0;
    let mut writer = BitWriter::new(&mut storage, 0);
    writer.write(8, 0x41);
    writer.write_bytes(&[1, 2, 3]);
    let position = writer.position();
    assert_eq!(&storage[..5], &[0x41, 1, 2, 3, 0]);
    assert_eq!(position, 32);
}

#[test]
fn reports_overflow_instead_of_panicking() {
    let mut storage = vec![0u8; WRITE_SLACK + 1];
    let mut writer = BitWriter::new(&mut storage, 0);
    writer.write(8, 0xFF);
    assert!(!writer.overflowed());
    writer.write(8, 0xFF);
    assert!(!writer.overflowed());
    writer.write(8, 0xFF);
    assert!(writer.overflowed());
}

#[test]
fn overflow_is_reported_for_rewind_update_and_byte_copies() {
    let mut storage = vec![0u8; 1];
    let mut writer = BitWriter::new(&mut storage, 0);
    writer.write_bytes(&[1, 2, 3]);
    assert!(writer.overflowed());

    let mut storage = vec![0u8; 1];
    let mut writer = BitWriter::new(&mut storage, 0);
    writer.update(8, 0xFF, 64);
    assert!(writer.overflowed());

    let mut storage = vec![0u8; 1];
    let mut writer = BitWriter::new(&mut storage, 0);
    writer.rewind(64);
    assert!(writer.overflowed());
}

#[test]
fn set_byte_overwrites_and_reports_an_out_of_range_index() {
    let mut storage = vec![0u8; 2];
    let mut writer = BitWriter::new(&mut storage, 0);
    writer.set_byte(1, 0xAB);
    assert!(!writer.overflowed());
    writer.set_byte(9, 0xCD);
    assert!(writer.overflowed());
    assert_eq!(storage[1], 0xAB);
}

#[test]
fn byte_reads_past_the_buffer_as_zero() {
    let mut storage = vec![7u8; 1];
    let writer = BitWriter::new(&mut storage, 0);
    assert_eq!(writer.byte(0), 7);
    assert_eq!(writer.byte(9), 0);
}

#[test]
fn floor_log2_matches_the_bit_width() {
    assert_eq!(log2_floor_non_zero(1), 0);
    assert_eq!(log2_floor_non_zero(2), 1);
    assert_eq!(log2_floor_non_zero(3), 1);
    assert_eq!(log2_floor_non_zero(255), 7);
    assert_eq!(log2_floor_non_zero(256), 8);
}

/// The widest backend of this host.
fn native() -> Backend {
    Backend::available().pop().unwrap_or(Backend::scalar())
}


/// Straight-line reference implementation used as the oracle.
fn baseline(data: &[u8], left: usize, right: usize, limit: usize) -> usize {
    (0..limit)
        .take_while(|&i| data[left + i] == data[right + i])
        .count()
}

fn measure(data: &[u8], left: usize, right: usize, limit: usize) -> usize {
    find_match_length(native(), data, left, right, limit)
}

fn measure_fallback(data: &[u8], left: usize, right: usize, limit: usize) -> usize {
    find_match_length(Backend::scalar(), data, left, right, limit)
}

#[test]
fn loads_read_little_endian_words_at_every_offset() {
    let data: Vec<u8> = (1..=32u8).collect();
    for offset in 0..=(data.len() - 8) {
        let mut expected = [0u8; 8];
        expected.copy_from_slice(&data[offset..offset + 8]);
        assert_eq!(load_u64_le(&data, offset), u64::from_le_bytes(expected));
    }
}

#[test]
fn loads_work_at_the_exact_end_of_the_slice() {
    let data = [1u8, 2, 3, 4, 5, 6, 7, 8];
    assert_eq!(load_u64_le(&data, 0), 0x0807_0605_0403_0201);
    assert_eq!(load_u64_le(&data, 1), 0);
}

#[test]
fn loads_past_the_end_read_as_zero() {
    let data = [1u8, 2, 3];
    assert_eq!(load_u64_le(&data, 0), 0);
    assert_eq!(load_u64_le(&data, 3), 0);
    assert_eq!(load_u64_le(&data, 99), 0);
}

#[test]
fn reports_every_mismatch_position() {
    let length = 300usize;
    for mismatch in 0..length {
        let mut data = vec![0u8; 2 * length];
        data[length + mismatch] = 1;
        let limit = length;
        assert_eq!(measure(&data, 0, length, limit), mismatch);
        assert_eq!(measure_fallback(&data, 0, length, limit), mismatch);
        assert_eq!(baseline(&data, 0, length, limit), mismatch);
    }
}

#[test]
fn respects_every_limit() {
    let data = vec![7u8; 512];
    for limit in 0..=256 {
        assert_eq!(measure(&data, 0, 256, limit), limit);
        assert_eq!(measure_fallback(&data, 0, 256, limit), limit);
    }
}

#[test]
fn matches_the_baseline_on_pseudo_random_data() {
    let mut data = vec![0u8; 4096];
    let mut state = 0x1234_5678u32;
    for byte in data.iter_mut() {
        state = state.wrapping_mul(1_103_515_245).wrapping_add(12_345);
        *byte = (state >> 16) as u8 & 0x03;
    }
    for left in (0..1024).step_by(7) {
        for right in (1024..2048).step_by(13) {
            let limit = 512;
            let expected = baseline(&data, left, right, limit);
            assert_eq!(measure(&data, left, right, limit), expected);
            assert_eq!(measure_fallback(&data, left, right, limit), expected);
        }
    }
}

#[test]
fn a_window_that_does_not_fit_the_input_reports_no_match() {
    let data = vec![0u8; 32];
    for (left, right, limit) in [(0usize, 16usize, 17usize), (24, 0, 9), (33, 0, 1)] {
        assert_eq!(measure(&data, left, right, limit), 0);
        assert_eq!(measure_fallback(&data, left, right, limit), 0);
    }
}

/// The stride the caller reasons with has to be the one the scan takes.
///
/// `find_match_length` decides "did every step match?" by comparing the
/// scan's result against the window rounded down to a whole number of
/// strides. A stride wider than the scan's own step would round the window
/// up past what the scan can report and truncate a match that ran to the
/// limit, so the two must agree for every backend.
#[test]
fn the_reported_stride_is_the_one_the_vector_scan_takes() {
    fn check(backend: Backend) {
        let stride = native_vector_stride(backend);
        assert!(matches!(stride, 1 | 16 | 32 | 64), "stride {stride}");
        let data = vec![0xCDu8; 4 * stride];
        let left = vec![0xCDu8; 4 * stride];
        assert_eq!(
            match_len_native_vectors(backend, &left, &data),
            4 * stride,
            "a fully matching window has to report every stride"
        );
        // One byte short of two strides: a scan stepping by `stride` sees
        // one whole step, and the caller's guard has to agree.
        let window = 2 * stride - 1;
        assert_eq!(
            match_len_native_vectors(backend, &left[..window], &data[..window]),
            window - window % stride
        );
    }
    check(native());
    check(Backend::scalar());
}

#[test]
fn overlapping_ranges_extend_like_the_reference() {
    let data = vec![0xABu8; 64];
    assert_eq!(measure(&data, 0, 1, 63), 63);
    assert_eq!(measure_fallback(&data, 0, 1, 63), 63);
}

/// Builds a window the way `ComputeRbBits` would for `lgwin` and `lgblock`.
fn ring(lgwin: usize, lgblock: usize) -> RingBuffer {
    RingBuffer::new(1 + lgwin.max(lgblock), lgblock)
}

#[test]
fn a_short_first_write_only_allocates_what_it_holds() {
    let mut rb = ring(16, 16);
    assert!(!rb.is_allocated());
    rb.write(b"hello");
    assert!(rb.is_allocated());
    assert_eq!(&rb.buffer()[..5], b"hello");
    // The margin is zeroed so eight-byte loads are defined.
    assert_eq!(&rb.buffer()[5..12], &[0u8; 7]);
}

#[test]
fn a_long_first_write_allocates_the_whole_window_and_the_tail() {
    let mut rb = ring(16, 16);
    let payload = vec![7u8; 1 << 16];
    rb.write(&payload);
    assert_eq!(rb.cur_size, rb.total_size);
    assert_eq!(rb.buffer()[0], 7);
    // The tail mirrors the beginning of the window.
    assert_eq!(rb.buffer()[rb.size], 7);
}

#[test]
fn the_tail_sentinel_survives_until_a_lap_writes_over_it() {
    let mut rb = ring(16, 16);
    // A write that starts past the tail leaves the sentinel in place.
    let mut payload = vec![1u8; 1 << 16];
    payload.truncate(1 << 16);
    rb.write(&vec![2u8; 1 << 16]);
    assert_eq!(rb.buffer()[rb.size], 2);
}

#[test]
fn writes_wrap_around_and_mirror_into_the_tail() {
    let mut rb = ring(10, 16);
    let window = rb.size;
    rb.write(&vec![1u8; window - 4]);
    rb.write(&[9, 9, 9, 9, 8, 8, 8, 8]);
    assert_eq!(&rb.buffer()[window - 4..window], &[9, 9, 9, 9]);
    assert_eq!(&rb.buffer()[..4], &[8, 8, 8, 8]);
    assert_eq!(&rb.buffer()[window..window + 4], &[8, 8, 8, 8]);
}

#[test]
fn the_head_bytes_mirror_the_end_of_the_window() {
    let mut rb = ring(10, 16);
    let window = rb.size;
    rb.write(&vec![5u8; window]);
    assert_eq!(rb.data[0], 5);
    assert_eq!(rb.data[1], 5);
    assert_eq!(rb.buffer()[window - 1], 5);
}

#[test]
fn clearing_the_margin_only_touches_the_first_lap() {
    let mut rb = ring(10, 16);
    rb.write(&[3u8; 8]);
    rb.clear_margin();
    assert_eq!(&rb.buffer()[8..15], &[0u8; 7]);
}

#[test]
fn position_wrapping_keeps_the_lap_parity() {
    assert_eq!(wrap_position(0), 0);
    assert_eq!(wrap_position(1234), 1234);
    assert_eq!(wrap_position((1u64 << 30) - 1), (1 << 30) - 1);
    assert_eq!(wrap_position(3u64 << 30), 1 << 30);
    assert_eq!(wrap_position(4u64 << 30), 2 << 30);
    assert_eq!(wrap_position(5u64 << 30), 1 << 30);
    assert_eq!(wrap_position((3u64 << 30) + 17), (1 << 30) + 17);
}

#[test]
fn room_is_what_its_items_take() {
    assert_eq!(room_for(0, 8), 0);
    assert_eq!(room_for(7, 0), 0);
    assert_eq!(room_for(7, 8), 56);
    assert_eq!(room_for(usize::MAX, 1), usize::MAX);
    assert_eq!(room_for(usize::MAX / 2 + 1, 2), usize::MAX);
    assert_eq!(total(3, 4), 7);
    assert_eq!(total(usize::MAX, 1), usize::MAX);
    let items: Vec<u32> = Vec::with_capacity(5);
    assert_eq!(held_by(&items, 4), items.capacity() * 4);
}
