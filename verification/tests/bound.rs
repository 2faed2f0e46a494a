use mbrotli::bound::bound;
use mbrotli::config::{
    BrotliCompressError, CompressParams, ParseWindowBitsError, QualityLevel, WindowBits,
};

fn params(lgwin: u8) -> Result<CompressParams, ParseWindowBitsError> {
    Ok(CompressParams::new(
        QualityLevel::Q0,
        WindowBits::standard(lgwin)?,
    ))
}

#[test]
fn empty_input_still_reserves_one_fragment() -> Result<(), ParseWindowBitsError> {
    assert!(matches!(bound(&params(22)?, 0), Ok(513)));
    Ok(())
}

#[test]
fn bound_grows_with_the_number_of_fragments() -> Result<(), ParseWindowBitsError> {
    let small_window = bound(&params(10)?, 1 << 20).ok();
    let large_window = bound(&params(22)?, 1 << 20).ok();
    assert!(small_window > large_window);
    Ok(())
}

#[test]
fn bound_covers_at_least_the_input() -> Result<(), ParseWindowBitsError> {
    let params = params(22)?;
    for size in [0usize, 1, 1024, 1 << 20] {
        assert!(bound(&params, size).is_ok_and(|value| value >= size));
    }
    Ok(())
}

#[test]
fn bound_reports_an_overflow_instead_of_wrapping() -> Result<(), ParseWindowBitsError> {
    assert!(matches!(
        bound(&params(22)?, usize::MAX),
        Err(BrotliCompressError::BoundOverflow)
    ));
    assert!(matches!(
        bound(&params(10)?, usize::MAX / 2),
        Err(BrotliCompressError::BoundOverflow)
    ));
    Ok(())
}
