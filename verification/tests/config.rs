use mbrotli::config::{
    BlockBits, CompressMode, CompressParams, DistanceCodes, ParseBlockBitsError,
    ParseDistanceCodesError, ParseQualityLevelError, ParseWindowBitsError, QualityLevel, WindowBits,
};

#[test]
fn parameters_carry_every_setting() {
    let params = CompressParams::new(QualityLevel::Q4, WindowBits::default())
        .with_block_bits(Some(BlockBits::max()))
        .with_mode(CompressMode::Font)
        .with_size_hint(Some(4 << 20))
        .with_distance_codes(DistanceCodes::try_from((1, 12)).expect("valid codes"))
        .with_literal_context_modeling(false);
    assert_eq!(params.quality(), QualityLevel::Q4);
    assert_eq!(params.lgwin(), WindowBits::default());
    assert_eq!(params.lgblock(), Some(BlockBits::max()));
    assert_eq!(params.mode(), CompressMode::Font);
    assert_eq!(params.size_hint(), Some(4 << 20));
    assert_eq!(params.distance_codes().postfix_bits(), 1);
    assert_eq!(params.distance_codes().direct_codes(), 12);
    assert!(!params.literal_context_modeling());
}

#[test]
fn qualities_are_numbered_in_order() {
    for number in 0..=11usize {
        let quality = QualityLevel::try_from(number).expect("a quality");
        assert_eq!(usize::from(quality), number);
    }
    assert!(QualityLevel::Q1 < QualityLevel::Q5);
    assert!(matches!(
        QualityLevel::try_from(12),
        Err(ParseQualityLevelError::UpperBound)
    ));
}

#[test]
fn windows_stay_in_the_range_of_their_header() {
    assert_eq!(WindowBits::standard(9), Err(ParseWindowBitsError::LowerBound));
    assert_eq!(WindowBits::standard(25), Err(ParseWindowBitsError::UpperBound));
    assert_eq!(WindowBits::large(9), Err(ParseWindowBitsError::LowerBound));
    assert_eq!(WindowBits::large(63), Err(ParseWindowBitsError::LargeUpperBound));
    let wide = WindowBits::large(30).expect("a large window");
    assert!(wide.is_large());
    assert_eq!(wide.bits(), 30);
    assert_eq!(usize::from(WindowBits::default()), 22);
    assert!(!WindowBits::default().is_large());
}

#[test]
fn blocks_stay_in_their_range() {
    assert!(matches!(
        BlockBits::try_from(15),
        Err(ParseBlockBitsError::LowerBound)
    ));
    assert!(matches!(
        BlockBits::try_from(25),
        Err(ParseBlockBitsError::UpperBound)
    ));
    assert_eq!(usize::from(BlockBits::try_from(16).expect("a block")), 16);
    assert_eq!(BlockBits::min(), BlockBits::try_from(16).expect("a block"));
}

#[test]
fn distance_codes_are_checked() {
    assert!(matches!(
        DistanceCodes::try_from((4, 0)),
        Err(ParseDistanceCodesError::PostfixBits)
    ));
    assert!(matches!(
        DistanceCodes::try_from((0, 121)),
        Err(ParseDistanceCodesError::DirectCodes)
    ));
    assert!(matches!(
        DistanceCodes::try_from((2, 6)),
        Err(ParseDistanceCodesError::Misaligned)
    ));
    assert_eq!(DistanceCodes::default().postfix_bits(), 0);
}
