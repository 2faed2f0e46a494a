use mbrotli::backend::{equal_lanes, plain_lanes, Backend, BackendKind};
use mbrotli::shared::match_len::native_vector_stride;

#[test]
fn every_backend_compares_lanes_alike() {
    let backends = Backend::available();
    assert!(backends[0].is_scalar());
    for backend in backends {
        let lanes = native_vector_stride(backend);
        let left: Vec<u8> = (0..lanes).map(|i| (i * 7 % 5) as u8).collect();
        let right: Vec<u8> = (0..lanes).map(|i| (i * 3 % 5) as u8).collect();
        let expected = (0..lanes).fold(0u64, |mask, i| {
            mask | (u64::from(left[i] == right[i]) << i)
        });
        assert_ne!(expected, 0);
        assert_eq!(equal_lanes(backend, &left, &right), expected, "{backend:?}");
        assert_eq!(plain_lanes(&left, &right), expected);
        let whole = equal_lanes(backend, &left, &left);
        assert_eq!(whole.count_ones() as usize, lanes);
    }
}

#[test]
fn backends_are_named_and_distinct() {
    assert_eq!(Backend::scalar().name(), "fallback");
    assert_eq!(Backend::scalar().kind(), BackendKind::Scalar);
    let names: Vec<&str> = Backend::available().into_iter().map(Backend::name).collect();
    for (i, name) in names.iter().enumerate() {
        assert!(!names[..i].contains(name));
    }
    let best = Backend::default();
    assert!(best.kind() == BackendKind::Native || names.contains(&best.name()));
}
