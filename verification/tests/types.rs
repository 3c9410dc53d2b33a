use tesseract::types::{DistanceMetric, Timestamp, VectorId};

#[test]
fn vector_id_equality() {
    assert_eq!(VectorId(42), VectorId(42));
    assert_ne!(VectorId(42), VectorId(7));
}

#[test]
fn timestamp_equality() {
    assert_eq!(Timestamp(1_700_000_000_000), Timestamp(1_700_000_000_000));
    assert_ne!(Timestamp(1_700_000_000_000), Timestamp(0));
}

#[test]
fn distance_metric_debug_and_eq() {
    assert_eq!(DistanceMetric::Cosine as usize, 0);
    assert_eq!(DistanceMetric::Euclidean as usize, 1);
    assert_ne!(DistanceMetric::Cosine, DistanceMetric::Euclidean);
}

#[test]
fn distance_metric_debug_names() {
    assert_eq!(format!("{:?}", DistanceMetric::Cosine), "Cosine");
    assert_eq!(format!("{:?}", DistanceMetric::Euclidean), "Euclidean");
}
