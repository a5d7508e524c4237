use hnsw_index::vector::Vector;

/// Lattice units per unit of length.
const SCALE: f64 = 16.0;

/// The lattice coordinates of the given point.
fn coords(values: &[f64]) -> Vec<i32> {
    values.iter().map(|c| (c * SCALE).round() as i32).collect()
}

/// A squared lattice distance in units of length.
fn in_units(squared: u128) -> f64 {
    squared as f64 / (SCALE * SCALE)
}

#[test]
fn test_new_and_data() {
    let data = coords(&[1.0, 2.5, 3.0]);
    let vector = Vector::new(data.clone());
    assert_eq!(vector.data(), &data, "The data getter should return the original vector data.");
}

#[test]
fn test_squared_distance_correctness() {
    let vec1 = Vector::new(coords(&[1.0, 2.0, 3.0]));
    let vec2 = Vector::new(coords(&[4.0, 5.0, 6.0]));

    let expected_distance = 27.0;

    assert_eq!(in_units(vec1.squared_distance(&vec2)), expected_distance);
}

#[test]
fn test_squared_distance_to_self_is_zero() {
    let vec1 = Vector::new(coords(&[10.5, -5.0, 0.0]));
    let expected_distance = 0.0;

    assert_eq!(
        in_units(vec1.squared_distance(&vec1)),
        expected_distance,
        "The distance to itself should be zero."
    );
}

#[test]
fn test_squared_distance_with_empty_vectors() {
    let vec1 = Vector::new(coords(&[]));
    let vec2 = Vector::new(coords(&[]));

    let expected_distance = 0.0;
    assert_eq!(
        in_units(vec1.squared_distance(&vec2)),
        expected_distance,
        "The distance between two empty vectors should be zero."
    );
}

#[test]
fn squared_distance_in_lattice_units() {
    let a = Vector::new(vec![1, 2, 3]);
    let b = Vector::new(vec![4, 5, 6]);
    assert_eq!(a.squared_distance(&b), 27);
    assert_eq!(Vector::new(vec![-3]).squared_distance(&Vector::new(vec![4])), 49);
}

#[test]
fn squared_distance_is_symmetric() {
    let a = Vector::new(vec![7, -2, 40, 0]);
    let b = Vector::new(vec![-1, 9, 3, 12]);
    assert_eq!(a.squared_distance(&b), b.squared_distance(&a));
    assert_eq!(a.squared_distance(&b), 64 + 121 + 1369 + 144);
    assert_eq!(a.squared_distance(&a), 0);
    assert_eq!(b.squared_distance(&b), 0);
}

#[test]
fn squared_distance_at_the_ends_of_the_range() {
    let low = Vector::new(vec![i32::MIN, i32::MIN]);
    let high = Vector::new(vec![i32::MAX, i32::MAX]);
    let gap: u128 = 4294967295;
    assert_eq!(low.squared_distance(&high), 2 * gap * gap);
    assert_eq!(high.squared_distance(&low), 2 * gap * gap);
    assert_eq!(gap * gap, hnsw_index::vector::MAX_SQUARED_GAP);
}

#[test]
fn equality_is_by_coordinates() {
    let a = Vector::new(vec![1, 2, 3]);
    assert_eq!(a, Vector::new(vec![1, 2, 3]));
    assert_ne!(a, Vector::new(vec![1, 2, 4]));
    assert_ne!(a, Vector::new(vec![1, 2]));
    assert_ne!(a, Vector::new(vec![1, 2, 3, 0]));
    assert_eq!(Vector::new(vec![]), Vector::new(vec![]));
}

#[test]
fn clone_keeps_the_coordinates() {
    let a = Vector::new(vec![5, -6, 7]);
    let b = a.clone();
    assert_eq!(a, b);
    assert_eq!(b.data(), &vec![5, -6, 7]);
    assert_eq!(b.len(), 3);
}

#[test]
fn distance_between_vectors_of_unequal_length_is_refused() {
    let vec1 = Vector::new(coords(&[1.0, 2.0]));
    let vec2 = Vector::new(coords(&[1.0, 2.0, 3.0]));

    assert_eq!(vec1.checked_squared_distance(&vec2), None);
    assert_eq!(vec2.checked_squared_distance(&vec1), None);
    assert_eq!(Vector::new(vec![]).checked_squared_distance(&vec1), None);
    assert_eq!(vec1.checked_squared_distance(&vec1), Some(0));
    assert_eq!(
        Vector::new(vec![1, 2, 3]).checked_squared_distance(&Vector::new(vec![4, 5, 6])),
        Some(27)
    );
}
