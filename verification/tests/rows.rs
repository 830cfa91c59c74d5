use kmeans::rows;
use kmeans::rows::DELIMITER;

/// The two selected fields of a row as numbers, where both are numbers.
fn numbers(row: &str, n: usize, index_x: usize, index_y: usize) -> Option<(f32, f32)> {
    let (x, y) = rows::row_to_point(row.as_bytes(), n, index_x, index_y)?;
    let x: f32 = std::str::from_utf8(x).ok()?.parse().ok()?;
    let y: f32 = std::str::from_utf8(y).ok()?.parse().ok()?;
    Some((x, y))
}

#[test]
fn row_to_point() {
    assert_eq!(numbers("0,1", 2, 0, 1), Some((0.0, 1.0)));
    assert_eq!(numbers("0,1,2,3", 4, 1, 3), Some((1.0, 3.0)));
    assert_eq!(numbers("0,1,2,3", 5, 1, 3), None);
    assert_eq!(numbers("0,1,2,3", 5, 1, 3), None);
    assert_eq!(numbers("0,1,2,3", 4, 0, 0), None);
    assert_eq!(numbers("0,1,2,3", 4, 1, 4), None);
}

#[test]
fn delimiter_is_a_comma() {
    assert_eq!(DELIMITER, b',');
}

#[test]
fn row_to_point_gives_the_text_of_both_fields() {
    assert_eq!(
        rows::row_to_point(b"alpha,-1.5,,2e3", 4, 3, 1),
        Some((&b"2e3"[..], &b"-1.5"[..]))
    );
    assert_eq!(rows::row_to_point(b"alpha,-1.5,,2e3", 4, 2, 0), Some((&b""[..], &b"alpha"[..])));
}

#[test]
fn row_to_point_counts_empty_fields() {
    assert_eq!(rows::row_to_point(b"", 1, 0, 0), None);
    assert_eq!(rows::row_to_point(b",", 2, 0, 1), Some((&b""[..], &b""[..])));
    assert_eq!(rows::row_to_point(b",,", 3, 2, 0), Some((&b""[..], &b""[..])));
    assert_eq!(rows::row_to_point(b"1,2,", 3, 0, 1), Some((&b"1"[..], &b"2"[..])));
    assert_eq!(rows::row_to_point(b"1,2,", 2, 0, 1), None);
}

#[test]
fn row_to_point_refuses_a_wrong_number_of_fields() {
    assert_eq!(rows::row_to_point(b"1,2,3", 2, 0, 1), None);
    assert_eq!(rows::row_to_point(b"1,2,3", 4, 0, 1), None);
    assert_eq!(rows::row_to_point(b"1,2,3", 0, 0, 1), None);
    assert_eq!(rows::row_to_point(b"", 0, 0, 1), None);
}

#[test]
fn row_to_point_refuses_bad_indices() {
    assert_eq!(rows::row_to_point(b"1,2,3", 3, 1, 1), None);
    assert_eq!(rows::row_to_point(b"1,2,3", 3, 3, 0), None);
    assert_eq!(rows::row_to_point(b"1,2,3", 3, 0, 3), None);
    assert_eq!(rows::row_to_point(b"1,2,3", 3, 2, 0), Some((&b"3"[..], &b"1"[..])));
}
