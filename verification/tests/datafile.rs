use ant_sort::dataset::Dataset;
use ant_sort::dataset::DatasetAssetLoader;
use ant_sort::dataset::DatasetError;

#[test]
fn parses_points_into_groups_in_first_appearance_order() {
    let text = b"1.5 2.25 a\n# a comment line\n\n0.5 -3 b\n1 2 a\n";
    let d = Dataset::from_buffer(text).unwrap();
    assert_eq!(d.groups.len(), 2);
    assert_eq!(d.groups[0].label, b"a".to_vec());
    assert_eq!(d.groups[0].points.len(), 2);
    assert_eq!(d.groups[0].points[0].x, 1500);
    assert_eq!(d.groups[0].points[0].y, 2250);
    assert_eq!(d.groups[0].points[1].x, 1000);
    assert_eq!(d.groups[0].points[1].y, 2000);
    assert_eq!(d.groups[1].label, b"b".to_vec());
    assert_eq!(d.groups[1].points.len(), 1);
    assert_eq!(d.groups[1].points[0].x, 500);
    assert_eq!(d.groups[1].points[0].y, -3000);
}

#[test]
fn commas_are_decimal_separators() {
    let d = Dataset::from_buffer(b"1,5 2,25 g\n").unwrap();
    assert_eq!(d.groups[0].points[0].x, 1500);
    assert_eq!(d.groups[0].points[0].y, 2250);
}

#[test]
fn fractional_digits_past_the_third_are_truncated() {
    let d = Dataset::from_buffer(b"0.12345 -0.9999 g\n").unwrap();
    assert_eq!(d.groups[0].points[0].x, 123);
    assert_eq!(d.groups[0].points[0].y, -999);
}

#[test]
fn bare_and_dangling_decimal_forms() {
    let d = Dataset::from_buffer(b"5. .5 g\n+7 -0 h\n").unwrap();
    assert_eq!(d.groups[0].points[0].x, 5000);
    assert_eq!(d.groups[0].points[0].y, 500);
    assert_eq!(d.groups[1].points[0].x, 7000);
    assert_eq!(d.groups[1].points[0].y, 0);
}

#[test]
fn missing_fields_abort_with_the_line_number() {
    let r = Dataset::from_buffer(b"# header\n1 2 a\n3 4\n5 6 b\n");
    assert!(matches!(r, Err(DatasetError::MissingArgument { line: 3 })));
}

#[test]
fn extra_fields_abort_with_the_line_number() {
    let r = Dataset::from_buffer(b"1 2 a extra\n");
    assert!(matches!(r, Err(DatasetError::TooManyArguments { line: 1 })));
}

#[test]
fn unreadable_numbers_abort_with_the_line_number() {
    let r = Dataset::from_buffer(b"1 2 a\nx 2 a\n");
    assert!(matches!(r, Err(DatasetError::InvalidNumber { line: 2 })));
    // a lone sign has no digits
    let r2 = Dataset::from_buffer(b"- 2 a\n");
    assert!(matches!(r2, Err(DatasetError::InvalidNumber { line: 1 })));
    // two separators
    let r3 = Dataset::from_buffer(b"1.2.3 2 a\n");
    assert!(matches!(r3, Err(DatasetError::InvalidNumber { line: 1 })));
    // magnitude beyond the supported range
    let r4 = Dataset::from_buffer(b"1000001 0 a\n");
    assert!(matches!(r4, Err(DatasetError::InvalidNumber { line: 1 })));
}

#[test]
fn boundary_magnitude_is_accepted() {
    let d = Dataset::from_buffer(b"1000000 -1000000.0 g\n").unwrap();
    assert_eq!(d.groups[0].points[0].x, 1_000_000_000);
    assert_eq!(d.groups[0].points[0].y, -1_000_000_000);
}

#[test]
fn empty_buffer_is_an_empty_dataset() {
    let d = Dataset::from_buffer(b"").unwrap();
    assert_eq!(d.groups.len(), 0);
    let d2 = Dataset::from_buffer(b"\n \n\t\n# only comments\n").unwrap();
    assert_eq!(d2.groups.len(), 0);
}

#[test]
fn no_trailing_newline_still_parses_the_last_line() {
    let d = Dataset::from_buffer(b"1 2 a").unwrap();
    assert_eq!(d.groups.len(), 1);
    assert_eq!(d.groups[0].points.len(), 1);
}

#[test]
fn feature_vectors_flatten_groups_in_order() {
    let d = Dataset::from_buffer(b"1 2 a\n3 4 b\n5 6 a\n").unwrap();
    let fv = d.feature_vectors();
    assert_eq!(fv.len(), 3);
    // group a first (points 1,2 and 5,6), then group b
    assert_eq!(fv[0].unwrap().x, 1000);
    assert_eq!(fv[1].unwrap().x, 5000);
    assert_eq!(fv[2].unwrap().x, 3000);
}

#[test]
fn loader_accepts_text_sources() {
    let loader = DatasetAssetLoader;
    assert_eq!(loader.extensions(), "txt");
    let d = loader.load(b"1 2 a\n").unwrap();
    assert_eq!(d.groups.len(), 1);
}
