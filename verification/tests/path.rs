use dashc::path::{parse_path, PathPoint, PathSegment};
use dashc::vector::VectorFieldError;

fn pt(x: &str, y: &str) -> PathPoint {
    PathPoint { x: x.to_string(), y: y.to_string() }
}

/// A closing edge between points written alike adds no segment.
fn drawn(contour: &[PathSegment]) -> usize {
    contour
        .iter()
        .filter(|s| !matches!(s, PathSegment::Close(a, b) if a == b))
        .count()
}

fn malformed(data: &str) -> String {
    match parse_path(data) {
        Err(VectorFieldError::MalformedPath(m)) => m,
        other => panic!("expected a malformed path, got {other:?}"),
    }
}

#[test]
fn parses_square_into_one_closed_contour() {
    let contours = parse_path("M 0 0 L 40 0 L 40 40 L 0 40 Z").expect("parses");
    assert_eq!(contours.len(), 1);
    // Four explicit lines; the trailing Z coincides with the start, so no
    // extra closing segment is added.
    assert_eq!(drawn(&contours[0]), 4);
}

#[test]
fn refuses_out_of_census_command() {
    let err = parse_path("M0 0 A 5 5 0 0 1 10 10").unwrap_err();
    assert!(matches!(err, VectorFieldError::UnsupportedCommand('A')));
}

#[test]
fn the_square_parses_to_its_lines_and_its_closing_edge() {
    let contours = parse_path("M0,0 L40,0 L40,40 L0,40Z").unwrap();
    assert_eq!(
        contours,
        vec![vec![
            PathSegment::Line(pt("0", "0"), pt("40", "0")),
            PathSegment::Line(pt("40", "0"), pt("40", "40")),
            PathSegment::Line(pt("40", "40"), pt("0", "40")),
            PathSegment::Close(pt("0", "40"), pt("0", "0")),
        ]]
    );
}

#[test]
fn implicit_points_after_a_move_are_lines_and_the_end_closes() {
    let contours = parse_path("M1e2 0 .5 -2E-1 C 1 1 2 2 3 3 4 4 5 5 6 6").unwrap();
    assert_eq!(
        contours,
        vec![vec![
            PathSegment::Line(pt("1e2", "0"), pt(".5", "-2E-1")),
            PathSegment::Cubic(pt(".5", "-2E-1"), pt("1", "1"), pt("2", "2"), pt("3", "3")),
            PathSegment::Cubic(pt("3", "3"), pt("4", "4"), pt("5", "5"), pt("6", "6")),
            PathSegment::Close(pt("6", "6"), pt("1e2", "0")),
        ]]
    );
}

#[test]
fn every_move_opens_a_new_contour() {
    let contours =
        parse_path("M 0 0 L 40 0 L 40 40 L 0 40 Z M 10 10 L 10 30 L 30 30 L 30 10 Z").unwrap();
    assert_eq!(contours.len(), 2);
    assert_eq!(contours[1][0], PathSegment::Line(pt("10", "10"), pt("10", "30")));
}

#[test]
fn a_path_that_closes_no_contour_is_degenerate() {
    for data in ["", "   ", "M 3 4", "M 0 0 Z Z"] {
        assert!(
            matches!(parse_path(data), Err(VectorFieldError::DegenerateGeometry)),
            "{data:?}"
        );
    }
}

#[test]
fn each_malformed_path_is_named() {
    assert_eq!(malformed("L 1 1"), "L before M");
    assert_eq!(malformed("Z C 1 1 2 2 3 3"), "C before M");
    assert_eq!(malformed("M - 0"), "not a number: \"-\"");
    assert_eq!(malformed("M1e 0"), "not a number: \"1e\"");
    assert_eq!(malformed("M 0 0 L 1"), "not a number: \"\"");
    assert_eq!(malformed("M0 0 L1 1 #"), "expected a command, found '#'");
}

fn ends(s: &PathSegment) -> (PathPoint, PathPoint) {
    match s {
        PathSegment::Line(a, b) | PathSegment::Close(a, b) => (a.clone(), b.clone()),
        PathSegment::Cubic(a, _, _, d) => (a.clone(), d.clone()),
    }
}

#[test]
fn every_parsed_contour_is_chained_and_closed_back_to_its_start() {
    let data = "M 0 0 L 10 0 C 12 2 12 8 10 10 Z M 20 20 L 30 20 L 30 30";
    let contours = parse_path(data).expect("parses");
    assert_eq!(contours.len(), 2);
    for contour in &contours {
        assert!(!contour.is_empty());
        for pair in contour.windows(2) {
            assert_eq!(ends(&pair[0]).1, ends(&pair[1]).0);
        }
        let last = contour.last().unwrap();
        assert!(matches!(last, PathSegment::Close(_, _)));
        assert_eq!(ends(last).1, ends(&contour[0]).0);
    }
    // The open second contour is closed by an edge back to where it began.
    assert_eq!(ends(contours[1].last().unwrap()), (pt("30", "30"), pt("20", "20")));
}
