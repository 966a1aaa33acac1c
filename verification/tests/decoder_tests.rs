//! Tests of the page decoder: the number-array extraction, its error
//! cases, and a full decode of a small synthetic page.

use nonogram_solver::puzzle_crawler::{
    extract_d_array, parse_puzzle, CrawlError, Group, PuzzleKind,
};

#[test]
fn extracts_quadruples_from_a_page() {
    let html = "<script>var d=[1,2,3,4, 5,-6,7,8];</script>";
    let data = extract_d_array(html).expect("array should parse");
    assert_eq!(data, vec![[1, 2, 3, 4], [5, -6, 7, 8]]);
}

#[test]
fn missing_marker_is_reported() {
    let err = extract_d_array("<html>no array here</html>").expect_err("no marker");
    assert!(matches!(err, CrawlError::MissingData("var d array")));
}

#[test]
fn missing_end_is_reported() {
    let err = extract_d_array("var d=[1,2,3,4").expect_err("no terminator");
    assert!(matches!(err, CrawlError::MissingData("d array end")));
}

#[test]
fn uneven_number_count_is_reported() {
    let err = extract_d_array("var d=[1,2,3];").expect_err("not quadruples");
    assert!(matches!(err, CrawlError::InvalidData("d array length")));
}

#[test]
fn oversized_number_is_reported() {
    let err = extract_d_array("var d=[99999999999999999999,1,2,3];").expect_err("too large");
    assert!(matches!(err, CrawlError::InvalidData("number out of range")));
}

#[test]
fn short_array_is_reported() {
    let err = parse_puzzle(PuzzleKind::Color, "var d=[1,2,3,4];").expect_err("too short");
    assert!(matches!(err, CrawlError::InvalidData("d array too short")));
}

/// A small synthetic page: a 2x2 color puzzle whose embedded grid has one
/// cell of color 1 at the top left and one at the bottom right.
fn synthetic_page() -> String {
    // d[0]: unused header
    // d[1]: columns = 2 % 100      d[2]: rows = 2 % 100
    // d[3]: colors = 1 % 100       d[4]: base offsets, all zero
    // d[5]: color entry (red)      d[6]: run count = 0*0 + 2*1 + 0 = 2
    // d[7]: run offsets, all zero  d[8], d[9]: the two runs
    let quads: Vec<[i64; 4]> = vec![
        [0, 0, 0, 0],
        [2, 0, 0, 100],
        [2, 0, 0, 100],
        [1, 0, 0, 100],
        [0, 0, 0, 0],
        [255, 0, 0, 0],
        [0, 1, 0, 100],
        [0, 0, 0, 0],
        [1, 1, 1, 1],
        [2, 1, 1, 2],
    ];
    let nums: Vec<String> = quads
        .iter()
        .flat_map(|q| q.iter())
        .map(|n| n.to_string())
        .collect();
    format!("<script>var d=[{}];</script>", nums.join(","))
}

#[test]
fn decodes_a_color_puzzle_page() {
    let page = synthetic_page();
    let data = parse_puzzle(PuzzleKind::Color, &page).expect("page should decode");
    assert_eq!(data.color_panel, vec!["#ffffff".to_string(), "#ff0000".to_string()]);
    let one = Group { len: 1, color_id: 1 };
    assert_eq!(data.row_groups, vec![vec![one.clone()], vec![one.clone()]]);
    assert_eq!(data.col_groups, vec![vec![one.clone()], vec![one.clone()]]);
}

#[test]
fn decodes_a_black_white_puzzle_page() {
    let page = synthetic_page();
    let data = parse_puzzle(PuzzleKind::BlackWhite, &page).expect("page should decode");
    assert_eq!(
        data.color_panel,
        vec!["#ffffff".to_string(), "#000000".to_string()]
    );
}

#[test]
fn negative_dimensions_are_reported() {
    let quads: Vec<[i64; 4]> = vec![
        [0, 0, 0, 0],
        [0, 0, 0, 100],
        [2, 0, 0, 100],
        [1, 0, 0, 100],
        [0, 0, 0, 0],
        [255, 0, 0, 0],
    ];
    let nums: Vec<String> = quads
        .iter()
        .flat_map(|q| q.iter())
        .map(|n| n.to_string())
        .collect();
    let page = format!("var d=[{}];", nums.join(","));
    let err = parse_puzzle(PuzzleKind::Color, &page).expect_err("zero columns");
    assert!(matches!(err, CrawlError::InvalidData("decoded dimensions")));
}
