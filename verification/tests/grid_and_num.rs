//! The grid codec, numeric parsing, pipeline text form, and the
//! aggregation primitives called directly.

use charter_csv::aggregate::{col_average, col_count, col_sum, filter_equals, filter_greater_than};
use charter_csv::grid::{csv2grid, grid2csv};
use charter_csv::num::{parse_number, u64_to_string, Num};
use charter_csv::pipeline::{join_pipeline, split_pipeline};

fn demo_store() -> Vec<(String, Vec<Vec<String>>)> {
    let grid = vec![
        vec!["id".to_string(), "qty".to_string()],
        vec!["1".to_string(), "10".to_string()],
        vec!["2".to_string(), "5".to_string()],
        vec!["3".to_string(), "7".to_string()],
    ];
    vec![("demo.csv".to_string(), grid)]
}

#[test]
fn csv2grid_splits_lines_and_cells() {
    let grid = csv2grid("a, b\n1,2\n");
    assert_eq!(
        grid,
        vec![
            vec!["a".to_string(), "b".to_string()],
            vec!["1".to_string(), "2".to_string()],
        ]
    );
}

#[test]
fn csv2grid_of_empty_text_is_empty() {
    assert!(csv2grid("").is_empty());
}

#[test]
fn csv2grid_trims_and_keeps_empty_cells() {
    let grid = csv2grid(" x ,, y \r\nu,v,");
    assert_eq!(
        grid,
        vec![
            vec!["x".to_string(), "".to_string(), "y".to_string()],
            vec!["u".to_string(), "v".to_string(), "".to_string()],
        ]
    );
}

#[test]
fn grid2csv_joins_cells_and_rows() {
    let grid = vec![
        vec!["a".to_string(), "b".to_string()],
        vec!["1".to_string(), "2".to_string()],
    ];
    assert_eq!(grid2csv(&grid), "a,b\n1,2");
}

#[test]
fn grid_round_trip() {
    let text = "a,b\n1,2\n3,4";
    let grid = csv2grid(text);
    assert_eq!(grid2csv(&grid), text);
}

#[test]
fn parse_number_reads_integers_and_decimals() {
    let n = parse_number("42").unwrap();
    assert_eq!((n.num, n.den), (42, 1));
    let n = parse_number("-3").unwrap();
    assert_eq!((n.num, n.den), (-3, 1));
    let n = parse_number("1.5").unwrap();
    assert_eq!((n.num, n.den), (15, 10));
    let n = parse_number("+0.25").unwrap();
    assert_eq!((n.num, n.den), (25, 100));
    let n = parse_number("7.").unwrap();
    assert_eq!((n.num, n.den), (7, 1));
    let n = parse_number(".5").unwrap();
    assert_eq!((n.num, n.den), (5, 10));
}

#[test]
fn parse_number_rejects_bad_tokens() {
    assert!(parse_number("").is_none());
    assert!(parse_number("-").is_none());
    assert!(parse_number("1.2.3").is_none());
    assert!(parse_number("12a").is_none());
    assert!(parse_number("99999999999999999999").is_none());
}

#[test]
fn u64_renders_in_decimal() {
    assert_eq!(u64_to_string(0), "0");
    assert_eq!(u64_to_string(907), "907");
}

#[test]
fn pipeline_text_round_trip() {
    let tokens: Vec<String> =
        ["GRP", "id", "CSUM", "qty"].iter().map(|w| w.to_string()).collect();
    let line = join_pipeline(&tokens);
    assert_eq!(line, "GRP id CSUM qty");
    assert_eq!(split_pipeline(&line), tokens);
}

#[test]
fn split_pipeline_collapses_whitespace() {
    let tokens = split_pipeline("  CSUM\t qty \n");
    assert_eq!(tokens, vec!["CSUM".to_string(), "qty".to_string()]);
}

#[test]
fn col_sum_totals_without_grouping() {
    let files = demo_store();
    let sel = vec![0usize];
    let sums = col_sum(&sel, &files, "qty", None);
    assert_eq!(sums.len(), 1);
    assert_eq!(sums[0].0, "total");
    assert!(sums[0].1.eq_rat(Num { num: 22, den: 1 }));
}

#[test]
fn col_sum_groups_by_captured_columns() {
    let files = demo_store();
    let sel = vec![0usize];
    let groups = vec!["id".to_string()];
    let sums = col_sum(&sel, &files, "qty", Some(&groups));
    assert_eq!(sums.len(), 3);
    assert_eq!(sums[0].0, "1|");
    assert!(sums[0].1.eq_rat(Num { num: 10, den: 1 }));
    assert_eq!(sums[2].0, "3|");
    assert!(sums[2].1.eq_rat(Num { num: 7, den: 1 }));
}

#[test]
fn col_average_divides_by_row_count() {
    let files = demo_store();
    let sel = vec![0usize];
    let avgs = col_average(&sel, &files, "qty", None);
    assert_eq!(avgs.len(), 1);
    assert!(avgs[0].1.eq_rat(Num { num: 22, den: 3 }));
}

#[test]
fn col_count_builds_frequency_table() {
    let grid = vec![
        vec!["v".to_string()],
        vec!["x".to_string()],
        vec!["x".to_string()],
        vec!["y".to_string()],
    ];
    let files = vec![("f.csv".to_string(), grid)];
    let sel = vec![0usize];
    let table = col_count(&sel, &files, "v", None);
    assert_eq!(
        table,
        vec![
            vec!["v".to_string(), "count".to_string()],
            vec!["x".to_string(), "2".to_string()],
            vec!["y".to_string(), "1".to_string()],
        ]
    );
}

#[test]
fn filter_equals_keeps_matching_rows() {
    let files = demo_store();
    let sel = vec![0usize];
    let rows = filter_equals(&sel, &files, "id", "2");
    assert_eq!(
        rows,
        vec![
            vec!["id".to_string(), "qty".to_string()],
            vec!["2".to_string(), "5".to_string()],
        ]
    );
}

#[test]
fn filter_greater_than_compares_numerically() {
    let files = demo_store();
    let sel = vec![0usize];
    let rows = filter_greater_than(&sel, &files, "qty", Num { num: 6, den: 1 });
    assert_eq!(rows.len(), 3);
    assert_eq!(rows[1], vec!["1".to_string(), "10".to_string()]);
    assert_eq!(rows[2], vec!["3".to_string(), "7".to_string()]);
}
