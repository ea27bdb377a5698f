//! End-to-end pipeline evaluation scenarios.

use charter_csv::num::Num;
use charter_csv::value::Value;
use charter_csv::eval::process_csvqb_pipeline;

fn toks(words: &[&str]) -> Vec<String> {
    words.iter().map(|w| w.to_string()).collect()
}

fn demo_store() -> Vec<(String, Vec<Vec<String>>)> {
    let grid = vec![
        vec!["id".to_string(), "qty".to_string()],
        vec!["1".to_string(), "10".to_string()],
        vec!["2".to_string(), "5".to_string()],
        vec!["3".to_string(), "7".to_string()],
    ];
    vec![("demo.csv".to_string(), grid)]
}

fn expect_number(v: &Value, num: i64, den: u64) {
    match v {
        Value::Number(n) => {
            assert!(n.eq_rat(Num { num, den }), "expected {}/{}, got {:?}", num, den, n);
        }
        other => panic!("expected a number, got {other:?}"),
    }
}

#[test]
fn csum_sums_selected_column() {
    let files = demo_store();
    let sel = vec![0usize];
    let r = process_csvqb_pipeline(&toks(&["CSUM", "qty"]), &sel, &files);
    assert_eq!(r.len(), 1);
    expect_number(&r[0], 22, 1);
}

#[test]
fn grouped_csum_equals_ungrouped() {
    let files = demo_store();
    let sel = vec![0usize];
    let r = process_csvqb_pipeline(&toks(&["GRP", "id", "CSUM", "qty"]), &sel, &files);
    assert_eq!(r.len(), 1);
    expect_number(&r[0], 22, 1);
}

#[test]
fn cmul_multiplies_stack_number_into_sum() {
    let files = demo_store();
    let sel = vec![0usize];
    let r = process_csvqb_pipeline(&toks(&["5", "CMUL", "qty"]), &sel, &files);
    assert_eq!(r.len(), 1);
    expect_number(&r[0], 110, 1);
}

#[test]
fn mul_multiplies_two_literals() {
    let files = demo_store();
    let sel = vec![0usize];
    let r = process_csvqb_pipeline(&toks(&["10", "20", "MUL"]), &sel, &files);
    assert_eq!(r.len(), 1);
    expect_number(&r[0], 200, 1);
}

#[test]
fn greater_than_compares_left_to_right() {
    let files = demo_store();
    let sel = vec![0usize];
    let r = process_csvqb_pipeline(&toks(&["10", "20", ">"]), &sel, &files);
    assert_eq!(r.len(), 1);
    match &r[0] {
        Value::Bool(b) => assert!(!b),
        other => panic!("expected a boolean, got {other:?}"),
    }
}

#[test]
fn mul_underflow_keeps_prior_results() {
    let files = demo_store();
    let sel = vec![0usize];
    let r = process_csvqb_pipeline(&toks(&["note", "MUL", "10", "20"]), &sel, &files);
    assert_eq!(r.len(), 1);
    match &r[0] {
        Value::Field(f) => assert_eq!(f, "note"),
        other => panic!("expected a field reference, got {other:?}"),
    }
}

#[test]
fn mul_underflow_consumes_lone_operand() {
    let files = demo_store();
    let sel = vec![0usize];
    let r = process_csvqb_pipeline(&toks(&["5", "MUL"]), &sel, &files);
    assert!(r.is_empty());
}

#[test]
fn cavg_is_not_grouping_invariant() {
    let grid = vec![
        vec!["g".to_string(), "v".to_string()],
        vec!["a".to_string(), "1".to_string()],
        vec!["a".to_string(), "1".to_string()],
        vec!["b".to_string(), "4".to_string()],
    ];
    let files = vec![("avg.csv".to_string(), grid)];
    let sel = vec![0usize];
    let global = process_csvqb_pipeline(&toks(&["CAVG", "v"]), &sel, &files);
    let grouped = process_csvqb_pipeline(&toks(&["GRP", "g", "CAVG", "v"]), &sel, &files);
    assert_eq!(global.len(), 1);
    assert_eq!(grouped.len(), 1);
    expect_number(&global[0], 2, 1);
    expect_number(&grouped[0], 5, 2);
    match (&global[0], &grouped[0]) {
        (Value::Number(a), Value::Number(b)) => assert!(!a.eq_rat(*b)),
        _ => panic!("expected numbers"),
    }
}

#[test]
fn ccount_without_rows_is_header_only() {
    let grid = vec![vec!["c".to_string()]];
    let files = vec![("empty.csv".to_string(), grid)];
    let sel = vec![0usize];
    let r = process_csvqb_pipeline(&toks(&["CCOUNT", "c"]), &sel, &files);
    assert_eq!(r.len(), 1);
    match &r[0] {
        Value::QueryResult(table) => {
            assert_eq!(table.len(), 1);
            assert_eq!(table[0], vec!["c".to_string(), "count".to_string()]);
        }
        other => panic!("expected a table, got {other:?}"),
    }
}

#[test]
fn ccount_groups_distinct_values() {
    let grid = vec![
        vec!["g".to_string(), "v".to_string()],
        vec!["a".to_string(), "1".to_string()],
        vec!["a".to_string(), "2".to_string()],
        vec!["b".to_string(), "3".to_string()],
    ];
    let files = vec![("counts.csv".to_string(), grid)];
    let sel = vec![0usize];
    let r = process_csvqb_pipeline(&toks(&["GRP", "g", "CCOUNT", "v"]), &sel, &files);
    assert_eq!(r.len(), 1);
    match &r[0] {
        Value::QueryResult(table) => {
            assert_eq!(table.len(), 3);
            assert_eq!(table[0], vec!["g".to_string(), "count".to_string()]);
            assert_eq!(table[1], vec!["a".to_string(), "2".to_string()]);
            assert_eq!(table[2], vec!["b".to_string(), "1".to_string()]);
        }
        other => panic!("expected a table, got {other:?}"),
    }
}

#[test]
fn comparison_type_mismatch_emits_nothing() {
    let grid = vec![vec!["c".to_string()]];
    let files = vec![("empty.csv".to_string(), grid)];
    let sel = vec![0usize];
    let r = process_csvqb_pipeline(&toks(&["CCOUNT", "c", "5", "="]), &sel, &files);
    assert_eq!(r.len(), 1);
    assert!(matches!(&r[0], Value::QueryResult(_)));
}

#[test]
fn comparison_underflow_is_a_no_op() {
    let files = demo_store();
    let sel = vec![0usize];
    let r = process_csvqb_pipeline(&toks(&["10", ">"]), &sel, &files);
    assert_eq!(r.len(), 1);
    expect_number(&r[0], 10, 1);
}

#[test]
fn lone_operand_surfaces_from_stack() {
    let files = demo_store();
    let sel = vec![0usize];
    let r = process_csvqb_pipeline(&toks(&["7"]), &sel, &files);
    assert_eq!(r.len(), 1);
    expect_number(&r[0], 7, 1);
}

#[test]
fn empty_pipeline_yields_no_results() {
    let files = demo_store();
    let sel = vec![0usize];
    let r = process_csvqb_pipeline(&toks(&[]), &sel, &files);
    assert!(r.is_empty());
}

#[test]
fn parenthesis_surfaces_first_inner_result() {
    let files = demo_store();
    let sel = vec![0usize];
    let r = process_csvqb_pipeline(&toks(&["(", "10", ")"]), &sel, &files);
    assert_eq!(r.len(), 1);
    expect_number(&r[0], 10, 1);
}

#[test]
fn unknown_column_contributes_nothing() {
    let files = demo_store();
    let sel = vec![0usize];
    let r = process_csvqb_pipeline(&toks(&["CSUM", "missing"]), &sel, &files);
    assert_eq!(r.len(), 1);
    expect_number(&r[0], 0, 1);
}

#[test]
fn invalid_selection_index_is_skipped() {
    let files = demo_store();
    let sel = vec![5usize];
    let r = process_csvqb_pipeline(&toks(&["CSUM", "qty"]), &sel, &files);
    assert_eq!(r.len(), 1);
    expect_number(&r[0], 0, 1);
}

#[test]
fn non_numeric_cells_are_skipped() {
    let grid = vec![
        vec!["v".to_string()],
        vec!["3".to_string()],
        vec!["oops".to_string()],
        vec!["4".to_string()],
    ];
    let files = vec![("mixed.csv".to_string(), grid)];
    let sel = vec![0usize];
    let r = process_csvqb_pipeline(&toks(&["CSUM", "v"]), &sel, &files);
    assert_eq!(r.len(), 1);
    expect_number(&r[0], 7, 1);
}

#[test]
fn decimal_cells_sum_exactly() {
    let grid = vec![
        vec!["v".to_string()],
        vec!["1.5".to_string()],
        vec!["2.25".to_string()],
    ];
    let files = vec![("dec.csv".to_string(), grid)];
    let sel = vec![0usize];
    let r = process_csvqb_pipeline(&toks(&["CSUM", "v"]), &sel, &files);
    assert_eq!(r.len(), 1);
    expect_number(&r[0], 15, 4);
}

#[test]
fn cmul_multiplies_per_group_sums_when_grouped() {
    let files = demo_store();
    let sel = vec![0usize];
    let r = process_csvqb_pipeline(&toks(&["GRP", "id", "CMUL", "qty"]), &sel, &files);
    assert_eq!(r.len(), 1);
    expect_number(&r[0], 350, 1);
}

#[test]
fn cavg_with_no_keys_is_zero() {
    let grid = vec![vec!["c".to_string()]];
    let files = vec![("empty.csv".to_string(), grid)];
    let sel = vec![0usize];
    let r = process_csvqb_pipeline(&toks(&["CAVG", "c"]), &sel, &files);
    assert_eq!(r.len(), 1);
    expect_number(&r[0], 0, 1);
}

#[test]
fn capture_accumulates_across_grp_tokens() {
    let files = demo_store();
    let sel = vec![0usize];
    let r = process_csvqb_pipeline(&toks(&["GRP", "id", "GRP", "qty", "CSUM", "qty"]), &sel, &files);
    assert_eq!(r.len(), 1);
    expect_number(&r[0], 22, 1);
}
