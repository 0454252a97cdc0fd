use saql_editor::catalog::ColumnMeta;
use saql_editor::results::{batches_to_resp, total_rows, Batch, BatchRows, MAX_DISPLAY_ROWS};

fn cols(names: &[&str]) -> Vec<ColumnMeta> {
    names
        .iter()
        .map(|n| ColumnMeta { name: n.to_string(), ty: "Utf8".to_string() })
        .collect()
}

fn formatted(start: usize, count: usize) -> Batch {
    Batch {
        columns: cols(&["n"]),
        rows: BatchRows::Formatted((start..start + count).map(|i| vec![i.to_string()]).collect()),
    }
}

fn failing(count: usize, why: &str) -> Batch {
    Batch {
        columns: cols(&["n"]),
        rows: BatchRows::Unformattable { num_rows: count, error: why.to_string() },
    }
}

#[test]
fn no_batches_give_an_empty_result() {
    let r = batches_to_resp(Vec::new()).unwrap();
    assert!(r.columns.is_empty());
    assert!(r.rows.is_empty());
    assert_eq!(r.num_rows, 0);
    assert!(!r.truncated);
}

#[test]
fn small_results_are_shown_whole() {
    let b = Batch {
        columns: cols(&["id", "name"]),
        rows: BatchRows::Formatted(vec![
            vec!["1".to_string(), "Ann".to_string()],
            vec!["2".to_string(), "Bo".to_string()],
        ]),
    };
    let r = batches_to_resp(vec![b, formatted(3, 1)]).unwrap();
    assert_eq!(r.columns.len(), 2);
    assert_eq!(r.columns[1].name, "name");
    assert_eq!(r.rows, vec![vec!["1".to_string(), "Ann".to_string()], vec!["2".to_string(), "Bo".to_string()], vec!["3".to_string()]]);
    assert_eq!(r.num_rows, 3);
    assert!(!r.truncated);
}

#[test]
fn large_results_are_cut_at_the_cap() {
    let r = batches_to_resp(vec![formatted(0, 3000), formatted(3000, 3000), formatted(6000, 10)]).unwrap();
    assert_eq!(MAX_DISPLAY_ROWS, 5000);
    assert_eq!(r.rows.len(), 5000);
    assert_eq!(r.rows[0], vec!["0".to_string()]);
    assert_eq!(r.rows[4999], vec!["4999".to_string()]);
    assert_eq!(r.num_rows, 6010);
    assert!(r.truncated);
}

#[test]
fn exactly_the_cap_is_not_truncated() {
    let r = batches_to_resp(vec![formatted(0, 5000)]).unwrap();
    assert_eq!(r.rows.len(), 5000);
    assert!(!r.truncated);
}

#[test]
fn an_unformattable_batch_that_is_reached_is_an_error() {
    let r = batches_to_resp(vec![formatted(0, 10), failing(5, "bad cell")]);
    assert_eq!(r.err(), Some("bad cell".to_string()));
}

#[test]
fn an_unformattable_batch_right_after_a_full_page_is_still_reached() {
    let r = batches_to_resp(vec![formatted(0, 5000), failing(5, "late")]);
    assert_eq!(r.err(), Some("late".to_string()));
}

#[test]
fn an_unformattable_batch_beyond_the_cut_is_ignored() {
    let r = batches_to_resp(vec![formatted(0, 5001), failing(7, "never seen")]).unwrap();
    assert_eq!(r.rows.len(), 5000);
    assert_eq!(r.num_rows, 5008);
    assert!(r.truncated);
}

#[test]
fn columns_come_from_the_first_batch() {
    let first = Batch { columns: cols(&["a"]), rows: BatchRows::Formatted(Vec::new()) };
    let second = Batch { columns: cols(&["b", "c"]), rows: BatchRows::Formatted(vec![vec!["x".to_string(), "y".to_string()]]) };
    let r = batches_to_resp(vec![first, second]).unwrap();
    assert_eq!(r.columns.len(), 1);
    assert_eq!(r.columns[0].name, "a");
    assert_eq!(r.rows.len(), 1);
}

#[test]
fn total_rows_adds_counts() {
    assert_eq!(total_rows(&[]), Some(0));
    assert_eq!(total_rows(&[3, 4, 5]), Some(12));
    assert_eq!(total_rows(&[usize::MAX, 0]), Some(usize::MAX));
    assert_eq!(total_rows(&[usize::MAX, 1]), None);
}
