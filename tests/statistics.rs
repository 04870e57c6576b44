use sql_permutation::algo::Idx;
use sql_permutation::statistics::{batch_lines, BatchLine, Marker, Statistics, Summary};

fn run_batch(st: &mut Statistics, b: &Vec<Idx>, times: &[u128]) {
    st.begin_batch(b.clone());
    let mut k = 0;
    while let Some(_) = st.next_sql() {
        st.record_sql(times[k]);
        k += 1;
    }
    st.end_batch();
}

#[test]
fn clean_run_counts_batches_and_statements() {
    let batches = vec![
        vec![(0, 0), (0, 1), (1, 0)],
        vec![(0, 0), (1, 0), (0, 1)],
        vec![(1, 0), (0, 0), (0, 1)],
    ];
    let mut st = Statistics::new();
    run_batch(&mut st, &batches[0], &[5, 1, 2]);
    run_batch(&mut st, &batches[1], &[3, 3, 3]);
    run_batch(&mut st, &batches[2], &[1, 1, 1]);
    st.finish();
    assert_eq!(st.batch_amount(), 3);
    assert_eq!(st.sql_amount(), 9);
    assert_eq!(st.sql_amount(), st.batch_amount() * 3);
    assert_eq!(st.time(), 5 + 1 + 2 + 3 + 3 + 3 + 1 + 1 + 1);
    assert_eq!(st.slowest_sql_time(), 5);
    assert_eq!(st.slowest_batch_time(), 9);
    assert!(st.slowest_sql_time() <= st.slowest_batch_time());
    assert_eq!(st.last_batch(), Some(batches[2].clone()));
    assert_eq!(st.cur_batch(), None);
    assert_eq!(st.cur_batch_idx(), 0);
    match st.summary(false) {
        Summary::Totals {
            time,
            batch_amount,
            sql_amount,
            avg_per_batch,
            avg_per_sql,
            slowest_sql,
            slowest_batch,
        } => {
            assert_eq!(time, 20);
            assert_eq!(batch_amount, 3);
            assert_eq!(sql_amount, 9);
            assert_eq!(avg_per_batch, 6);
            assert_eq!(avg_per_sql, 2);
            assert_eq!(slowest_sql, Some(((0, 0), 5)));
            let (lines, t) = slowest_batch.unwrap();
            assert_eq!(t, 9);
            assert_eq!(lines.len(), 3);
            assert_eq!(lines[0], BatchLine { marker: Marker::Plain, file: 0, row: 0 });
            assert_eq!(lines[1], BatchLine { marker: Marker::Plain, file: 1, row: 0 });
        }
        _ => panic!("expected totals"),
    }
}

#[test]
fn error_on_second_statement_locates_it() {
    let first = vec![(0, 0), (0, 1), (1, 0)];
    let second = vec![(0, 0), (1, 0), (0, 1)];
    let mut st = Statistics::new();
    run_batch(&mut st, &first, &[1, 1, 1]);
    st.begin_batch(second.clone());
    assert_eq!(st.next_sql(), Some((0, 0)));
    st.record_sql(4);
    assert_eq!(st.next_sql(), Some((1, 0)));
    st.fail(String::from("syntax error"));
    assert!(st.has_error());
    assert_eq!(st.cur_batch_idx(), 2);
    assert_eq!(st.cur_batch(), Some(second.clone()));
    match st.summary(true) {
        Summary::Failed { error, batch } => {
            assert_eq!(error, "syntax error");
            let lines = batch.unwrap();
            assert_eq!(lines[0].marker, Marker::Pad);
            assert_eq!(lines[1].marker, Marker::Arrow);
            assert_eq!(lines[2].marker, Marker::Pad);
            assert_eq!((lines[1].file, lines[1].row), (1, 0));
        }
        _ => panic!("expected a failure"),
    }
}

#[test]
fn error_before_any_batch_has_no_batch() {
    let mut st = Statistics::new();
    st.fail(String::from("init failed"));
    match st.summary(false) {
        Summary::Failed { error, batch } => {
            assert_eq!(error, "init failed");
            assert!(batch.is_none());
        }
        _ => panic!("expected a failure"),
    }
}

#[test]
fn aborted_run_shows_last_completed_batch() {
    let b = vec![(1, 0), (0, 0)];
    let mut st = Statistics::new();
    run_batch(&mut st, &b, &[2, 2]);
    st.finish();
    match st.summary(true) {
        Summary::Aborted { last_batch } => {
            let lines = last_batch.unwrap();
            assert_eq!(lines.len(), 2);
            assert_eq!(lines[0], BatchLine { marker: Marker::Plain, file: 1, row: 0 });
        }
        _ => panic!("expected an aborted summary"),
    }
    let idle = Statistics::new();
    assert!(matches!(idle.summary(true), Summary::Aborted { last_batch: None }));
}

#[test]
fn clean_run_without_statements_says_so() {
    let st = Statistics::new();
    assert!(matches!(st.summary(false), Summary::NoSql));
}

#[test]
fn next_sql_is_none_after_the_batch() {
    let mut st = Statistics::new();
    st.begin_batch(vec![(0, 0)]);
    assert_eq!(st.next_sql(), Some((0, 0)));
    assert_eq!(st.next_sql(), None);
    assert_eq!(st.sql_amount(), 1);
    assert_eq!(st.cur_batch_idx(), 1);
}

#[test]
fn slower_batch_replaces_the_slowest() {
    let mut st = Statistics::new();
    run_batch(&mut st, &vec![(0, 0)], &[3]);
    run_batch(&mut st, &vec![(0, 0)], &[7]);
    run_batch(&mut st, &vec![(0, 0)], &[7]);
    assert_eq!(st.slowest_batch_time(), 7);
    assert_eq!(st.slowest_sql_time(), 7);
    assert_eq!(st.time(), 17);
}

#[test]
fn batch_lines_mark_the_failing_statement() {
    let b = vec![(0, 0), (1, 0), (0, 1)];
    let plain = batch_lines(&b, None);
    assert!(plain.iter().all(|l| l.marker == Marker::Plain));
    assert_eq!(plain[2], BatchLine { marker: Marker::Plain, file: 0, row: 1 });
    let marked = batch_lines(&b, Some(3));
    assert_eq!(marked[0].marker, Marker::Pad);
    assert_eq!(marked[1].marker, Marker::Pad);
    assert_eq!(marked[2].marker, Marker::Arrow);
    let none_marked = batch_lines(&b, Some(0));
    assert!(none_marked.iter().all(|l| l.marker == Marker::Pad));
}
