use sql_permutation::algo::{
    all_interleavings, interlace_permutation, BatchList, BatchSender, CoordinatorClosed, Idx,
};

fn preserves_order(sizes: &[usize], b: &[Idx]) -> bool {
    if b.len() != sizes.iter().sum::<usize>() {
        return false;
    }
    for (f, &n) in sizes.iter().enumerate() {
        let rows: Vec<usize> = b.iter().filter(|x| x.0 == f).map(|x| x.1).collect();
        if rows != (0..n).collect::<Vec<usize>>() {
            return false;
        }
    }
    b.iter().all(|x| x.0 < sizes.len())
}

fn factorial(n: usize) -> usize {
    (1..=n).product()
}

#[test]
fn two_files_give_three_interleavings_in_order() {
    let r = all_interleavings(&vec![2, 1]);
    assert_eq!(
        r,
        vec![
            vec![(0, 0), (0, 1), (1, 0)],
            vec![(0, 0), (1, 0), (0, 1)],
            vec![(1, 0), (0, 0), (0, 1)],
        ]
    );
}

#[test]
fn empty_file_beside_one_statement() {
    assert_eq!(all_interleavings(&vec![0, 1]), vec![vec![(1, 0)]]);
}

#[test]
fn no_files_give_one_empty_batch() {
    assert_eq!(all_interleavings(&vec![]), vec![Vec::<Idx>::new()]);
}

#[test]
fn only_empty_files_give_one_empty_batch() {
    assert_eq!(all_interleavings(&vec![0, 0, 0]), vec![Vec::<Idx>::new()]);
}

#[test]
fn single_file_gives_its_own_order() {
    assert_eq!(all_interleavings(&vec![3]), vec![vec![(0, 0), (0, 1), (0, 2)]]);
}

#[test]
fn count_is_the_multinomial_and_batches_are_distinct() {
    let sizes = vec![2, 2, 1];
    let r = all_interleavings(&sizes);
    assert_eq!(r.len(), factorial(5) / (factorial(2) * factorial(2) * factorial(1)));
    assert_eq!(r.len(), 30);
    for (i, a) in r.iter().enumerate() {
        assert!(preserves_order(&sizes, a));
        for b in r.iter().skip(i + 1) {
            assert_ne!(a, b);
        }
    }
    let mut sorted = r.clone();
    sorted.sort();
    assert_eq!(sorted, r);
}

#[test]
fn three_single_statements_give_all_six_orders() {
    let r = all_interleavings(&vec![1, 1, 1]);
    assert_eq!(r.len(), 6);
    assert_eq!(r[0], vec![(0, 0), (1, 0), (2, 0)]);
    assert_eq!(r[5], vec![(2, 0), (1, 0), (0, 0)]);
}

#[test]
fn sink_with_a_prefix_in_result() {
    let mut curs = vec![0, 0];
    let mut result = vec![(9, 9)];
    let mut sink = BatchList::new();
    let r = interlace_permutation(&mut curs, &vec![1, 1], &mut result, &mut sink);
    assert!(r.is_ok());
    assert_eq!(curs, vec![0, 0]);
    assert_eq!(result, vec![(9, 9)]);
    assert_eq!(
        sink.into_batches(),
        vec![vec![(9, 9), (0, 0), (1, 0)], vec![(9, 9), (1, 0), (0, 0)]]
    );
}

#[test]
fn hung_up_receiver_refuses_the_first_batch() {
    let (tx, rx) = std::sync::mpsc::sync_channel::<Vec<Idx>>(1);
    drop(rx);
    let mut curs = vec![0, 0];
    let mut result = vec![];
    let mut sink = BatchSender::new(tx);
    let r = interlace_permutation(&mut curs, &vec![2, 1], &mut result, &mut sink);
    assert_eq!(r, Err(CoordinatorClosed));
}

#[test]
fn channel_sink_delivers_every_batch_in_order() {
    let (tx, rx) = std::sync::mpsc::sync_channel::<Vec<Idx>>(8);
    let mut curs = vec![0, 0];
    let mut result = vec![];
    let mut sink = BatchSender::new(tx);
    let r = interlace_permutation(&mut curs, &vec![2, 1], &mut result, &mut sink);
    assert!(r.is_ok());
    drop(sink);
    let got: Vec<Vec<Idx>> = rx.iter().collect();
    assert_eq!(got, all_interleavings(&vec![2, 1]));
}

#[test]
fn uneven_files_match_the_multinomial() {
    let sizes = vec![1, 2, 3];
    let r = all_interleavings(&sizes);
    assert_eq!(r.len(), 60);
    assert!(r.iter().all(|b| preserves_order(&sizes, b)));
    let mut dedup = r.clone();
    dedup.sort();
    dedup.dedup();
    assert_eq!(dedup.len(), 60);
}

#[test]
fn empty_files_among_others_do_not_change_the_count() {
    let with_empty = all_interleavings(&vec![0, 2, 0, 2]);
    assert_eq!(with_empty.len(), 6);
    assert_eq!(with_empty[0], vec![(1, 0), (1, 1), (3, 0), (3, 1)]);
}
