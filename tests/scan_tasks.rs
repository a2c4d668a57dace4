use prefix_scan::array::MultArray;
use prefix_scan::columnwise_chained;
use prefix_scan::descriptor::{create_temp, reset, BlockInfo, STATE_PREFIX_AVAILABLE};
use prefix_scan::row_column_chained::{init_single, init_single_in_place};
use prefix_scan::rowwise_chained;
use prefix_scan::scan::{random, scan_sequential};
use prefix_scan::grid::checked_block_count;
use prefix_scan::parallel_rowbased;
use prefix_scan::sequential_rowbased;
use prefix_scan::task::Task;

fn array1(values: &[u64]) -> MultArray<1> {
    let mut a = MultArray::new([values.len()]);
    a.store(values.to_vec());
    a
}

fn array2(rows: usize, len: usize, values: &[u64]) -> MultArray<2> {
    let mut a = MultArray::new([rows, len]);
    a.store(values.to_vec());
    a
}

/// Lets `thread_count` workers enter one after another, `stagger` rounds apart, and steps
/// them round-robin until all have left.
fn run_workers(task: &mut Task, thread_count: usize, stagger: usize) {
    let mut round = 0usize;
    loop {
        if task.arrived() < thread_count && round >= task.arrived() * stagger {
            task.arrive();
        }
        for w in 0..task.arrived() {
            task.step(w);
        }
        if task.arrived() == thread_count && task.is_finished() {
            break;
        }
        round += 1;
        assert!(round < 100_000_000, "the workers did not finish");
    }
}

/// Steps the workers in a pseudo-random order drawn from `seed`.
fn run_shuffled(task: &mut Task, thread_count: usize, seed: u64) {
    for _ in 0..thread_count {
        task.arrive();
    }
    let mut s = seed;
    let mut count = 0u64;
    while !task.is_finished() {
        s ^= s << 13;
        s ^= s >> 17;
        s ^= s << 5;
        let w = (s % thread_count as u64) as usize;
        task.step(w);
        count += 1;
        assert!(count < 1_000_000_000, "the workers did not finish");
    }
}

fn reference(values: &[u64], row_length: usize) -> Vec<u64> {
    let mut out = vec![0u64; values.len()];
    if row_length == 0 {
        return out;
    }
    for (r, row) in values.chunks(row_length).enumerate() {
        let mut acc = 0u64;
        for (j, v) in row.iter().enumerate() {
            acc = acc.wrapping_add(*v);
            out[r * row_length + j] = acc;
        }
    }
    out
}

fn xorshift_values(n: usize, seed: u64) -> Vec<u64> {
    (0..n).map(|i| random(i as u64 ^ seed) as u64).collect()
}

fn scan_1d(values: &[u64], threads: usize) -> Vec<u64> {
    let input = array1(values);
    let output = MultArray::new([values.len()]);
    let temp = create_temp(&input);
    let mut task = init_single(input, temp, output);
    run_workers(&mut task, threads, 2);
    task.output().clone()
}

fn scan_2d(rows: usize, len: usize, values: &[u64], threads: usize, stagger: usize) -> Vec<u64> {
    let input = array2(rows, len, values);
    let output = MultArray::new([rows, len]);
    let temp = create_temp(&input);
    let mut task = init_single(input, temp, output);
    run_workers(&mut task, threads, stagger);
    task.output().clone()
}

#[test]
fn ones_single_thread() {
    let out = scan_1d(&[1, 1, 1, 1, 1, 1, 1, 1], 1);
    assert_eq!(out, vec![1, 2, 3, 4, 5, 6, 7, 8]);
}

#[test]
fn ones_four_threads() {
    let out = scan_1d(&[1, 1, 1, 1, 1, 1, 1, 1], 4);
    assert_eq!(out, vec![1, 2, 3, 4, 5, 6, 7, 8]);
}

#[test]
fn two_rows_scanned_separately() {
    let values: Vec<u64> = (1..=8).collect();
    let out = scan_2d(2, 4, &values, 2, 1);
    assert_eq!(out, vec![1, 3, 6, 10, 5, 11, 18, 26]);
}

#[test]
fn zeros_over_two_blocks() {
    for threads in [1usize, 2, 3, 8] {
        let values = vec![0u64; 4097];
        let input = array1(&values);
        let output = MultArray::new([4097]);
        let temp = create_temp(&input);
        assert_eq!(temp.len(), 2);
        let mut task = init_single(input, temp, output);
        run_workers(&mut task, threads, 1);
        assert!(task.output().iter().all(|v| *v == 0));
        let (_, temp) = task.into_parts();
        for d in temp.iter() {
            assert_eq!(d.state, STATE_PREFIX_AVAILABLE);
            assert_eq!(d.prefix, 0);
        }
    }
}

#[test]
fn ones_then_twos() {
    let mut values = vec![1u64; 4096];
    values.extend(vec![2u64; 4096]);
    for threads in [2usize, 3, 4] {
        for stagger in [0usize, 1, 5] {
            let out = scan_2d(1, 8192, &values, threads, stagger);
            assert_eq!(out[4095], 4096);
            assert_eq!(out[4096], 4098);
            assert_eq!(out[8191], 12288);
        }
    }
}

#[test]
fn large_in_place_matches_sequential() {
    let rows = 1000;
    let len = 10000;
    let values = xorshift_values(rows * len, 0x9E37_79B9);
    let expected = reference(&values, len);
    let temp = create_temp(&array2(rows, len, &values));
    let mut task = init_single_in_place(array2(rows, len, &values), temp);
    run_workers(&mut task, 8, 3);
    assert!(task.output() == &expected);
}

#[test]
fn random_shapes_match_reference() {
    let shapes: [(usize, usize); 9] =
        [(1, 1000), (1, 5000), (3, 100), (7, 2048), (5, 3000), (4, 4097), (6, 9000), (2, 20000), (37, 13)];
    for (k, (rows, len)) in shapes.iter().enumerate() {
        let values = xorshift_values(rows * len, k as u64 + 1);
        let expected = reference(&values, *len);
        for threads in [1usize, 2, 3, 4, 8, 16] {
            assert_eq!(scan_2d(*rows, *len, &values, threads, 1), expected);
            let input = array2(*rows, *len, &values);
            let output = MultArray::new([*rows, *len]);
            let temp = create_temp(&input);
            let mut task = init_single(input, temp, output);
            run_shuffled(&mut task, threads, 7 + threads as u64);
            assert!(task.output() == &expected);
        }
    }
}

#[test]
fn same_result_for_every_thread_count() {
    let values = xorshift_values(3 * 12000, 99);
    let first = scan_2d(3, 12000, &values, 1, 0);
    for threads in 2..=12 {
        assert_eq!(scan_2d(3, 12000, &values, threads, threads % 3), first);
    }
}

#[test]
fn in_place_matches_fresh_copy() {
    let values = xorshift_values(4 * 9000, 5);
    let temp = create_temp(&array2(4, 9000, &values));
    let mut in_place = init_single_in_place(array2(4, 9000, &values), temp);
    run_workers(&mut in_place, 3, 1);
    let copy = scan_2d(4, 9000, &values, 3, 2);
    assert_eq!(in_place.output(), &copy);
}

#[test]
fn descriptors_reused_after_reset() {
    let values = xorshift_values(3 * 5000, 11);
    let expected = reference(&values, 5000);
    let mut temp: Vec<BlockInfo> = create_temp(&array2(3, 5000, &values));
    for i in 0..1000usize {
        let input = array2(3, 5000, &values);
        let output = MultArray::new([3, 5000]);
        let mut task = init_single(input, temp, output);
        run_workers(&mut task, 1 + i % 4, i % 3);
        assert!(task.output() == &expected);
        let (_, used) = task.into_parts();
        temp = used;
        assert!(temp.iter().all(|d| d.state == STATE_PREFIX_AVAILABLE));
    }
    reset(&mut temp);
    assert!(temp.iter().all(|d| d.state == 0 && d.aggregate == 0 && d.prefix == 0));
}

#[test]
fn every_claim_order_gives_the_row_scan() {
    let values = xorshift_values(5 * 10000, 3);
    let expected = reference(&values, 10000);
    for threads in [1usize, 2, 5] {
        let input = array2(5, 10000, &values);
        let temp = create_temp(&input);
        let mut task = rowwise_chained::init_single(input, temp, MultArray::new([5, 10000]));
        run_workers(&mut task, threads, 1);
        assert!(task.output() == &expected);

        let input = array2(5, 10000, &values);
        let temp = create_temp(&input);
        let mut task = columnwise_chained::init_single(input, temp, MultArray::new([5, 10000]));
        run_workers(&mut task, threads, 1);
        assert!(task.output() == &expected);

        let mut task = sequential_rowbased::create_task(array2(5, 10000, &values), MultArray::new([5, 10000]));
        run_workers(&mut task, threads, 1);
        assert!(task.output() == &expected);
    }
}

#[test]
fn kernel_wraps_on_overflow() {
    let input = [u64::MAX, 2, 3];
    let mut output = [0u64; 3];
    let carry = scan_sequential(&input, 0, &mut output);
    assert_eq!(output, [u64::MAX, 1, 4]);
    assert_eq!(carry, 4);
}

#[test]
fn row_based_tasks_scan_each_row() {
    let values = xorshift_values(6 * 300, 21);
    let expected = reference(&values, 300);
    for threads in [1usize, 3] {
        let mut task = parallel_rowbased::create_task(array2(6, 300, &values), MultArray::new([6, 300]));
        run_shuffled(&mut task, threads, 5);
        assert!(task.output() == &expected);
    }
}

#[test]
fn empty_signal_after_last_claim() {
    let values = vec![1u64; 3 * 5000];
    let input = array2(3, 5000, &values);
    let temp = create_temp(&input);
    let mut task = init_single(input, temp, MultArray::new([3, 5000]));
    assert!(!task.is_empty());
    run_workers(&mut task, 2, 1);
    assert!(task.is_empty());
}

#[test]
fn block_counts_of_shapes() {
    assert_eq!(checked_block_count(8, 1), Some(1));
    assert_eq!(checked_block_count(1000, 10), Some(3));
    assert_eq!(checked_block_count(2048, 5), Some(5));
    assert_eq!(checked_block_count(4096, 7), Some(7));
    assert_eq!(checked_block_count(4097, 4), Some(8));
    assert_eq!(checked_block_count(10000, 10000), Some(30000));
    assert_eq!(checked_block_count(usize::MAX, 8192), None);
}
