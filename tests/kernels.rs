use prefix_scan::array::MultArray;
use prefix_scan::report::benchmark_name;
use prefix_scan::scan::{
    compute_output, fill, fold_sequential, random, reference_sequential_multidim, reference_sequential_single,
    scan_sequential,
};

#[test]
fn scan_from_carry() {
    let input = [1u64, 2, 3, 4];
    let mut output = [0u64; 4];
    let total = scan_sequential(&input, 10, &mut output);
    assert_eq!(output, [11, 13, 16, 20]);
    assert_eq!(total, 20);
}

#[test]
fn scan_of_nothing_returns_carry() {
    let mut output: [u64; 0] = [];
    assert_eq!(scan_sequential(&[], 7, &mut output), 7);
}

#[test]
fn fold_sums_cells() {
    assert_eq!(fold_sequential(&[5, 6, 7]), 18);
    assert_eq!(fold_sequential(&[]), 0);
    assert_eq!(fold_sequential(&[u64::MAX, 1]), 0);
}

#[test]
fn random_is_xorshift() {
    let mut s: u64 = 1;
    s ^= s << 13;
    s ^= s >> 17;
    s ^= s << 5;
    assert_eq!(random(1), s as u32);
    assert_eq!(random(0), 0);
    assert_eq!(random(1), 270369);
}

#[test]
fn fill_seeds_by_index() {
    let mut values = vec![0u64; 5];
    fill(&mut values);
    for (i, v) in values.iter().enumerate() {
        assert_eq!(*v, random(i as u64) as u64);
    }
}

#[test]
fn checksum_of_four_cells() {
    let values: Vec<u64> = (0..100_000u64).collect();
    let expected = 1 + 98238 + (100_000 - 123) + (100_000 - 1);
    assert_eq!(compute_output(&values), expected);
}

#[test]
fn references_scan_rows() {
    let input: Vec<u64> = vec![1; 100_000];
    let mut output = vec![0u64; 100_000];
    let sum = reference_sequential_single(&input, &mut output);
    assert_eq!(output[99_999], 100_000);
    assert_eq!(sum, 2 + 98239 + (100_000 - 122) + 100_000);

    let mut output2 = vec![0u64; 100_000];
    let sum2 = reference_sequential_multidim(&input, &mut output2, 1000, 100);
    assert_eq!(output2[999], 1000);
    assert_eq!(output2[1000], 1);
    assert_eq!(sum2, 2 + 239 + 878 + 1000);
}

#[test]
fn array_shape_queries() {
    let a: MultArray<3> = MultArray::new([2, 3, 4]);
    assert_eq!(a.get_inner_size(), 4);
    assert_eq!(a.total_inner_count(), 6);
    assert_eq!(a.get_data().len(), 24);
    let b: MultArray<1> = MultArray::new([5]);
    assert_eq!(b.get_inner_size(), 5);
    assert_eq!(b.total_inner_count(), 1);
    let mut c: MultArray<2> = MultArray::new([2, 2]);
    c.store(vec![1, 2, 3, 4]);
    assert_eq!(c.get_data(), &vec![1, 2, 3, 4]);
}

#[test]
fn titles_group_digits() {
    assert_eq!(benchmark_name(false, 67_108_864), "Prefix-sum (n = 67,108,864)");
    assert_eq!(benchmark_name(true, 1000), "In-place prefix-sum (n = 1,000)");
    assert_eq!(benchmark_name(false, 999), "Prefix-sum (n = 999)");
}

#[test]
fn reference_keeps_cells_past_the_grid() {
    let input: Vec<u64> = vec![2; 100_000];
    let mut output = vec![7u64; 100_000];
    reference_sequential_multidim(&input, &mut output, 1000, 50);
    assert_eq!(output[999], 2000);
    assert_eq!(output[49_999], 2000);
    assert_eq!(output[50_000], 7);
    assert_eq!(output[99_999], 7);
}
