use vstd::prelude::*;

verus! {

/// Number of cells in one block of the block grid.
pub const BLOCK_SIZE: u64 = 4096;

/// Exclusive upper bound on the number of blocks of one task.
pub const MAX_BLOCK_COUNT: u32 = 32768;

/// Sum of the cells `s[a..b)`, as an unbounded integer.
pub open spec fn sum(s: Seq<u64>, a: int, b: int) -> int
    decreases b - a,
{
    if b <= a {
        0
    } else {
        sum(s, a, b - 1) + s[b - 1]
    }
}

/// An integer reduced to a 64-bit cell, as wrapping arithmetic does.
pub open spec fn wrap(x: int) -> u64 {
    (x % 0x1_0000_0000_0000_0000) as u64
}

/// Inclusive scan of `s` started from the carry `initial`.
pub open spec fn scanned(initial: u64, s: Seq<u64>) -> Seq<u64> {
    Seq::new(s.len(), |i: int| wrap(initial + sum(s, 0, i + 1)))
}

/// Independent inclusive scan of each row of length `r`: cell `i` holds the sum of the cells
/// of its row up to and including `i`.
pub open spec fn row_scan(s: Seq<u64>, r: int) -> Seq<u64> {
    Seq::new(s.len(), |i: int| wrap(sum(s, i - i % r, i + 1)))
}

pub proof fn lemma_sum_split(s: Seq<u64>, a: int, b: int, c: int)
    requires
        a <= b <= c,
    ensures
        sum(s, a, c) == sum(s, a, b) + sum(s, b, c),
    decreases c - b,
{
    if b < c {
        lemma_sum_split(s, a, b, c - 1);
    }
}

pub proof fn lemma_sum_nonneg(s: Seq<u64>, a: int, b: int)
    ensures
        sum(s, a, b) >= 0,
    decreases b - a,
{
    if a < b {
        lemma_sum_nonneg(s, a, b - 1);
    }
}

/// Sums over a range agree on sequences that agree on that range.
pub proof fn lemma_sum_agree(s: Seq<u64>, t: Seq<u64>, a: int, b: int)
    requires
        forall|i: int| a <= i < b ==> s[i] == t[i],
    ensures
        sum(s, a, b) == sum(t, a, b),
    decreases b - a,
{
    if a < b {
        lemma_sum_agree(s, t, a, b - 1);
    }
}

pub proof fn lemma_wrap_add(x: int, y: int)
    ensures
        wrap(wrap(x) + y) == wrap(x + y),
{
    let m: int = 0x1_0000_0000_0000_0000;
    vstd::arithmetic::div_mod::lemma_mod_bound(x, m);
    vstd::arithmetic::div_mod::lemma_add_mod_noop(x, y, m);
    vstd::arithmetic::div_mod::lemma_add_mod_noop(x % m, y, m);
    vstd::arithmetic::div_mod::lemma_mod_twice(x, m);
}

pub proof fn lemma_wrapping_add(a: u64, b: u64)
    ensures
        vstd::wrapping::u64_specs::wrapping_add(a, b) == wrap(a + b),
{
    let m: int = 0x1_0000_0000_0000_0000;
    if a + b >= m {
        vstd::arithmetic::div_mod::lemma_mod_add_multiples_vanish(a + b - m, m);
        vstd::arithmetic::div_mod::lemma_small_mod((a + b - m) as nat, m as nat);
    } else {
        vstd::arithmetic::div_mod::lemma_small_mod((a + b) as nat, m as nat);
    }
}

pub proof fn lemma_wrap_small(a: u64)
    ensures
        wrap(a as int) == a,
{
    vstd::arithmetic::div_mod::lemma_small_mod(a as nat, 0x1_0000_0000_0000_0000nat);
}

/// Scans `input` into `output`, each output cell receiving the running total started from
/// `initial`; returns the final total.
pub fn scan_sequential(input: &[u64], initial: u64, output: &mut [u64]) -> (r: u64)
    requires
        input@.len() == old(output)@.len(),
    ensures
        final(output)@ == scanned(initial, input@),
        r == wrap(initial + sum(input@, 0, input@.len() as int)),
{
    let mut accumulator = initial;
    let n = output.len();
    let mut i: usize = 0;
    proof {
        lemma_wrap_small(initial);
    }
    while i < n
        invariant
            n == input@.len(),
            output@.len() == n,
            i <= n,
            accumulator == wrap(initial + sum(input@, 0, i as int)),
            forall|j: int| 0 <= j < i ==> output@[j] == wrap(initial + sum(input@, 0, j + 1)),
        decreases n - i,
    {
        let x = input[i];
        proof {
            lemma_wrapping_add(accumulator, x);
            lemma_wrap_add(initial + sum(input@, 0, i as int), x as int);
        }
        accumulator = accumulator.wrapping_add(x);
        output[i] = accumulator;
        i = i + 1;
    }
    proof {
        assert(output@ =~= scanned(initial, input@));
    }
    accumulator
}

/// Sum of all cells, wrapping.
pub fn fold_sequential(array: &[u64]) -> (r: u64)
    ensures
        r == wrap(sum(array@, 0, array@.len() as int)),
{
    let mut accumulator: u64 = 0;
    let n = array.len();
    let mut i: usize = 0;
    proof {
        lemma_wrap_small(0);
    }
    while i < n
        invariant
            n == array@.len(),
            i <= n,
            accumulator == wrap(sum(array@, 0, i as int)),
        decreases n - i,
    {
        let x = array[i];
        proof {
            lemma_wrapping_add(accumulator, x);
            lemma_wrap_add(sum(array@, 0, i as int), x as int);
        }
        accumulator = accumulator.wrapping_add(x);
        i = i + 1;
    }
    accumulator
}

/// Scans `src[start..end)` into `dst[start..end)` from the carry `initial`; the other cells of
/// `dst` are kept. Returns the final total.
pub fn scan_range(src: &Vec<u64>, dst: &mut Vec<u64>, start: usize, end: usize, initial: u64) -> (r: u64)
    requires
        start <= end <= src@.len(),
        src@.len() == old(dst)@.len(),
    ensures
        final(dst)@.len() == old(dst)@.len(),
        forall|i: int| start <= i < end ==> final(dst)@[i] == wrap(initial + sum(src@, start as int, i + 1)),
        forall|i: int| 0 <= i < old(dst)@.len() && !(start <= i < end) ==> final(dst)@[i] == old(dst)@[i],
        r == wrap(initial + sum(src@, start as int, end as int)),
{
    let mut accumulator = initial;
    let mut i: usize = start;
    proof {
        lemma_wrap_small(initial);
    }
    while i < end
        invariant
            start <= i <= end,
            end <= src@.len(),
            dst@.len() == src@.len(),
            accumulator == wrap(initial + sum(src@, start as int, i as int)),
            forall|j: int| start <= j < i ==> dst@[j] == wrap(initial + sum(src@, start as int, j + 1)),
            forall|j: int| 0 <= j < dst@.len() && !(start <= j < i) ==> dst@[j] == old(dst)@[j],
        decreases end - i,
    {
        let x = src[i];
        proof {
            lemma_wrapping_add(accumulator, x);
            lemma_wrap_add(initial + sum(src@, start as int, i as int), x as int);
        }
        accumulator = accumulator.wrapping_add(x);
        dst.set(i, accumulator);
        i = i + 1;
    }
    accumulator
}

/// Scans the cells `values[start..end)` in place from the carry `initial`; the other cells are
/// kept. Returns the final total.
pub fn scan_range_in_place(values: &mut Vec<u64>, start: usize, end: usize, initial: u64) -> (r: u64)
    requires
        start <= end <= old(values)@.len(),
    ensures
        final(values)@.len() == old(values)@.len(),
        forall|i: int|
            start <= i < end ==> final(values)@[i] == wrap(initial + sum(old(values)@, start as int, i + 1)),
        forall|i: int|
            0 <= i < old(values)@.len() && !(start <= i < end) ==> final(values)@[i] == old(values)@[i],
        r == wrap(initial + sum(old(values)@, start as int, end as int)),
{
    let ghost src = values@;
    let mut accumulator = initial;
    let mut i: usize = start;
    proof {
        lemma_wrap_small(initial);
    }
    while i < end
        invariant
            start <= i <= end,
            end <= src.len(),
            values@.len() == src.len(),
            accumulator == wrap(initial + sum(src, start as int, i as int)),
            forall|j: int| start <= j < i ==> values@[j] == wrap(initial + sum(src, start as int, j + 1)),
            forall|j: int| 0 <= j < values@.len() && !(start <= j < i) ==> values@[j] == src[j],
        decreases end - i,
    {
        let x = values[i];
        proof {
            lemma_wrapping_add(accumulator, x);
            lemma_wrap_add(initial + sum(src, start as int, i as int), x as int);
        }
        accumulator = accumulator.wrapping_add(x);
        values.set(i, accumulator);
        i = i + 1;
    }
    accumulator
}

/// Sum of the cells `src[start..end)`, wrapping.
pub fn fold_range(src: &Vec<u64>, start: usize, end: usize) -> (r: u64)
    requires
        start <= end <= src@.len(),
    ensures
        r == wrap(sum(src@, start as int, end as int)),
{
    let mut accumulator: u64 = 0;
    let mut i: usize = start;
    proof {
        lemma_wrap_small(0);
    }
    while i < end
        invariant
            start <= i <= end,
            end <= src@.len(),
            accumulator == wrap(sum(src@, start as int, i as int)),
        decreases end - i,
    {
        let x = src[i];
        proof {
            lemma_wrapping_add(accumulator, x);
            lemma_wrap_add(sum(src@, start as int, i as int), x as int);
        }
        accumulator = accumulator.wrapping_add(x);
        i = i + 1;
    }
    accumulator
}

/// The xorshift generator step: three shift-xor rounds, truncated to 32 bits.
pub open spec fn xorshift(seed: u64) -> u32 {
    let a = seed ^ ((seed << 13u64) & 0xFFFF_FFFF_FFFF_FFFFu64);
    let b = a ^ (a >> 17u64);
    let c = b ^ ((b << 5u64) & 0xFFFF_FFFF_FFFF_FFFFu64);
    (c & 0xFFFF_FFFFu64) as u32
}

/// A pseudo-random value derived from `seed`.
pub fn random(seed: u64) -> (r: u32)
    ensures
        r == xorshift(seed),
{
    let mut seed = seed;
    let ghost s0 = seed;
    seed = seed ^ (seed << 13u64);
    seed = seed ^ (seed >> 17u64);
    seed = seed ^ (seed << 5u64);
    let r = (seed & 0xFFFF_FFFFu64) as u32;
    assert(r == xorshift(s0)) by (bit_vector)
        requires
            r == (((((s0 ^ (s0 << 13u64)) ^ ((s0 ^ (s0 << 13u64)) >> 17u64)) ^ (((s0 ^ (s0 << 13u64)) ^ ((s0 ^ (s0 << 13u64)) >> 17u64)) << 5u64)) & 0xFFFF_FFFFu64) as u32);
    r
}

/// Fills every cell with the pseudo-random value seeded by its index.
pub fn fill(values: &mut Vec<u64>)
    ensures
        final(values)@.len() == old(values)@.len(),
        forall|i: int| 0 <= i < final(values)@.len() ==> final(values)@[i] == xorshift(i as u64) as u64,
{
    let n = values.len();
    let mut i: usize = 0;
    while i < n
        invariant
            n == values@.len(),
            i <= n,
            forall|j: int| 0 <= j < i ==> values@[j] == xorshift(j as u64) as u64,
        decreases n - i,
    {
        let v = random(i as u64);
        values.set(i, v as u64);
        i = i + 1;
    }
}

/// A checksum of a scan result: the sum of four fixed cells, wrapping.
pub open spec fn checksum(s: Seq<u64>) -> u64 {
    wrap(s[1] + s[98238] + s[s.len() - 123] + s[s.len() - 1])
}

/// Sums four fixed cells of `output`, so that a benchmark run has a result that depends on it.
pub fn compute_output(output: &[u64]) -> (r: u64)
    requires
        output@.len() > 98238,
    ensures
        r == checksum(output@),
{
    let n = output.len();
    let a = output[1];
    let b = output[98238];
    let c = output[n - 123];
    let d = output[n - 1];
    proof {
        lemma_wrapping_add(a, b);
        lemma_wrapping_add(a.wrapping_add(b), c);
        lemma_wrapping_add(a.wrapping_add(b).wrapping_add(c), d);
        lemma_wrap_add(a + b, c as int);
        lemma_wrap_add(a + b + c, d as int);
    }
    a.wrapping_add(b).wrapping_add(c).wrapping_add(d)
}

/// The sequential reference for a one-dimensional scan; returns the checksum of the result.
pub fn reference_sequential_single(input: &[u64], output: &mut [u64]) -> (r: u64)
    requires
        input@.len() == old(output)@.len(),
        input@.len() > 98238,
    ensures
        final(output)@ == scanned(0, input@),
        r == checksum(final(output)@),
{
    scan_sequential(input, 0, output);
    compute_output(output)
}

pub proof fn lemma_row_start(i: int, r: int, row: int)
    requires
        r > 0,
        row * r <= i < row * r + r,
    ensures
        i - i % r == row * r,
        i / r == row,
{
    vstd::arithmetic::div_mod::lemma_fundamental_div_mod_converse(i, r, row, i - row * r);
}

/// Scans the rows `input[i*row_length..(i+1)*row_length)` for `i < row_count` into `output`,
/// each from zero; cells past the last row are kept.
pub fn scan_rows(input: &Vec<u64>, output: &mut Vec<u64>, row_length: usize, row_count: usize)
    requires
        input@.len() == old(output)@.len(),
        row_length * row_count <= input@.len(),
    ensures
        final(output)@.len() == old(output)@.len(),
        forall|j: int|
            0 <= j < row_length * row_count ==> #[trigger] final(output)@[j] == row_scan(input@, row_length as int)[j],
        forall|j: int|
            row_length * row_count <= j < old(output)@.len() ==> #[trigger] final(output)@[j] == old(output)@[j],
{
    let ghost n = input@.len() as int;
    let ghost r = row_length as int;
    let len = input.len();
    let mut i: usize = 0;
    while i < row_count
        invariant
            len == n,
            input@.len() == output@.len(),
            n == input@.len(),
            r * row_count <= n,
            r == row_length,
            i <= row_count,
            forall|j: int| 0 <= j < i * r ==> output@[j] == #[trigger] row_scan(input@, r)[j],
            forall|j: int| r * row_count <= j < n ==> #[trigger] output@[j] == old(output)@[j],
        decreases row_count - i,
    {
        proof {
            assert((i as int + 1) * r <= r * row_count) by (nonlinear_arith)
                requires
                    i + 1 <= row_count,
                    r >= 0,
            ;
            assert((i as int + 1) * r == i * r + r) by (nonlinear_arith);
        }
        let start = i * row_length;
        let end = start + row_length;
        scan_range(input, output, start, end, 0);
        proof {
            assert forall|j: int| 0 <= j < (i + 1) * r implies output@[j] == #[trigger] row_scan(input@, r)[j] by {
                if j >= i * r {
                    lemma_row_start(j, r, i as int);
                    assert(wrap(0 + sum(input@, start as int, j + 1)) == wrap(sum(input@, start as int, j + 1)));
                }
            }
        }
        i = i + 1;
    }
    proof {
        assert(i * r == r * row_count) by (nonlinear_arith)
            requires
                i == row_count,
        ;
    }
}

/// The sequential reference for a multi-dimensional scan over the first `row_count` rows of
/// length `row_length`; cells past them are kept. Returns the checksum of the result.
pub fn reference_sequential_multidim(input: &Vec<u64>, output: &mut Vec<u64>, row_length: usize, row_count: usize) -> (r: u64)
    requires
        input@.len() == old(output)@.len(),
        row_length * row_count <= input@.len(),
        input@.len() > 98238,
    ensures
        final(output)@.len() == old(output)@.len(),
        forall|j: int|
            0 <= j < row_length * row_count ==> #[trigger] final(output)@[j] == row_scan(input@, row_length as int)[j],
        forall|j: int|
            row_length * row_count <= j < old(output)@.len() ==> #[trigger] final(output)@[j] == old(output)@[j],
        r == checksum(final(output)@),
{
    scan_rows(input, output, row_length, row_count);
    compute_output(output.as_slice())
}

} // verus!
