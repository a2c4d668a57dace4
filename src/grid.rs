use vstd::prelude::*;
use vstd::arithmetic::div_mod::{lemma_fundamental_div_mod, lemma_fundamental_div_mod_converse};

verus! {

/// Number of column blocks of a row of length `r`: the row is cut into blocks of 4096 cells.
pub open spec fn blocks_per_row(r: int) -> int {
    (r + 4095) / 4096
}

/// Number of whole rows grouped into one block when rows are shorter than half a block.
pub open spec fn rows_per_block(r: int) -> int {
    if 0 < r && 2 * r < 4096 {
        4096int / r
    } else {
        1
    }
}

/// Whether blocks are chained within rows (a row spans several blocks), rather than grouping
/// whole rows.
pub open spec fn is_chained(r: int) -> bool {
    blocks_per_row(r) > 1
}

/// Number of blocks of a task over `m` rows of length `r`.
pub open spec fn block_count(r: int, m: int) -> int {
    if is_chained(r) {
        blocks_per_row(r) * m
    } else {
        (m + rows_per_block(r) - 1) / rows_per_block(r)
    }
}

/// First cell of chained block `k` (row `k / c`, column `k % c`).
pub open spec fn block_start(r: int, c: int, k: int) -> int {
    (k / c) * r + (k % c) * 4096
}

/// One past the last cell of chained block `k`.
pub open spec fn block_end(r: int, c: int, k: int) -> int {
    (k / c) * r + if (k % c + 1) * 4096 < r {
        (k % c + 1) * 4096
    } else {
        r
    }
}

/// The chained block that holds cell `i`.
pub open spec fn block_of(r: int, c: int, i: int) -> int {
    (i / r) * c + (i % r) / 4096
}

/// First cell of the group of rows `k`, with `p` rows per group.
pub open spec fn group_start(r: int, p: int, k: int) -> int {
    k * p * r
}

/// One past the last cell of the group of rows `k` over `m` rows.
pub open spec fn group_end(r: int, p: int, m: int, k: int) -> int {
    if (k + 1) * p < m {
        (k + 1) * p * r
    } else {
        m * r
    }
}

/// The group of rows that holds cell `i`.
pub open spec fn group_of(r: int, p: int, i: int) -> int {
    (i / r) / p
}

/// The blocks of a row cover it: `c` blocks of 4096 cells reach the row's end, `c - 1` do not.
pub proof fn lemma_blocks_per_row(r: int)
    requires
        r > 0,
    ensures
        blocks_per_row(r) >= 1,
        blocks_per_row(r) * 4096 >= r,
        (blocks_per_row(r) - 1) * 4096 < r,
        r > 4096 <==> is_chained(r),
        blocks_per_row(r) <= r,
{
    let c = blocks_per_row(r);
    lemma_fundamental_div_mod(r + 4095, 4096);
    assert(c * 4096 == r + 4095 - (r + 4095) % 4096);
    assert((c - 1) * 4096 == c * 4096 - 4096) by (nonlinear_arith);
    if r > 4096 {
        assert(c * 4096 > 4096 * 1);
        assert(c > 1) by (nonlinear_arith)
            requires
                c * 4096 > 4096 * 1,
        ;
    } else {
        assert(c * 4096 < 2 * 4096);
        assert(c < 2) by (nonlinear_arith)
            requires
                c * 4096 < 2 * 4096,
        ;
    }
    assert(c <= r) by (nonlinear_arith)
        requires
            (c - 1) * 4096 < r,
            r > 0,
    ;
}

/// A chained block lies in its row, inside the array, and holds exactly the cells that
/// `block_of` maps to it.
pub proof fn lemma_chained_block(r: int, m: int, k: int)
    requires
        r > 4096,
        0 <= k < blocks_per_row(r) * m,
    ensures
        k / blocks_per_row(r) < m,
        (k / blocks_per_row(r)) * r <= block_start(r, blocks_per_row(r), k),
        block_start(r, blocks_per_row(r), k) < block_end(r, blocks_per_row(r), k),
        block_end(r, blocks_per_row(r), k) <= (k / blocks_per_row(r)) * r + r,
        (k / blocks_per_row(r)) * r + r <= m * r,
        k % blocks_per_row(r) == 0 ==> block_start(r, blocks_per_row(r), k) == (k / blocks_per_row(r)) * r,
        k % blocks_per_row(r) > 0 ==> (k - 1) / blocks_per_row(r) == k / blocks_per_row(r) && block_end(r, blocks_per_row(r), k - 1) == block_start(r, blocks_per_row(r), k),
        forall|i: int|
            0 <= i < m * r ==> (block_start(r, blocks_per_row(r), k) <= i < block_end(r, blocks_per_row(r), k) <==> #[trigger] block_of(r, blocks_per_row(r), i) == k),
{
    let c = blocks_per_row(r);
    lemma_blocks_per_row(r);
    lemma_fundamental_div_mod(k, c);
    let row = k / c;
    let col = k % c;
    assert(k == row * c + col) by (nonlinear_arith)
        requires
            k == c * row + col,
    ;
    assert(row < m) by (nonlinear_arith)
        requires
            k == row * c + col,
            0 <= col < c,
            k < c * m,
    ;
    assert(row >= 0) by (nonlinear_arith)
        requires
            k == row * c + col,
            0 <= col < c,
            k >= 0,
    ;
    assert(col * 4096 < r) by (nonlinear_arith)
        requires
            col <= c - 1,
            (c - 1) * 4096 < r,
    ;
    assert(row * r + r <= m * r) by (nonlinear_arith)
        requires
            row < m,
            r > 0,
    ;
    assert(row * r >= 0) by (nonlinear_arith)
        requires
            row >= 0,
            r > 0,
    ;
    assert((col + 1) * 4096 == col * 4096 + 4096) by (nonlinear_arith);
    if col > 0 {
        lemma_fundamental_div_mod_converse(k - 1, c, row, col - 1);
        assert(col * 4096 == (col - 1) * 4096 + 4096) by (nonlinear_arith);
    }
    assert forall|i: int| 0 <= i < m * r implies (block_start(r, c, k) <= i < block_end(r, c, k)
        <==> #[trigger] block_of(r, c, i) == k) by {
        lemma_fundamental_div_mod(i, r);
        let q = i / r;
        let t = i % r;
        lemma_fundamental_div_mod(t, 4096);
        assert(t / 4096 < c) by (nonlinear_arith)
            requires
                t < r,
                c * 4096 >= r,
                t == 4096 * (t / 4096) + t % 4096,
                t % 4096 >= 0,
        ;
        assert(t / 4096 >= 0);
        if block_start(r, c, k) <= i < block_end(r, c, k) {
            lemma_fundamental_div_mod_converse(i, r, row, i - row * r);
            lemma_fundamental_div_mod_converse(t, 4096, col, t - col * 4096);
        }
        if block_of(r, c, i) == k {
            lemma_fundamental_div_mod_converse(k, c, q, t / 4096);
            assert(i == row * r + t) by (nonlinear_arith)
                requires
                    i == r * q + t,
                    q == row,
            ;
            assert(t >= col * 4096);
            assert(t < col * 4096 + 4096);
        }
    }
}

/// A group of `p` rows lies inside the array and holds exactly the cells that `group_of` maps
/// to it.
pub proof fn lemma_group(r: int, m: int, p: int, k: int)
    requires
        r > 0,
        p >= 1,
        0 <= k < (m + p - 1) / p,
    ensures
        k * p < m,
        group_start(r, p, k) == (k * p) * r,
        group_start(r, p, k) < group_end(r, p, m, k),
        group_end(r, p, m, k) <= m * r,
        forall|i: int|
            0 <= i < m * r ==> (group_start(r, p, k) <= i < group_end(r, p, m, k)
                <==> #[trigger] group_of(r, p, i) == k),
{
    lemma_fundamental_div_mod(m + p - 1, p);
    let w = (m + p - 1) / p;
    assert(k * p < m) by (nonlinear_arith)
        requires
            k < w,
            m + p - 1 == p * w + (m + p - 1) % p,
            (m + p - 1) % p >= 0,
            p >= 1,
            k >= 0,
    ;
    assert(k * p >= 0) by (nonlinear_arith)
        requires
            k >= 0,
            p >= 1,
    ;
    assert(group_start(r, p, k) == (k * p) * r) by (nonlinear_arith);
    assert((k * p) * r < (k * p + 1) * r) by (nonlinear_arith)
        requires
            r > 0,
    ;
    assert((k + 1) * p * r == (k * p + p) * r) by (nonlinear_arith);
    assert((k * p + 1) * r <= (k * p + p) * r) by (nonlinear_arith)
        requires
            r > 0,
            p >= 1,
    ;
    assert((k * p + 1) * r <= m * r) by (nonlinear_arith)
        requires
            r > 0,
            k * p < m,
    ;
    if (k + 1) * p < m {
        assert((k + 1) * p * r <= m * r) by (nonlinear_arith)
            requires
                (k + 1) * p < m,
                r > 0,
        ;
    }
    assert forall|i: int| 0 <= i < m * r implies (group_start(r, p, k) <= i < group_end(r, p, m, k)
        <==> #[trigger] group_of(r, p, i) == k) by {
        lemma_fundamental_div_mod(i, r);
        let q = i / r;
        assert(q >= 0);
        lemma_fundamental_div_mod(q, p);
        if group_start(r, p, k) <= i < group_end(r, p, m, k) {
            if (k + 1) * p >= m {
                assert(m * r <= (k + 1) * p * r) by (nonlinear_arith)
                    requires
                        (k + 1) * p >= m,
                        r > 0,
                ;
            }
            assert(q >= k * p) by (nonlinear_arith)
                requires
                    i == r * q + i % r,
                    0 <= i % r < r,
                    i >= (k * p) * r,
            ;
            assert(q < (k + 1) * p) by (nonlinear_arith)
                requires
                    i == r * q + i % r,
                    0 <= i % r < r,
                    i < (k + 1) * p * r,
                    r > 0,
            ;
            assert((k + 1) * p == k * p + p) by (nonlinear_arith);
            assert(q == k * p + (q - k * p));
            lemma_fundamental_div_mod_converse(q, p, k, q - k * p);
        }
        if group_of(r, p, i) == k {
            assert(q >= k * p && q < k * p + p) by (nonlinear_arith)
                requires
                    q == p * k + q % p,
                    0 <= q % p < p,
            ;
            assert(i >= (k * p) * r) by (nonlinear_arith)
                requires
                    i == r * q + i % r,
                    0 <= i % r,
                    q >= k * p,
                    r > 0,
            ;
            assert(i < (k * p + p) * r) by (nonlinear_arith)
                requires
                    i == r * q + i % r,
                    i % r < r,
                    q < k * p + p,
                    r > 0,
            ;
            assert(i < m * r);
        }
    }
}

/// The number of blocks of a task over `rows` rows of length `inner_size`, or `None` where it
/// does not fit in `usize`.
pub fn checked_block_count(inner_size: usize, rows: usize) -> (r: Option<usize>)
    ensures
        r matches Some(n) ==> n == block_count(inner_size as int, rows as int),
        r is None ==> block_count(inner_size as int, rows as int) > usize::MAX,
{
    let per_row: usize = if inner_size == 0 {
        0
    } else {
        (inner_size - 1) / 4096 + 1
    };
    proof {
        if inner_size > 0 {
            lemma_blocks_per_row(inner_size as int);
            vstd::arithmetic::div_mod::lemma_div_plus_one((inner_size - 1) as int, 4096);
        }
    }
    if per_row > 1 {
        per_row.checked_mul(rows)
    } else {
        let p: usize = if inner_size > 0 && inner_size < 2048 {
            4096 / inner_size
        } else {
            1
        };
        proof {
            if inner_size > 0 && inner_size < 2048 {
                vstd::arithmetic::div_mod::lemma_div_is_ordered(inner_size as int, 4096, inner_size as int);
                vstd::arithmetic::div_mod::lemma_div_basics(inner_size as int);
            }
            assert(p == rows_per_block(inner_size as int));
            let q = rows as int / p as int;
            let m = rows as int % p as int;
            lemma_fundamental_div_mod(rows as int, p as int);
            assert(p * q == q * p) by (nonlinear_arith);
            if m != 0 {
                assert(p >= 2);
                assert(q <= rows as int) by (nonlinear_arith)
                    requires
                        rows == p * q + m,
                        m >= 0,
                        p >= 2,
                        q >= 0,
                ;
                assert(q < usize::MAX) by (nonlinear_arith)
                    requires
                        rows == p * q + m,
                        m >= 1,
                        p >= 2,
                        q >= 0,
                        rows <= usize::MAX,
                ;
            }
            if m == 0 {
                lemma_fundamental_div_mod_converse(rows + p - 1, p as int, q, p - 1);
            } else {
                assert((q + 1) * p == q * p + p) by (nonlinear_arith);
                lemma_fundamental_div_mod_converse(rows + p - 1, p as int, q + 1, m - 1);
            }
        }
        Some(rows / p + if rows % p != 0 {
            1
        } else {
            0
        })
    }
}

} // verus!
