use vstd::prelude::*;
use crate::descriptor::{BlockInfo, is_initial, STATE_AGGREGATE_AVAILABLE, STATE_PREFIX_AVAILABLE};
use crate::grid::{
    blocks_per_row, rows_per_block, is_chained, block_count, block_start, block_end, block_of,
    group_start, group_end, group_of, lemma_blocks_per_row, lemma_chained_block, lemma_group,
};
use vstd::arithmetic::div_mod::{lemma_fundamental_div_mod, lemma_fundamental_div_mod_converse};
use crate::scan::{
    sum, wrap, row_scan, lemma_sum_split, lemma_sum_agree, lemma_wrap_add, lemma_wrapping_add,
    lemma_row_start, scan_range, scan_range_in_place, fold_range, MAX_BLOCK_COUNT,
};

verus! {

/// Largest number of workers that may enter one task. Each worker may make one claim past
/// the column-wise work, so with fewer than 2^15 blocks the low half of the work index stays
/// below 2^16 and never carries into the high half.
pub const MAX_WORKERS: usize = 32767;

/// Row-wise claim counter: the high half of the work index.
pub open spec fn hi_of(w: u32) -> int {
    w as int / 65536
}

/// Column-wise claim counter: the low half of the work index.
pub open spec fn lo_of(w: u32) -> int {
    w as int % 65536
}

/// Where a worker stands in the work-assisting loop.
#[derive(Clone, Copy)]
pub enum Phase {
    /// Claim the next column-wise block, or group of rows, by a fetch-add on the work index.
    Claim,
    /// Read the work index before a row-wise claim.
    Load,
    /// Claim the next row-wise block by a compare-and-swap from `expected`.
    Cas { expected: u32 },
    /// Work on a claimed block: take the fast path, or publish the block's aggregate.
    Begin { block: u32 },
    /// Walk back from `block` over its predecessors, now at `previous`; `carry` sums the
    /// aggregates passed so far and `local` is the block's own aggregate.
    LookBack { block: u32, previous: u32, carry: u64, local: u64 },
    /// Scan `block` from `carry`, its prefix already published.
    Scan { block: u32, carry: u64 },
    /// Left the task.
    Done,
}

/// The order in which the workers of a chained task claim blocks.
#[derive(Clone, Copy)]
pub enum Order {
    /// The first worker claims row-wise; workers that join claim column-wise, and each helps
    /// the other order once its own runs out.
    Adaptive,
    /// Every worker claims the next block of the row-major order.
    RowWise,
    /// Every worker claims the next block of the column-major order.
    ColumnWise,
}

/// The private state of one worker of a task.
#[derive(Clone, Copy)]
pub struct Worker {
    pub phase: Phase,
    /// The block in hand was claimed row-wise.
    pub rowwise: bool,
    /// The worker has seen column-wise claims, and fixed the split below.
    pub seen: bool,
    /// Rows left to the row-wise order when column-wise claiming began.
    pub rows_done: u32,
    /// Blocks that the row-wise order claims.
    pub row_work: u32,
    /// Blocks that the column-wise order claims.
    pub col_work: u32,
}

/// The block that `phase` is working on, if any.
pub open spec fn working_on(phase: Phase) -> Option<int> {
    match phase {
        Phase::Begin { block } => Some(block as int),
        Phase::LookBack { block, .. } => Some(block as int),
        Phase::Scan { block, .. } => Some(block as int),
        _ => None,
    }
}

/// One data-parallel scan: the cells, the block descriptors, the shared work index, and the
/// workers that have entered it.
pub struct Task {
    input: Vec<u64>,
    output: Vec<u64>,
    in_place: bool,
    temp: Vec<BlockInfo>,
    inner_size: usize,
    rows: usize,
    blocks_per_row: usize,
    rows_per_block: usize,
    chained: bool,
    order: Order,
    work_size: u32,
    work_index: u32,
    empty: bool,
    workers: Vec<Worker>,
    orig: Ghost<Seq<u64>>,
    out0: Ghost<Seq<u64>>,
    done: Ghost<Seq<bool>>,
    writes: Ghost<Seq<nat>>,
    owner: Ghost<Seq<int>>,
    split: Ghost<Option<int>>,
    overs: Ghost<Set<int>>,
    drained: Ghost<bool>,
}

impl Task {
    /// The values that are scanned.
    pub closed spec fn values(&self) -> Seq<u64> {
        self.orig@
    }

    /// The cells that receive the scan.
    pub closed spec fn output_view(&self) -> Seq<u64> {
        self.output@
    }

    /// The row length.
    pub closed spec fn row_length(&self) -> int {
        self.inner_size as int
    }

    /// The descriptor array.
    pub closed spec fn descriptors(&self) -> Seq<BlockInfo> {
        self.temp@
    }

    /// The number of workers that have entered.
    pub closed spec fn worker_count(&self) -> int {
        self.workers@.len() as int
    }

    /// How many times each output cell has been written.
    pub closed spec fn write_counts(&self) -> Seq<nat> {
        self.writes@
    }

    /// Worker `w` has left the task.
    pub closed spec fn has_left(&self, w: int) -> bool {
        self.workers@[w].phase is Done
    }

    /// At least one worker entered, and every worker that entered has left.
    pub closed spec fn finished(&self) -> bool {
        &&& self.workers@.len() > 0
        &&& forall|w: int| 0 <= w < self.workers@.len() ==> self.has_left(w)
    }

    /// The blocks are chained within rows, each with a descriptor.
    pub closed spec fn chained_grid(&self) -> bool {
        self.chained
    }

    /// The number of rows.
    pub closed spec fn row_count(&self) -> int {
        self.rows as int
    }

    /// Rows per block where whole rows are grouped.
    pub closed spec fn group_rows(&self) -> int {
        self.rows_per_block as int
    }

    /// The number of blocks.
    pub closed spec fn work_size(&self) -> int {
        self.work_size as int
    }

    /// The shared work index: row-wise claims in the high half, column-wise in the low half.
    pub closed spec fn work_index(&self) -> u32 {
        self.work_index
    }

    /// The phase of worker `w`.
    pub closed spec fn phase(&self, w: int) -> Phase {
        self.workers@[w].phase
    }

    /// Block `k` has been scanned.
    pub closed spec fn block_finished(&self, k: int) -> bool {
        self.done@[k]
    }

    /// A claim has signalled that the work is drained.
    pub closed spec fn empty_signalled(&self) -> bool {
        self.empty
    }

    /// The order in which workers claim blocks.
    pub closed spec fn claim_order(&self) -> Order {
        self.order
    }

    /// Column blocks per row of the chained grid.
    pub open spec fn columns(&self) -> int {
        blocks_per_row(self.row_length())
    }

    /// First cell of block `k`.
    pub open spec fn first_cell(&self, k: int) -> int {
        if self.chained_grid() {
            block_start(self.row_length(), self.columns(), k)
        } else {
            group_start(self.row_length(), self.group_rows(), k)
        }
    }

    /// One past the last cell of block `k`.
    pub open spec fn end_cell(&self, k: int) -> int {
        if self.chained_grid() {
            block_end(self.row_length(), self.columns(), k)
        } else {
            group_end(self.row_length(), self.group_rows(), self.row_count(), k)
        }
    }

    /// First cell of the row that chained block `k` lies in.
    pub open spec fn row_first_cell(&self, k: int) -> int {
        (k / self.columns()) * self.row_length()
    }

    /// Block `k` is scanned: its cells hold the row scan, all other cells are kept, and it is
    /// marked finished.
    pub open spec fn scanned_block(&self, next: &Task, k: int) -> bool {
        &&& next.output_view().len() == self.output_view().len()
        &&& forall|i: int|
            self.first_cell(k) <= i < self.end_cell(k) ==> #[trigger] next.output_view()[i] == row_scan(
                self.values(),
                self.row_length(),
            )[i]
        &&& forall|i: int|
            0 <= i < self.output_view().len() && !(self.first_cell(k) <= i < self.end_cell(k))
                ==> #[trigger] next.output_view()[i] == self.output_view()[i]
        &&& next.block_finished(k)
    }

    /// What a `Claim` step of worker `w` does: a fetch-add raises the low half of the work
    /// index by one. Where whole rows are grouped, the claimed group is scanned at once, or the
    /// worker leaves once the claim lies past the last group. On a chained grid the worker
    /// then works on a block, turns to row-wise help, or leaves.
    pub open spec fn claim_effect(&self, next: &Task, w: int) -> bool {
        let l = lo_of(self.work_index());
        &&& hi_of(next.work_index()) == hi_of(self.work_index())
        &&& lo_of(next.work_index()) == l + 1
        &&& if self.chained_grid() {
            &&& next.output_view() == self.output_view()
            &&& next.descriptors() == self.descriptors()
            &&& (next.phase(w) is Begin || next.phase(w) is Load || next.phase(w) is Done)
        } else if l < self.work_size() {
            &&& self.scanned_block(next, l)
            &&& next.descriptors() == self.descriptors()
            &&& next.phase(w) is Claim
        } else {
            &&& next.output_view() == self.output_view()
            &&& next.descriptors() == self.descriptors()
            &&& next.phase(w) is Done
        }
    }

    /// What a `Load` step of worker `w` does: it reads the work index and goes on to a
    /// compare-and-swap from what it read, to column-wise claiming, or leaves.
    pub open spec fn load_effect(&self, next: &Task, w: int) -> bool {
        &&& next.work_index() == self.work_index()
        &&& next.output_view() == self.output_view()
        &&& next.descriptors() == self.descriptors()
        &&& (next.phase(w) == (Phase::Cas { expected: self.work_index() }) || next.phase(w) is Claim
            || next.phase(w) is Done)
    }

    /// What a `Cas` step of worker `w` from `expected` does: on an unchanged work index it
    /// raises the high half by one and hands the worker the block of the old high half;
    /// otherwise it sends the worker back to read the index.
    pub open spec fn cas_effect(&self, next: &Task, w: int, expected: u32) -> bool {
        &&& next.output_view() == self.output_view()
        &&& next.descriptors() == self.descriptors()
        &&& if self.work_index() == expected {
            &&& next.work_index() == expected + 65536
            &&& next.phase(w) == (Phase::Begin { block: (expected / 65536) as u32 })
        } else {
            &&& next.work_index() == self.work_index()
            &&& next.phase(w) is Load
        }
    }

    /// What one step of worker `w` does, by its phase.
    pub open spec fn step_effect(&self, next: &Task, w: int) -> bool {
        match self.phase(w) {
            Phase::Claim => self.claim_effect(next, w),
            Phase::Load => self.load_effect(next, w),
            Phase::Cas { expected } => self.cas_effect(next, w, expected),
            Phase::Begin { block } => self.begin_effect(next, w, block as int),
            Phase::LookBack { block, previous, carry, local } => self.look_back_effect(
                next,
                w,
                block as int,
                previous as int,
                carry,
                local,
            ),
            Phase::Scan { block, carry } => self.finished_block(next, w, block as int, carry),
            Phase::Done => {
                &&& next.phase(w) is Done
                &&& next.work_index() == self.work_index()
                &&& next.output_view() == self.output_view()
                &&& next.descriptors() == self.descriptors()
            },
        }
    }

    /// What a `Begin` step of worker `w` on block `b` does. At the start of a row, or with the
    /// predecessor's prefix published, the block is finished at once from that prefix (from
    /// zero at a row start), and no aggregate is published. Otherwise the block's aggregate is
    /// published, state AGGREGATE_AVAILABLE, and the worker starts the walk back at `b - 1`.
    pub open spec fn begin_effect(&self, next: &Task, w: int, b: int) -> bool {
        if b % self.columns() == 0 || self.descriptors()[b - 1].state == STATE_PREFIX_AVAILABLE {
            self.finished_block(
                next,
                w,
                b,
                if b % self.columns() == 0 {
                    0u64
                } else {
                    self.descriptors()[b - 1].prefix
                },
            )
        } else {
            let local = wrap(sum(self.values(), self.first_cell(b), self.end_cell(b)));
            &&& next.descriptors() == self.descriptors().update(
                b,
                BlockInfo { state: STATE_AGGREGATE_AVAILABLE, aggregate: local, prefix: self.descriptors()[b].prefix },
            )
            &&& next.output_view() == self.output_view()
            &&& next.phase(w) == (Phase::LookBack { block: b as u32, previous: (b - 1) as u32, carry: 0, local })
            &&& next.work_index() == self.work_index()
        }
    }

    /// What a `LookBack` step of worker `w` does, at predecessor `previous` of block `b` with
    /// `carry` summed so far. A published prefix ends the walk: the block's own prefix (prefix
    /// plus carry plus its aggregate) is published, and the scan from prefix plus carry is left
    /// to the next step; a
    /// published aggregate joins the carry and the walk moves one block back; a predecessor
    /// that has published nothing leaves everything as it was.
    pub open spec fn look_back_effect(&self, next: &Task, w: int, b: int, previous: int, carry: u64, local: u64) -> bool {
        let d = self.descriptors()[previous];
        if d.state == STATE_PREFIX_AVAILABLE {
            let total = wrap(d.prefix + carry);
            &&& next.descriptors() == self.descriptors().update(
                b,
                BlockInfo {
                    state: STATE_PREFIX_AVAILABLE,
                    aggregate: self.descriptors()[b].aggregate,
                    prefix: wrap(total + sum(self.values(), self.first_cell(b), self.end_cell(b))),
                },
            )
            &&& next.descriptors()[b].prefix == wrap(sum(self.values(), self.row_first_cell(b), self.end_cell(b)))
            &&& next.output_view() == self.output_view()
            &&& next.phase(w) == (Phase::Scan { block: b as u32, carry: total })
            &&& next.work_index() == self.work_index()
        } else if d.state == STATE_AGGREGATE_AVAILABLE {
            &&& next.phase(w) == (Phase::LookBack {
                block: b as u32,
                previous: (previous - 1) as u32,
                carry: wrap(d.aggregate + carry),
                local,
            })
            &&& next.descriptors() == self.descriptors()
            &&& next.output_view() == self.output_view()
            &&& next.work_index() == self.work_index()
        } else {
            &&& next.phase(w) == self.phase(w)
            &&& next.descriptors() == self.descriptors()
            &&& next.output_view() == self.output_view()
            &&& next.work_index() == self.work_index()
        }
    }

    /// Chained block `k` of worker `w` is finished from `carry`: scanned, its descriptor alone
    /// moved to PREFIX_AVAILABLE with the row sum through the block (the aggregate field
    /// kept), and the worker back to claiming.
    pub open spec fn finished_block(&self, next: &Task, w: int, k: int, carry: u64) -> bool {
        &&& self.scanned_block(next, k)
        &&& forall|i: int|
            self.first_cell(k) <= i < self.end_cell(k) ==> #[trigger] next.output_view()[i] == wrap(
                carry + sum(self.values(), self.first_cell(k), i + 1),
            )
        &&& next.descriptors() == self.descriptors().update(
            k,
            BlockInfo {
                state: STATE_PREFIX_AVAILABLE,
                aggregate: self.descriptors()[k].aggregate,
                prefix: wrap(carry + sum(self.values(), self.first_cell(k), self.end_cell(k))),
            },
        )
        &&& next.descriptors()[k].prefix == wrap(sum(self.values(), self.row_first_cell(k), self.end_cell(k)))
        &&& (next.phase(w) is Load || next.phase(w) is Claim)
        &&& next.work_index() == self.work_index()
    }

    closed spec fn split_rows(&self) -> int {
        match self.split@ {
            Some(s) => (s + self.blocks_per_row - 1) / self.blocks_per_row as int,
            None => 0,
        }
    }

    closed spec fn rws(&self) -> int {
        match self.split@ {
            Some(s) => self.split_rows() * self.blocks_per_row,
            None => self.work_size as int,
        }
    }

    closed spec fn cws(&self) -> int {
        self.work_size - self.rws()
    }

    closed spec fn nr(&self) -> int {
        self.rows - self.split_rows()
    }

    closed spec fn col_slot(&self, k: int) -> int {
        (k % self.blocks_per_row as int) * self.nr() + (k / self.blocks_per_row as int - self.split_rows())
    }

    closed spec fn from_slot(&self, l: int) -> int {
        (self.split_rows() + l % self.nr()) * self.blocks_per_row + l / self.nr()
    }

    closed spec fn claimed(&self, k: int) -> bool {
        if self.chained {
            ||| k < hi_of(self.work_index)
            ||| (self.split@ is Some && self.rws() <= k < self.work_size && self.col_slot(k) < lo_of(
                self.work_index,
            ) && self.col_slot(k) < self.cws())
        } else {
            k < lo_of(self.work_index)
        }
    }

    /// How many blocks have been claimed.
    closed spec fn claimed_total(&self) -> int {
        if self.chained {
            match self.split@ {
                None => hi_of(self.work_index),
                Some(s) => hi_of(self.work_index) + if lo_of(self.work_index) < self.cws() {
                    lo_of(self.work_index)
                } else {
                    self.cws()
                },
            }
        } else if lo_of(self.work_index) < self.work_size {
            lo_of(self.work_index)
        } else {
            self.work_size as int
        }
    }

    /// How many blocks are still unclaimed.
    pub closed spec fn unclaimed_count(&self) -> int {
        self.work_size - self.claimed_total()
    }

    closed spec fn all_claimed(&self) -> bool {
        if self.chained {
            match self.split@ {
                None => hi_of(self.work_index) >= self.work_size,
                Some(s) => hi_of(self.work_index) >= self.rws() && lo_of(self.work_index) >= self.cws(),
            }
        } else {
            lo_of(self.work_index) >= self.work_size
        }
    }

    closed spec fn blk(&self, i: int) -> int {
        if self.chained {
            block_of(self.inner_size as int, self.blocks_per_row as int, i)
        } else {
            group_of(self.inner_size as int, self.rows_per_block as int, i)
        }
    }

    closed spec fn bstart(&self, k: int) -> int {
        block_start(self.inner_size as int, self.blocks_per_row as int, k)
    }

    closed spec fn bend(&self, k: int) -> int {
        block_end(self.inner_size as int, self.blocks_per_row as int, k)
    }

    closed spec fn row_of(&self, k: int) -> int {
        k / self.blocks_per_row as int
    }

    closed spec fn inv_shape(&self) -> bool {
        let n = self.orig@.len();
        &&& n == self.inner_size * self.rows
        &&& self.output@.len() == n
        &&& self.out0@.len() == n
        &&& self.writes@.len() == n
        &&& self.in_place ==> self.out0@ == self.orig@
        &&& !self.in_place ==> self.input@ == self.orig@
        &&& self.work_size < MAX_BLOCK_COUNT
        &&& self.done@.len() == self.work_size
        &&& self.owner@.len() == self.work_size
        &&& self.workers@.len() <= MAX_WORKERS
        &&& self.chained ==> {
            &&& self.inner_size > 4096
            &&& self.blocks_per_row == blocks_per_row(self.inner_size as int)
            &&& self.work_size == self.blocks_per_row * self.rows
            &&& self.temp@.len() == self.work_size
        }
        &&& !self.chained ==> {
            &&& self.rows_per_block >= 1
            &&& self.work_size == (self.rows + self.rows_per_block - 1) / self.rows_per_block as int
        }
    }

    closed spec fn inv_cells(&self) -> bool {
        &&& forall|i: int|
            0 <= i < self.output@.len() ==> #[trigger] self.output@[i] == if self.done@[self.blk(i)] {
                row_scan(self.orig@, self.inner_size as int)[i]
            } else {
                self.out0@[i]
            }
        &&& forall|i: int|
            0 <= i < self.writes@.len() ==> #[trigger] self.writes@[i] == if self.done@[self.blk(i)] {
                1nat
            } else {
                0nat
            }
    }

    closed spec fn inv_desc(&self) -> bool {
        self.chained ==> forall|k: int|
            0 <= k < self.work_size ==> {
                let d = #[trigger] self.temp@[k];
                &&& d.state <= 2
                &&& d.state == 1 ==> k % self.blocks_per_row as int != 0 && d.aggregate == wrap(
                    sum(self.orig@, self.bstart(k), self.bend(k)),
                )
                &&& d.state == 2 ==> d.prefix == wrap(
                    sum(self.orig@, self.row_of(k) * self.inner_size, self.bend(k)),
                )
                &&& d.state > 0 ==> self.claimed(k)
                &&& self.done@[k] ==> d.state == 2
            }
    }

    closed spec fn inv_claims(&self) -> bool {
        let hi = hi_of(self.work_index);
        let lo = lo_of(self.work_index);
        &&& self.overs@.finite()
        &&& forall|w: int| #[trigger] self.overs@.contains(w) ==> 0 <= w < self.workers@.len()
        &&& self.chained ==> match self.split@ {
            None => lo == 0 && hi <= self.work_size,
            Some(s) => {
                &&& 0 <= s <= self.work_size
                &&& s <= hi <= self.rws()
                &&& 1 <= lo <= self.cws() + self.overs@.len()
            },
        }
        &&& !self.chained ==> {
            &&& self.split@ is None
            &&& hi == 0
            &&& lo <= self.work_size + self.overs@.len()
        }
        &&& forall|w: int| #[trigger] self.overs@.contains(w) ==> (if self.chained {
            self.split@ is Some && lo >= self.cws()
        } else {
            lo >= self.work_size
        })
        &&& self.drained@ ==> self.all_claimed()
        &&& self.drained@ ==> self.empty
        &&& self.empty ==> self.claimed_total() >= self.work_size - 1
    }

    closed spec fn inv_owner(&self) -> bool {
        forall|k: int|
            0 <= k < self.work_size ==> {
                &&& (#[trigger] self.done@[k] ==> self.claimed(k))
                &&& (self.claimed(k) && !self.done@[k] ==> {
                    &&& self.chained
                    &&& 0 <= self.owner@[k] < self.workers@.len()
                    &&& working_on(self.workers@[self.owner@[k]].phase) == Some(k)
                })
            }
    }

    closed spec fn inv_worker(&self, w: int) -> bool {
        let wk = self.workers@[w];
        &&& wk.seen ==> {
            &&& self.split@ is Some
            &&& wk.rows_done == self.split_rows()
            &&& wk.row_work == self.rws()
            &&& wk.col_work == self.cws()
        }
        &&& !wk.seen ==> wk.row_work == self.work_size && wk.col_work == 0
        &&& !self.chained ==> (wk.phase is Claim || wk.phase is Done)
        &&& match wk.phase {
            Phase::Claim => !self.overs@.contains(w),
            Phase::Load => true,
            Phase::Cas { expected } => {
                &&& lo_of(expected) == 0 ==> hi_of(expected) < self.work_size
                &&& lo_of(expected) > 0 ==> wk.seen && hi_of(expected) < self.rws()
            },
            Phase::Begin { block } => {
                &&& block < self.work_size
                &&& self.claimed(block as int)
                &&& !self.done@[block as int]
                &&& self.owner@[block as int] == w
                &&& self.temp@[block as int].state == 0
                &&& (wk.rowwise || !self.overs@.contains(w))
            },
            Phase::LookBack { block, previous, carry, local } => {
                &&& block < self.work_size
                &&& self.claimed(block as int)
                &&& !self.done@[block as int]
                &&& self.owner@[block as int] == w
                &&& self.temp@[block as int].state == 1
                &&& self.temp@[block as int].aggregate == local
                &&& previous < block
                &&& self.row_of(previous as int) == self.row_of(block as int)
                &&& carry == wrap(sum(self.orig@, self.bend(previous as int), self.bstart(block as int)))
                &&& (wk.rowwise || !self.overs@.contains(w))
            },
            Phase::Scan { block, carry } => {
                &&& block < self.work_size
                &&& self.claimed(block as int)
                &&& !self.done@[block as int]
                &&& self.owner@[block as int] == w
                &&& self.temp@[block as int].state == 2
                &&& carry == wrap(sum(self.orig@, self.row_of(block as int) * self.inner_size, self.bstart(block as int)))
                &&& (wk.rowwise || !self.overs@.contains(w))
            },
            Phase::Done => self.drained@,
        }
    }

    /// The task's internal invariant: the shape of the grid, the cells, the descriptors, the
    /// claims on the work index and the state of every worker agree.
    pub closed spec fn inv(&self) -> bool {
        &&& self.inv_shape()
        &&& self.inv_cells()
        &&& self.inv_desc()
        &&& self.inv_claims()
        &&& self.inv_owner()
        &&& forall|w: int| 0 <= w < self.workers@.len() ==> #[trigger] self.inv_worker(w)
    }
}

/// Rows left to the row-wise order once column-wise claiming begins at row-wise count `s`:
/// every row that the row-wise order has started.
pub open spec fn ceil_div(s: int, c: int) -> int {
    (s + c - 1) / c
}

proof fn lemma_ceil_bounds(s: int, c: int)
    requires
        c >= 1,
        s >= 0,
    ensures
        ceil_div(s, c) >= 0,
        ceil_div(s, c) * c >= s,
        s > 0 ==> (ceil_div(s, c) - 1) * c < s,
        s == 0 ==> ceil_div(s, c) == 0,
{
    let q = ceil_div(s, c);
    lemma_fundamental_div_mod(s + c - 1, c);
    assert(q * c == c * q) by (nonlinear_arith);
    assert((q - 1) * c == q * c - c) by (nonlinear_arith);
    if s == 0 {
        assert(0 * c == 0);
        assert(c - 1 == 0 * c + (c - 1));
        lemma_fundamental_div_mod_converse(c - 1, c, 0, c - 1);
    }
    assert(q >= 0) by (nonlinear_arith)
        requires
            s + c - 1 == c * q + (s + c - 1) % c,
            (s + c - 1) % c < c,
            s >= 0,
            c >= 1,
    ;
}

/// Once the split is fixed, every row-wise count up to the end of the split row gives the
/// same number of rows for the row-wise order.
proof fn lemma_ceil_stable(c: int, s: int, h: int)
    requires
        c >= 1,
        0 <= s <= h <= ceil_div(s, c) * c,
    ensures
        ceil_div(h, c) == ceil_div(s, c),
{
    let q = ceil_div(s, c);
    lemma_ceil_bounds(s, c);
    lemma_ceil_bounds(h, c);
    let qh = ceil_div(h, c);
    if s == 0 {
        assert(h == 0) by (nonlinear_arith)
            requires
                q == 0,
                h <= q * c,
                h >= 0,
        ;
    } else {
        assert(qh * c >= h);
        assert((qh - 1) * c < h);
        assert(qh >= q) by (nonlinear_arith)
            requires
                qh * c >= h,
                h >= s,
                (q - 1) * c < s,
                c >= 1,
        ;
        assert(qh <= q) by (nonlinear_arith)
            requires
                (qh - 1) * c < h,
                h <= q * c,
                c >= 1,
        ;
    }
}

/// The block of column-wise slot `l`, over the rows from `q` on, column by column.
pub open spec fn slot_block(c: int, m: int, q: int, l: int) -> int {
    (q + l % (m - q)) * c + l / (m - q)
}

/// The column-wise slot of block `k`.
pub open spec fn block_slot(c: int, m: int, q: int, k: int) -> int {
    (k % c) * (m - q) + (k / c - q)
}

proof fn lemma_slot_block(c: int, m: int, q: int, l: int)
    requires
        c >= 1,
        0 <= q < m,
        0 <= l < (m - q) * c,
    ensures
        q * c <= slot_block(c, m, q, l) < c * m,
        block_slot(c, m, q, slot_block(c, m, q, l)) == l,
        slot_block(c, m, q, l) % c == l / (m - q),
        slot_block(c, m, q, l) / c == q + l % (m - q),
{
    let nr = m - q;
    lemma_fundamental_div_mod(l, nr);
    let row = q + l % nr;
    let col = l / nr;
    assert(col < c) by (nonlinear_arith)
        requires
            l == nr * col + l % nr,
            l % nr >= 0,
            l < nr * c,
            nr > 0,
    ;
    assert(col >= 0) by (nonlinear_arith)
        requires
            l == nr * col + l % nr,
            l % nr < nr,
            l >= 0,
            nr > 0,
    ;
    let k = row * c + col;
    lemma_fundamental_div_mod_converse(k, c, row, col);
    assert(q * c <= k) by (nonlinear_arith)
        requires
            row >= q,
            col >= 0,
            k == row * c + col,
            c >= 1,
    ;
    assert(k < c * m) by (nonlinear_arith)
        requires
            row <= m - 1,
            col < c,
            k == row * c + col,
            c >= 1,
    ;
    assert(col * nr + (row - q) == l) by (nonlinear_arith)
        requires
            l == nr * col + l % nr,
            row == q + l % nr,
    ;
}

proof fn lemma_block_slot(c: int, m: int, q: int, k: int)
    requires
        c >= 1,
        0 <= q <= m,
        q * c <= k < c * m,
    ensures
        0 <= block_slot(c, m, q, k) < (m - q) * c,
        q < m,
        slot_block(c, m, q, block_slot(c, m, q, k)) == k,
{
    let nr = m - q;
    lemma_fundamental_div_mod(k, c);
    let row = k / c;
    let col = k % c;
    assert(row >= q) by (nonlinear_arith)
        requires
            k == c * row + col,
            col < c,
            q * c <= k,
            c >= 1,
    ;
    assert(row < m) by (nonlinear_arith)
        requires
            k == c * row + col,
            col >= 0,
            k < c * m,
            c >= 1,
    ;
    let l = col * nr + (row - q);
    lemma_fundamental_div_mod_converse(l, nr, col, row - q);
    assert(col * nr <= (c - 1) * nr) by (nonlinear_arith)
        requires
            col <= c - 1,
            nr > 0,
    ;
    assert((c - 1) * nr + nr == nr * c) by (nonlinear_arith);
    assert(l < nr * c);
    assert(l >= 0) by (nonlinear_arith)
        requires
            l == col * nr + (row - q),
            col >= 0,
            row - q >= 0,
            nr > 0,
    ;
    assert(nr * c == (m - q) * c);
    assert(k == row * c + col) by (nonlinear_arith)
        requires
            k == c * row + col,
    ;
}

impl Task {
    proof fn lemma_blk_in_range(&self, i: int)
        requires
            self.inv_shape(),
            0 <= i < self.orig@.len(),
        ensures
            0 <= self.blk(i) < self.work_size,
    {
        let r = self.inner_size as int;
        let m = self.rows as int;
        assert(r > 0) by (nonlinear_arith)
            requires
                0 <= i < r * m,
                m >= 0,
        ;
        lemma_fundamental_div_mod(i, r);
        assert(i / r < m) by (nonlinear_arith)
            requires
                i == r * (i / r) + i % r,
                i % r >= 0,
                i < r * m,
                r > 0,
        ;
        assert(i / r >= 0) by (nonlinear_arith)
            requires
                i == r * (i / r) + i % r,
                i % r < r,
                i >= 0,
        ;
        if self.chained {
            let c = self.blocks_per_row as int;
            lemma_blocks_per_row(r);
            let t = i % r;
            lemma_fundamental_div_mod(t, 4096);
            assert(t / 4096 < c) by (nonlinear_arith)
                requires
                    t < r,
                    c * 4096 >= r,
                    t == 4096 * (t / 4096) + t % 4096,
                    t % 4096 >= 0,
            ;
            assert((i / r) * c <= (m - 1) * c) by (nonlinear_arith)
                requires
                    i / r <= m - 1,
                    c >= 1,
            ;
            assert((m - 1) * c + c == c * m) by (nonlinear_arith);
            assert((i / r) * c + t / 4096 >= 0) by (nonlinear_arith)
                requires
                    i / r >= 0,
                    t / 4096 >= 0,
                    c >= 1,
            ;
        } else {
            let p = self.rows_per_block as int;
            let q = i / r;
            lemma_fundamental_div_mod(q, p);
            lemma_fundamental_div_mod(m + p - 1, p);
            assert(q / p < (m + p - 1) / p) by (nonlinear_arith)
                requires
                    q == p * (q / p) + q % p,
                    q % p >= 0,
                    q < m,
                    m + p - 1 == p * ((m + p - 1) / p) + (m + p - 1) % p,
                    (m + p - 1) % p < p,
                    p >= 1,
            ;
            assert(q / p >= 0) by (nonlinear_arith)
                requires
                    q == p * (q / p) + q % p,
                    q % p < p,
                    q >= 0,
                    p >= 1,
            ;
        }
    }

    proof fn lemma_all_claimed(&self, k: int)
        requires
            self.inv_shape(),
            self.inv_claims(),
            self.all_claimed(),
            0 <= k < self.work_size,
        ensures
            self.claimed(k),
    {
        if self.chained {
            if let Some(s) = self.split@ {
                let c = self.blocks_per_row as int;
                let m = self.rows as int;
                lemma_blocks_per_row(self.inner_size as int);
                lemma_ceil_bounds(s, c);
                let q = ceil_div(s, c);
                if s > 0 {
                    assert(q <= m) by (nonlinear_arith)
                        requires
                            (q - 1) * c < s,
                            s <= c * m,
                            c >= 1,
                    ;
                }
                if k >= self.rws() {
                    assert(self.cws() == (m - q) * c) by (nonlinear_arith)
                        requires
                            self.cws() == c * m - q * c,
                    ;
                    lemma_block_slot(c, m, q, k);
                }
            }
        }
    }

    /// Whether every worker that entered has left.
    pub fn is_finished(&self) -> (r: bool)
        ensures
            r == self.finished(),
    {
        let n = self.workers.len();
        if n == 0 {
            return false;
        }
        let mut i: usize = 0;
        while i < n
            invariant
                n == self.workers@.len(),
                i <= n,
                forall|w: int| 0 <= w < i ==> self.has_left(w),
            decreases n - i,
        {
            match self.workers[i].phase {
                Phase::Done => {},
                _ => {
                    assert(!self.has_left(i as int));
                    return false;
                },
            }
            i = i + 1;
        }
        true
    }

    /// The cells that receive the scan.
    pub fn output(&self) -> (r: &Vec<u64>)
        ensures
            r@ == self.output_view(),
    {
        &self.output
    }

    /// The descriptor array.
    pub fn temp(&self) -> (r: &Vec<BlockInfo>)
        ensures
            r@ == self.descriptors(),
    {
        &self.temp
    }

    /// Whether a claim has signalled that the work is drained: at most one block is left
    /// unclaimed.
    pub fn is_empty(&self) -> (r: bool)
        requires
            self.inv(),
        ensures
            r == self.empty_signalled(),
            r ==> self.unclaimed_count() <= 1,
    {
        self.empty
    }

    /// Hands back the output cells and the descriptor array.
    pub fn into_parts(self) -> (r: (Vec<u64>, Vec<BlockInfo>))
        ensures
            r.0@ == self.output_view(),
            r.1@ == self.descriptors(),
    {
        (self.output, self.temp)
    }

    /// Once every worker has left, each cell holds the inclusive sum of its row up to it, was
    /// written exactly once, and every descriptor of a chained grid has its prefix published.
    pub proof fn lemma_finished_output(&self)
        requires
            self.inv(),
            self.finished(),
        ensures
            self.output_view() == row_scan(self.values(), self.row_length()),
            forall|i: int| 0 <= i < self.output_view().len() ==> #[trigger] self.write_counts()[i] == 1,
            self.chained_grid() ==> forall|k: int|
                0 <= k < self.descriptors().len() ==> #[trigger] self.descriptors()[k].state == STATE_PREFIX_AVAILABLE
                    && self.descriptors()[k].prefix == wrap(sum(self.values(), self.row_first_cell(k), self.end_cell(k))),
    {
        assert(self.has_left(0));
        assert(self.inv_worker(0));
        assert forall|k: int| 0 <= k < self.work_size implies #[trigger] self.done@[k] by {
            self.lemma_all_claimed(k);
            if !self.done@[k] {
                let w = self.owner@[k];
                assert(self.has_left(w));
            }
        }
        assert forall|i: int| 0 <= i < self.output_view().len() implies #[trigger] self.output_view()[i]
            == row_scan(self.values(), self.row_length())[i] && self.write_counts()[i] == 1 by {
            self.lemma_blk_in_range(i);
            assert(self.done@[self.blk(i)]);
            assert(self.output@[i] == if self.done@[self.blk(i)] {
                row_scan(self.orig@, self.inner_size as int)[i]
            } else {
                self.out0@[i]
            });
            assert(self.writes@[i] == if self.done@[self.blk(i)] {
                1nat
            } else {
                0nat
            });
        }
        assert(self.output_view() =~= row_scan(self.values(), self.row_length()));
        assert forall|i: int| 0 <= i < self.output_view().len() implies #[trigger] self.write_counts()[i] == 1 by {
            assert(self.output_view()[i] == row_scan(self.values(), self.row_length())[i]);
        }
        if self.chained {
            assert forall|k: int| 0 <= k < self.descriptors().len() implies #[trigger] self.descriptors()[k].state
                == STATE_PREFIX_AVAILABLE && self.descriptors()[k].prefix == wrap(
                sum(self.values(), self.row_first_cell(k), self.end_cell(k)),
            ) by {
                assert(self.done@[k]);
                assert(self.temp@[k] == self.temp@[k]);
            }
        }
    }
}

impl Task {
    pub(crate) fn build(
        input: Vec<u64>,
        output: Vec<u64>,
        in_place: bool,
        temp: Vec<BlockInfo>,
        inner_size: usize,
        rows: usize,
        order: Order,
        whole_rows: bool,
        orig: Ghost<Seq<u64>>,
    ) -> (r: Task)
        requires
            orig@.len() == inner_size * rows,
            output@.len() == orig@.len(),
            in_place ==> output@ == orig@,
            !in_place ==> input@ == orig@,
            whole_rows ==> rows < MAX_BLOCK_COUNT,
            !whole_rows ==> block_count(inner_size as int, rows as int) < MAX_BLOCK_COUNT,
            !whole_rows ==> temp@.len() == blocks_per_row(inner_size as int) * rows,
            forall|i: int| 0 <= i < temp@.len() ==> is_initial(#[trigger] temp@[i]),
        ensures
            r.inv(),
            r.values() == orig@,
            r.output_view() == output@,
            r.row_length() == inner_size,
            r.descriptors() == temp@,
            r.worker_count() == 0,
            r.scans_in_place() == in_place,
            r.row_count() == rows,
            r.claim_order() == order,
            r.chained_grid() == (!whole_rows && is_chained(inner_size as int)),
            whole_rows ==> r.work_size() == rows && r.group_rows() == 1,
            !whole_rows ==> r.work_size() == block_count(inner_size as int, rows as int),
            !whole_rows && !is_chained(inner_size as int) ==> r.group_rows() == rows_per_block(inner_size as int),
            forall|i: int| 0 <= i < r.write_counts().len() ==> #[trigger] r.write_counts()[i] == 0,
    {
        let ghost r = inner_size as int;
        let ghost m = rows as int;
        let per_row: usize = if inner_size == 0 {
            0
        } else {
            (inner_size - 1) / 4096 + 1
        };
        proof {
            if inner_size > 0 {
                lemma_blocks_per_row(r);
                vstd::arithmetic::div_mod::lemma_div_plus_one((inner_size - 1) as int, 4096);
                assert(per_row == blocks_per_row(r));
            } else {
                assert(blocks_per_row(0) == 0);
            }
        }
        let chained = per_row > 1 && !whole_rows;
        let per_block: usize = if whole_rows {
            1
        } else if inner_size > 0 && inner_size < 2048 {
            4096 / inner_size
        } else {
            1
        };
        proof {
            if inner_size > 0 && inner_size < 2048 {
                vstd::arithmetic::div_mod::lemma_div_is_ordered(inner_size as int, 4096, inner_size as int);
                vstd::arithmetic::div_mod::lemma_div_basics(inner_size as int);
            }
            assert(!whole_rows ==> per_block == rows_per_block(r));
            assert(!whole_rows ==> chained == is_chained(r));
        }
        let work_size: u32 = if chained {
            proof {
                lemma_blocks_per_row(r);
                assert(per_row * m <= r * m) by (nonlinear_arith)
                    requires
                        per_row <= r,
                        m >= 0,
                ;
            }
            (per_row * rows) as u32
        } else {
            proof {
                let p = per_block as int;
                let w = (m + p - 1) / p;
                lemma_fundamental_div_mod(m + p - 1, p);
                assert(m + p - 1 < p * 32768) by (nonlinear_arith)
                    requires
                        m + p - 1 == p * w + (m + p - 1) % p,
                        (m + p - 1) % p < p,
                        w < 32768,
                        p >= 1,
                ;
                assert(p <= 4096);
            }
            ((rows + per_block - 1) / per_block) as u32
        };
        let ghost n = orig@.len();
        let task = Task {
            input,
            output,
            in_place,
            temp,
            inner_size,
            rows,
            blocks_per_row: per_row,
            rows_per_block: per_block,
            chained,
            order,
            work_size,
            work_index: 0,
            empty: false,
            workers: Vec::new(),
            orig,
            out0: Ghost(output@),
            done: Ghost(Seq::new(work_size as nat, |k: int| false)),
            writes: Ghost(Seq::new(n, |i: int| 0nat)),
            owner: Ghost(Seq::new(work_size as nat, |k: int| 0int)),
            split: Ghost(None),
            overs: Ghost(Set::empty()),
            drained: Ghost(false),
        };
        proof {
            assert(task.inv_shape());
            assert forall|i: int| 0 <= i < task.output@.len() implies #[trigger] task.output@[i] == if task.done@[task.blk(i)] {
                row_scan(task.orig@, task.inner_size as int)[i]
            } else {
                task.out0@[i]
            } by {
                task.lemma_blk_in_range(i);
            }
            assert forall|i: int| 0 <= i < task.writes@.len() implies #[trigger] task.writes@[i] == if task.done@[task.blk(i)] {
                1nat
            } else {
                0nat
            } by {
                task.lemma_blk_in_range(i);
            }
            assert(task.inv_cells());
            assert(task.inv_desc());
            assert(task.inv_claims());
            assert(task.inv_owner());
            if whole_rows {
                vstd::arithmetic::div_mod::lemma_div_basics(rows as int);
            }
        }
        task
    }
}

impl Task {
    /// A worker enters the task; returns its index. The first to enter begins in row-wise
    /// order, the others claim column-wise.
    pub fn arrive(&mut self) -> (r: usize)
        requires
            old(self).inv(),
            old(self).worker_count() < MAX_WORKERS,
        ensures
            final(self).inv(),
            r == old(self).worker_count(),
            final(self).worker_count() == old(self).worker_count() + 1,
            final(self).values() == old(self).values(),
            final(self).output_view() == old(self).output_view(),
            final(self).descriptors() == old(self).descriptors(),
            final(self).row_length() == old(self).row_length(),
            final(self).scans_in_place() == old(self).scans_in_place(),
            final(self).write_counts() == old(self).write_counts(),
            final(self).work_index() == old(self).work_index(),
            forall|v: int| 0 <= v < r ==> final(self).phase(v) == old(self).phase(v),
            final(self).phase(r as int) == if old(self).chained_grid() && (old(self).claim_order() == Order::RowWise || (
            old(self).claim_order() == Order::Adaptive && r == 0)) {
                Phase::Load
            } else {
                Phase::Claim
            },
    {
        let n = self.workers.len();
        let rowwise = self.chained && match self.order {
            Order::Adaptive => n == 0,
            Order::RowWise => true,
            Order::ColumnWise => false,
        };
        let worker = Worker {
            phase: if rowwise {
                Phase::Load
            } else {
                Phase::Claim
            },
            rowwise,
            seen: false,
            rows_done: 0,
            row_work: self.work_size,
            col_work: 0,
        };
        self.workers.push(worker);
        proof {
            let ghost t = *self;
            assert(t.inv_shape());
            assert(t.inv_claims());
            assert(t.inv_owner());
            assert forall|w: int| 0 <= w < t.workers@.len() implies #[trigger] t.inv_worker(w) by {
                if w < n {
                    assert(old(self).inv_worker(w));
                    assert(t.workers@[w] == old(self).workers@[w]);
                }
            }
        }
        n
    }
}

proof fn lemma_word_add(x: u32, d: int)
    requires
        d == 1 || d == 65536,
        d == 1 ==> lo_of(x) < 65535,
        x + d <= u32::MAX,
    ensures
        d == 1 ==> hi_of((x + d) as u32) == hi_of(x) && lo_of((x + d) as u32) == lo_of(x) + 1,
        d == 65536 ==> hi_of((x + d) as u32) == hi_of(x) + 1 && lo_of((x + d) as u32) == lo_of(x),
{
    lemma_fundamental_div_mod(x as int, 65536);
    if d == 1 {
        lemma_fundamental_div_mod_converse(x + 1, 65536, hi_of(x), lo_of(x) + 1);
    } else {
        lemma_fundamental_div_mod_converse(x + 65536, 65536, hi_of(x) + 1, lo_of(x));
    }
}

impl Task {
    /// What every step keeps: the values, the shape and the workers; descriptor states and
    /// write counts only grow.
    pub open spec fn step_keeps(&self, next: &Task) -> bool {
        &&& next.worker_count() == self.worker_count()
        &&& next.values() == self.values()
        &&& next.row_length() == self.row_length()
        &&& next.scans_in_place() == self.scans_in_place()
        &&& next.descriptors().len() == self.descriptors().len()
        &&& forall|k: int|
            0 <= k < self.descriptors().len() ==> self.descriptors()[k].state
                <= #[trigger] next.descriptors()[k].state
        &&& next.write_counts().len() == self.write_counts().len()
        &&& forall|i: int|
            0 <= i < self.write_counts().len() ==> self.write_counts()[i]
                <= #[trigger] next.write_counts()[i]
    }

    proof fn lemma_overs_bound(&self)
        requires
            self.inv_shape(),
            self.inv_claims(),
        ensures
            self.overs@.len() <= self.workers@.len(),
    {
        vstd::set_lib::lemma_int_range(0, self.workers@.len() as int);
        vstd::set_lib::lemma_len_subset(self.overs@, vstd::set_lib::set_int_range(0, self.workers@.len() as int));
    }

    proof fn lemma_split_facts(&self)
        requires
            self.inv_shape(),
            self.inv_claims(),
            self.chained,
            self.split@ is Some,
        ensures
            0 <= self.split_rows() <= self.rows,
            self.rws() == self.split_rows() * self.blocks_per_row,
            self.cws() == (self.rows - self.split_rows()) * self.blocks_per_row,
            0 <= self.rws() <= self.work_size,
            self.cws() >= 0,
    {
        let c = self.blocks_per_row as int;
        let m = self.rows as int;
        let s = self.split@->0;
        lemma_blocks_per_row(self.inner_size as int);
        lemma_ceil_bounds(s, c);
        let q = ceil_div(s, c);
        if s > 0 {
            assert(q <= m) by (nonlinear_arith)
                requires
                    (q - 1) * c < s,
                    s <= c * m,
                    c >= 1,
            ;
        }
        assert(q * c <= c * m) by (nonlinear_arith)
            requires
                q <= m,
                c >= 1,
        ;
        assert(q * c >= 0) by (nonlinear_arith)
            requires
                q >= 0,
                c >= 1,
        ;
        assert(c * m - q * c == (m - q) * c) by (nonlinear_arith);
    }

    /// Row-wise: read the work index and decide whether to claim row-wise, column-wise, or
    /// leave.
    fn step_load(&mut self, w: usize)
        requires
            old(self).inv(),
            w < old(self).worker_count(),
            old(self).workers@[w as int].phase is Load,
        ensures
            final(self).inv(),
            old(self).step_keeps(final(self)),
            old(self).load_effect(final(self), w as int),
    {
        proof {
            assert(self.inv_worker(w as int));
            self.lemma_overs_bound();
            if self.split@ is Some {
                self.lemma_split_facts();
            }
        }
        let ghost prev = *self;
        let word = self.work_index;
        let h = word / 65536;
        let l = word % 65536;
        let mut wk = self.workers[w];
        if l > 0 && !wk.seen {
            proof {
                let c = self.blocks_per_row as int;
                lemma_blocks_per_row(self.inner_size as int);
                lemma_ceil_stable(c, self.split@->0, h as int);
                lemma_ceil_bounds(h as int, c);
            }
            let rows_done = (h as usize + self.blocks_per_row - 1) / self.blocks_per_row;
            proof {
                assert(self.rows as int <= self.work_size) by (nonlinear_arith)
                    requires
                        self.work_size == self.blocks_per_row * self.rows,
                        self.blocks_per_row >= 1,
                ;
            }
            wk.seen = true;
            wk.rows_done = rows_done as u32;
            wk.row_work = (rows_done * self.blocks_per_row) as u32;
            wk.col_work = self.work_size - wk.row_work;
        }
        let row_part = if h < wk.row_work {
            h
        } else {
            wk.row_work
        };
        let col_part = if l < wk.col_work {
            l
        } else {
            wk.col_work
        };
        let claimed = row_part + col_part + 1;
        if claimed > self.work_size {
            wk.phase = Phase::Done;
            self.drained = Ghost(true);
            self.empty = true;
        } else {
            if claimed == self.work_size {
                self.empty = true;
            }
            if !wk.seen || h < wk.row_work {
                wk.phase = Phase::Cas { expected: word };
            } else {
                wk.phase = Phase::Claim;
            }
        }
        self.workers.set(w, wk);
        proof {
            let t = *self;
            assert(t.inv_shape());
            assert(t.inv_cells());
            assert(t.inv_desc()) by {
                assert forall|k: int| 0 <= k < t.work_size implies t.claimed(k) == prev.claimed(k) by {}
            }
            assert(t.inv_claims());
            assert(t.inv_owner()) by {
                assert forall|k: int| 0 <= k < t.work_size && #[trigger] t.claimed(k) && !t.done@[k] implies
                    t.owner@[k] != w by {
                    assert(prev.inv_owner());
                    assert(prev.claimed(k) && !prev.done@[k]);
                }
            }
            assert forall|v: int| 0 <= v < t.workers@.len() implies #[trigger] t.inv_worker(v) by {
                if v != w {
                    assert(prev.inv_worker(v));
                }
            }
        }
    }

    /// Row-wise: claim the next row-wise block if the work index still reads `expected`.
    fn step_cas(&mut self, w: usize)
        requires
            old(self).inv(),
            w < old(self).worker_count(),
            old(self).workers@[w as int].phase is Cas,
        ensures
            final(self).inv(),
            old(self).step_keeps(final(self)),
            old(self).cas_effect(final(self), w as int, old(self).phase(w as int)->Cas_expected),
    {
        proof {
            assert(self.inv_worker(w as int));
            self.lemma_overs_bound();
            if self.split@ is Some {
                self.lemma_split_facts();
            }
        }
        let mut wk = self.workers[w];
        let expected = match wk.phase {
            Phase::Cas { expected } => expected,
            _ => 0,
        };
        let ghost prev = *self;
        if self.work_index == expected {
            let block = expected / 65536;
            proof {
                lemma_word_add(expected, 65536);
                assert(!prev.claimed(block as int));
                assert(prev.temp@[block as int].state == 0);
            }
            self.work_index = expected + 65536;
            self.owner = Ghost(self.owner@.update(block as int, w as int));
            wk.phase = Phase::Begin { block };
            wk.rowwise = true;
            self.workers.set(w, wk);
            proof {
                let t = *self;
                assert forall|k: int| 0 <= k < t.work_size implies #[trigger] t.claimed(k) == (prev.claimed(k) || k == block) by {}
                assert(t.inv_shape());
                assert(t.inv_cells());
                assert(t.inv_desc());
                assert(t.inv_claims());
                assert(t.inv_owner()) by {
                    assert forall|k: int| 0 <= k < t.work_size implies {
                        &&& (#[trigger] t.done@[k] ==> t.claimed(k))
                        &&& (t.claimed(k) && !t.done@[k] ==> {
                            &&& t.chained
                            &&& 0 <= t.owner@[k] < t.workers@.len()
                            &&& working_on(t.workers@[t.owner@[k]].phase) == Some(k)
                        })
                    } by {
                        if k != block && prev.claimed(k) && !prev.done@[k] {
                            assert(prev.owner@[k] != w);
                        }
                    }
                }
                assert forall|v: int| 0 <= v < t.workers@.len() implies #[trigger] t.inv_worker(v) by {
                    if v != w {
                        assert(prev.inv_worker(v));
                        if let Some(b) = working_on(prev.workers@[v].phase) {
                            assert(prev.claimed(b));
                            assert(b != block);
                        }
                    }
                }
            }
        } else {
            wk.phase = Phase::Load;
            self.workers.set(w, wk);
            proof {
                let t = *self;
                assert(t.inv_desc()) by {
                    assert forall|k: int| 0 <= k < t.work_size implies t.claimed(k) == prev.claimed(k) by {}
                }
                assert(t.inv_owner()) by {
                    assert forall|k: int| 0 <= k < t.work_size && #[trigger] t.claimed(k) && !t.done@[k] implies
                        t.owner@[k] != w by {
                        assert(prev.inv_owner());
                        assert(prev.claimed(k) && !prev.done@[k]);
                    }
                }
                assert forall|v: int| 0 <= v < t.workers@.len() implies #[trigger] t.inv_worker(v) by {
                    if v != w {
                        assert(prev.inv_worker(v));
                    }
                }
            }
        }
    }
}

proof fn lemma_group_rows(m: int, p: int, k: int)
    requires
        p >= 1,
        0 <= k < (m + p - 1) / p,
    ensures
        0 <= k * p < m,
{
    lemma_fundamental_div_mod(m + p - 1, p);
    assert(k * p < m) by (nonlinear_arith)
        requires
            k < (m + p - 1) / p,
            m + p - 1 == p * ((m + p - 1) / p) + (m + p - 1) % p,
            (m + p - 1) % p >= 0,
            p >= 1,
            k >= 0,
    ;
    assert(k * p >= 0) by (nonlinear_arith)
        requires
            k >= 0,
            p >= 1,
    ;
}

/// Scans the cells `[start, end)` from `carry`, reading them from `output` itself when
/// `in_place`, else from `input`; either way the cells read hold `orig`.
fn scan_cells(
    input: &Vec<u64>,
    output: &mut Vec<u64>,
    in_place: bool,
    start: usize,
    end: usize,
    carry: u64,
    orig: Ghost<Seq<u64>>,
) -> (r: u64)
    requires
        start <= end <= old(output)@.len(),
        orig@.len() == old(output)@.len(),
        in_place ==> forall|i: int| start <= i < end ==> old(output)@[i] == orig@[i],
        !in_place ==> input@ == orig@,
    ensures
        final(output)@.len() == old(output)@.len(),
        forall|i: int| start <= i < end ==> final(output)@[i] == wrap(carry + sum(orig@, start as int, i + 1)),
        forall|i: int|
            0 <= i < old(output)@.len() && !(start <= i < end) ==> final(output)@[i] == old(output)@[i],
        r == wrap(carry + sum(orig@, start as int, end as int)),
{
    if in_place {
        let ghost before = output@;
        let r = scan_range_in_place(output, start, end, carry);
        proof {
            assert forall|i: int| start <= i <= end implies sum(before, start as int, i) == sum(orig@, start as int, i) by {
                lemma_sum_agree(before, orig@, start as int, i);
            }
        }
        r
    } else {
        scan_range(input, output, start, end, carry)
    }
}

/// Scanning a block of row `row` from the row's sum up to the block start gives the row scan.
proof fn lemma_row_cells(orig: Seq<u64>, r: int, row: int, start: int, carry: u64, i: int)
    requires
        r > 0,
        0 <= row,
        0 <= row * r <= start <= i < row * r + r,
        carry == wrap(sum(orig, row * r, start)),
        i < orig.len(),
    ensures
        wrap(carry + sum(orig, start, i + 1)) == row_scan(orig, r)[i],
{
    lemma_row_start(i, r, row);
    lemma_wrap_add(sum(orig, row * r, start), sum(orig, start, i + 1));
    lemma_sum_split(orig, row * r, start, i + 1);
}

/// Scans rows `[first_row, end_row)` of length `r`, each from zero.
fn scan_group(
    input: &Vec<u64>,
    output: &mut Vec<u64>,
    in_place: bool,
    r: usize,
    first_row: usize,
    end_row: usize,
    orig: Ghost<Seq<u64>>,
)
    requires
        first_row <= end_row,
        end_row * r <= old(output)@.len(),
        orig@.len() == old(output)@.len(),
        in_place ==> forall|i: int| first_row * r <= i < end_row * r ==> old(output)@[i] == orig@[i],
        !in_place ==> input@ == orig@,
    ensures
        final(output)@.len() == old(output)@.len(),
        forall|i: int| first_row * r <= i < end_row * r ==> final(output)@[i] == row_scan(orig@, r as int)[i],
        forall|i: int|
            0 <= i < old(output)@.len() && !(first_row * r <= i < end_row * r) ==> final(output)@[i] == old(output)@[i],
{
    let len = output.len();
    let mut j: usize = first_row;
    proof {
        assert(first_row * r <= end_row * r) by (nonlinear_arith)
            requires
                first_row <= end_row,
        ;
    }
    while j < end_row
        invariant
            len == output@.len(),
            first_row <= j <= end_row,
            end_row * r <= output@.len(),
            first_row * r <= j * r <= end_row * r,
            output@.len() == old(output)@.len(),
            orig@.len() == output@.len(),
            in_place ==> forall|i: int| j * r <= i < end_row * r ==> output@[i] == orig@[i],
            !in_place ==> input@ == orig@,
            forall|i: int| first_row * r <= i < j * r ==> output@[i] == row_scan(orig@, r as int)[i],
            forall|i: int|
                0 <= i < output@.len() && !(first_row * r <= i < j * r) ==> (#[trigger] output@[i]) == old(output)@[i]
                    || (j * r <= i < end_row * r),
            forall|i: int|
                0 <= i < output@.len() && !(first_row * r <= i < end_row * r) ==> output@[i] == old(output)@[i],
        decreases end_row - j,
    {
        proof {
            assert((j + 1) * r == j * r + r) by (nonlinear_arith);
            assert((j + 1) * r <= end_row * r) by (nonlinear_arith)
                requires
                    j + 1 <= end_row,
            ;
        }
        let start = j * r;
        let end = start + r;
        scan_cells(input, output, in_place, start, end, 0, orig);
        proof {
            assert forall|i: int| start <= i < end implies output@[i] == row_scan(orig@, r as int)[i] by {
                lemma_sum_agree(orig@, orig@, start as int, start as int);
                assert(j * r >= 0) by (nonlinear_arith);
                lemma_row_cells(orig@, r as int, j as int, start as int, 0, i);
            }
        }
        j = j + 1;
    }
}

impl Task {
    /// Grouped rows: claim the next group by a fetch-add and scan its rows, or leave.
    #[verifier::rlimit(50)]
    fn step_claim_group(&mut self, w: usize)
        requires
            old(self).inv(),
            w < old(self).worker_count(),
            old(self).workers@[w as int].phase is Claim,
            !old(self).chained,
        ensures
            final(self).inv(),
            old(self).step_keeps(final(self)),
            old(self).claim_effect(final(self), w as int),
    {
        let ghost prev = *self;
        proof {
            assert(self.inv_worker(w as int));
            self.lemma_overs_bound();
            lemma_word_add(self.work_index, 1);
        }
        let word = self.work_index;
        self.work_index = word + 1;
        let l = word % 65536;
        if l < self.work_size {
            proof {
                lemma_group_rows(self.rows as int, self.rows_per_block as int, l as int);
            }
            let k = l as usize;
            let first_row = k * self.rows_per_block;
            let end_row = if self.rows - first_row > self.rows_per_block {
                first_row + self.rows_per_block
            } else {
                self.rows
            };
            let ghost r = self.inner_size as int;
            let ghost m = self.rows as int;
            let ghost p = self.rows_per_block as int;
            proof {
                assert(!prev.claimed(k as int));
                assert(!prev.done@[k as int]);
                assert(end_row * r <= m * r) by (nonlinear_arith)
                    requires
                        end_row <= m,
                        r >= 0,
                ;
                assert((k as int + 1) * p == k * p + p) by (nonlinear_arith);
                if r > 0 {
                    lemma_group(r, m, p, k as int);
                    assert(first_row * r == group_start(r, p, k as int));
                    assert(end_row * r == group_end(r, p, m, k as int));
                    assert forall|i: int| first_row * r <= i < end_row * r implies prev.output@[i] == prev.orig@[i] || !prev.in_place by {
                        assert(group_of(r, p, i) == k);
                        assert(prev.blk(i) == k);
                    }
                }
            }
            scan_group(&self.input, &mut self.output, self.in_place, self.inner_size, first_row, end_row, self.orig);
            self.done = Ghost(self.done@.update(k as int, true));
            self.writes = Ghost(Seq::new(self.writes@.len(), |i: int| if prev.blk(i) == k { prev.writes@[i] + 1 } else { prev.writes@[i] }));
            if l == self.work_size - 1 {
                self.empty = true;
            }
            proof {
                let t = *self;
                assert forall|x: int| 0 <= x < t.work_size implies #[trigger] t.claimed(x) == (prev.claimed(x) || x == k) by {}
                assert(t.inv_cells()) by {
                    assert forall|i: int| 0 <= i < t.output@.len() implies #[trigger] t.output@[i] == if t.done@[t.blk(i)] {
                        row_scan(t.orig@, t.inner_size as int)[i]
                    } else {
                        t.out0@[i]
                    } && t.writes@[i] == if t.done@[t.blk(i)] {
                        1nat
                    } else {
                        0nat
                    } by {
                        prev.lemma_blk_in_range(i);
                        assert(r > 0) by (nonlinear_arith)
                            requires
                                0 <= i < r * m,
                                m >= 0,
                        ;
                        assert(prev.output@[i] == if prev.done@[prev.blk(i)] {
                            row_scan(prev.orig@, r)[i]
                        } else {
                            prev.out0@[i]
                        });
                        assert(prev.writes@[i] == if prev.done@[prev.blk(i)] {
                            1nat
                        } else {
                            0nat
                        });
                        if prev.blk(i) == k {
                            assert(group_of(r, p, i) == k);
                        } else {
                            assert(group_of(r, p, i) != k);
                        }
                    }
                    assert forall|i: int| 0 <= i < t.writes@.len() implies #[trigger] t.writes@[i] == if t.done@[t.blk(i)] {
                        1nat
                    } else {
                        0nat
                    } by {
                        prev.lemma_blk_in_range(i);
                        assert(r > 0) by (nonlinear_arith)
                            requires
                                0 <= i < r * m,
                                m >= 0,
                        ;
                        assert(prev.output@[i] == if prev.done@[prev.blk(i)] {
                            row_scan(prev.orig@, r)[i]
                        } else {
                            prev.out0@[i]
                        });
                        assert(prev.writes@[i] == if prev.done@[prev.blk(i)] {
                            1nat
                        } else {
                            0nat
                        });
                        if prev.blk(i) == k {
                            assert(group_of(r, p, i) == k);
                        } else {
                            assert(group_of(r, p, i) != k);
                        }
                    }
                }
                assert(t.inv_claims());
                assert(t.inv_owner());
                assert forall|v: int| 0 <= v < t.workers@.len() implies #[trigger] t.inv_worker(v) by {
                    assert(prev.inv_worker(v));
                }
            }
        } else {
            let mut wk = self.workers[w];
            wk.phase = Phase::Done;
            self.workers.set(w, wk);
            self.overs = Ghost(self.overs@.insert(w as int));
            self.drained = Ghost(true);
            self.empty = true;
            proof {
                let t = *self;
                assert forall|x: int| 0 <= x < t.work_size implies #[trigger] t.claimed(x) == prev.claimed(x) by {}
                assert(t.inv_claims());
                assert(t.inv_owner());
                assert forall|v: int| 0 <= v < t.workers@.len() implies #[trigger] t.inv_worker(v) by {
                    assert(prev.inv_worker(v));
                }
            }
        }
    }
}

impl Task {
    proof fn lemma_column_claims(&self, prev: &Task, l: int)
        requires
            prev.inv_shape(),
            prev.inv_claims(),
            prev.chained,
            self.chained == prev.chained,
            self.blocks_per_row == prev.blocks_per_row,
            self.rows == prev.rows,
            self.work_size == prev.work_size,
            self.inner_size == prev.inner_size,
            self.split@ is Some,
            prev.split@ is Some ==> self.split@ == prev.split@,
            prev.split@ is None ==> self.split@ == Some(hi_of(prev.work_index)) && l == 0,
            hi_of(self.work_index) == hi_of(prev.work_index),
            lo_of(prev.work_index) == l,
            lo_of(self.work_index) == l + 1,
            self.split_rows() < self.rows || l >= self.cws(),
        ensures
            forall|k: int|
                0 <= k < self.work_size ==> #[trigger] self.claimed(k) == (prev.claimed(k) || (l < self.cws()
                    && k == slot_block(self.blocks_per_row as int, self.rows as int, self.split_rows(), l))),
            l < self.cws() ==> {
                let b = slot_block(self.blocks_per_row as int, self.rows as int, self.split_rows(), l);
                &&& self.rws() <= b < self.work_size
                &&& hi_of(prev.work_index) <= b
                &&& !prev.claimed(b)
            },
    {
        let c = self.blocks_per_row as int;
        let m = self.rows as int;
        let q = self.split_rows();
        lemma_blocks_per_row(self.inner_size as int);
        self.lemma_split_facts_of(prev);
        if l < self.cws() {
            lemma_slot_block(c, m, q, l);
        }
        assert forall|k: int| 0 <= k < self.work_size implies #[trigger] self.claimed(k) == (prev.claimed(k) || (l
            < self.cws() && k == slot_block(c, m, q, l))) by {
            if self.rws() <= k {
                lemma_block_slot(c, m, q, k);
                assert(self.col_slot(k) == block_slot(c, m, q, k));
                if prev.split@ is Some {
                    assert(prev.col_slot(k) == block_slot(c, m, q, k));
                }
            }
        }
    }

    /// The split facts, for a task whose split was just fixed or kept.
    proof fn lemma_split_facts_of(&self, prev: &Task)
        requires
            prev.inv_shape(),
            prev.inv_claims(),
            prev.chained,
            self.chained == prev.chained,
            self.blocks_per_row == prev.blocks_per_row,
            self.rows == prev.rows,
            self.work_size == prev.work_size,
            self.inner_size == prev.inner_size,
            self.split@ is Some,
            prev.split@ is Some ==> self.split@ == prev.split@,
            prev.split@ is None ==> self.split@ == Some(hi_of(prev.work_index)),
        ensures
            0 <= self.split_rows() <= self.rows,
            self.rws() == self.split_rows() * self.blocks_per_row,
            self.cws() == (self.rows - self.split_rows()) * self.blocks_per_row,
            0 <= self.rws() <= self.work_size,
            self.cws() >= 0,
            self.split@->0 <= self.rws(),
            0 <= self.split@->0 <= self.work_size,
            ceil_div(hi_of(prev.work_index), self.blocks_per_row as int) == self.split_rows(),
            hi_of(prev.work_index) <= self.rws(),
            self.split@->0 <= hi_of(prev.work_index),
    {
        let c = self.blocks_per_row as int;
        let m = self.rows as int;
        let s = self.split@->0;
        lemma_blocks_per_row(self.inner_size as int);
        lemma_ceil_bounds(s, c);
        let q = ceil_div(s, c);
        if s > 0 {
            assert(q <= m) by (nonlinear_arith)
                requires
                    (q - 1) * c < s,
                    s <= c * m,
                    c >= 1,
            ;
        }
        assert(q * c <= c * m) by (nonlinear_arith)
            requires
                q <= m,
                c >= 1,
        ;
        assert(q * c >= 0) by (nonlinear_arith)
            requires
                q >= 0,
                c >= 1,
        ;
        assert(c * m - q * c == (m - q) * c) by (nonlinear_arith);
        if prev.split@ is Some {
            lemma_ceil_stable(c, s, hi_of(prev.work_index));
        }
    }

    /// Column-wise: claim the next column-wise slot by a fetch-add, then work on its block,
    /// turn to row-wise help, or leave.
    #[verifier::rlimit(100)]
    fn step_claim_columns(&mut self, w: usize)
        requires
            old(self).inv(),
            w < old(self).worker_count(),
            old(self).workers@[w as int].phase is Claim,
            old(self).chained,
        ensures
            final(self).inv(),
            old(self).step_keeps(final(self)),
            old(self).claim_effect(final(self), w as int),
    {
        let ghost prev = *self;
        proof {
            assert(self.inv_worker(w as int));
            self.lemma_overs_bound();
            if self.split@ is Some {
                self.lemma_split_facts();
            }
            lemma_word_add(self.work_index, 1);
            lemma_blocks_per_row(self.inner_size as int);
            assert(self.rows as int <= self.work_size) by (nonlinear_arith)
                requires
                    self.work_size == self.blocks_per_row * self.rows,
                    self.blocks_per_row >= 1,
            ;
        }
        let word = self.work_index;
        self.work_index = word + 1;
        let h = word / 65536;
        let l = word % 65536;
        self.split = Ghost(
            if prev.split@ is None {
                Some(h as int)
            } else {
                prev.split@
            },
        );
        proof {
            self.lemma_split_facts_of(&prev);
        }
        let c = self.blocks_per_row;
        let rows_done = (h as usize + c - 1) / c;
        let mut wk = self.workers[w];
        wk.seen = true;
        wk.rows_done = rows_done as u32;
        wk.row_work = (rows_done * c) as u32;
        wk.col_work = self.work_size - wk.row_work;
        let row_part = if h < wk.row_work {
            h
        } else {
            wk.row_work
        };
        let col_part = if l < wk.col_work {
            l
        } else {
            wk.col_work
        };
        let claimed = row_part + col_part + 1;
        proof {
            if (l as int) < self.cws() {
                assert(self.split_rows() < self.rows) by (nonlinear_arith)
                    requires
                        self.cws() == (self.rows - self.split_rows()) * self.blocks_per_row,
                        self.cws() > 0,
                        self.blocks_per_row >= 1,
                ;
            }
        }
        if claimed > self.work_size {
            wk.phase = Phase::Done;
            self.overs = Ghost(self.overs@.insert(w as int));
            self.drained = Ghost(true);
            self.empty = true;
        } else {
            if claimed == self.work_size {
                self.empty = true;
            }
            if l >= wk.col_work {
                wk.phase = Phase::Load;
                wk.rowwise = true;
                self.overs = Ghost(self.overs@.insert(w as int));
            } else {
                proof {
                    assert(self.split_rows() < self.rows) by (nonlinear_arith)
                        requires
                            self.cws() == (self.rows - self.split_rows()) * self.blocks_per_row,
                            self.cws() > l,
                            l >= 0,
                            self.blocks_per_row >= 1,
                    ;
                    lemma_slot_block(c as int, self.rows as int, self.split_rows(), l as int);
                }
                let nr = self.rows - rows_done;
                let block = ((rows_done + l as usize % nr) * c + l as usize / nr) as u32;
                proof {
                    let q = self.split_rows();
                    self.lemma_column_claims(&prev, l as int);
                    lemma_slot_block(c as int, self.rows as int, q, l as int);
                    assert(block as int == slot_block(c as int, self.rows as int, q, l as int));
                    assert(prev.temp@[block as int].state == 0);
                    assert(!prev.done@[block as int]);
                }
                self.owner = Ghost(self.owner@.update(block as int, w as int));
                wk.phase = Phase::Begin { block };
                wk.rowwise = false;
            }
        }
        self.workers.set(w, wk);
        proof {
            Task::lemma_claim_columns_inv(prev, *self, w as int, l as int, c as int);
        }
    }

    #[verifier::rlimit(100)]
    proof fn lemma_claim_columns_inv(prev: Task, t: Task, w: int, l: int, c: int)
        requires
            prev.inv(),
            0 <= w < prev.workers@.len(),
            prev.workers@[w].phase is Claim,
            prev.chained,
            c == prev.blocks_per_row,
            t.input@ == prev.input@,
            t.output@ == prev.output@,
            t.in_place == prev.in_place,
            t.temp@ == prev.temp@,
            t.inner_size == prev.inner_size,
            t.rows == prev.rows,
            t.blocks_per_row == prev.blocks_per_row,
            t.rows_per_block == prev.rows_per_block,
            t.chained == prev.chained,
            t.work_size == prev.work_size,
            t.orig@ == prev.orig@,
            t.out0@ == prev.out0@,
            t.done@ == prev.done@,
            t.writes@ == prev.writes@,
            t.workers@.len() == prev.workers@.len(),
            forall|v: int| 0 <= v < t.workers@.len() && v != w ==> t.workers@[v] == prev.workers@[v],
            hi_of(t.work_index) == hi_of(prev.work_index),
            lo_of(prev.work_index) == l,
            lo_of(t.work_index) == l + 1,
            t.split@ == (if prev.split@ is None {
                Some(hi_of(prev.work_index))
            } else {
                prev.split@
            }),
            t.workers@[w].seen,
            t.workers@[w].rows_done == ceil_div(hi_of(prev.work_index), c),
            t.workers@[w].row_work == ceil_div(hi_of(prev.work_index), c) * c,
            t.workers@[w].col_work == t.work_size - ceil_div(hi_of(prev.work_index), c) * c,
            ({
                let wk = t.workers@[w];
                let h = hi_of(prev.work_index);
                let rp = if h < wk.row_work { h } else { wk.row_work as int };
                let cp = if l < wk.col_work { l } else { wk.col_work as int };
                &&& t.empty == (prev.empty || rp + cp + 1 >= t.work_size)
                &&& if rp + cp + 1 > t.work_size {
                    &&& wk.phase is Done
                    &&& t.overs@ == prev.overs@.insert(w)
                    &&& t.drained@
                    &&& t.owner@ == prev.owner@
                } else if l >= wk.col_work {
                    &&& wk.phase is Load
                    &&& t.overs@ == prev.overs@.insert(w)
                    &&& t.drained@ == prev.drained@
                    &&& t.owner@ == prev.owner@
                } else {
                    &&& wk.phase == Phase::Begin { block: slot_block(c, t.rows as int, ceil_div(h, c), l) as u32 }
                    &&& !wk.rowwise
                    &&& t.overs@ == prev.overs@
                    &&& t.drained@ == prev.drained@
                    &&& t.owner@ == prev.owner@.update(slot_block(c, t.rows as int, ceil_div(h, c), l), w)
                }
            }),
        ensures
            t.inv(),
    {
        assert(prev.inv_worker(w));
        prev.lemma_overs_bound();
        lemma_blocks_per_row(prev.inner_size as int);
            t.lemma_split_facts_of(&prev);
            if (l as int) < t.cws() {
                assert(t.split_rows() < t.rows) by (nonlinear_arith)
                    requires
                        t.cws() == (t.rows - t.split_rows()) * t.blocks_per_row,
                        t.cws() > 0,
                        t.blocks_per_row >= 1,
                ;
            }
            t.lemma_column_claims(&prev, l as int);
            let nb = slot_block(c, t.rows as int, t.split_rows(), l);
            assert(t.inv_shape());
            assert(t.inv_cells());
            assert(t.inv_desc());
            assert(t.inv_claims()) by {
                vstd::set_lib::lemma_int_range(0, 0);
                if prev.split@ is None {
                    assert(prev.overs@ =~= Set::empty()) by {
                        assert forall|x: int| !prev.overs@.contains(x) by {
                            if prev.overs@.contains(x) {
                                assert(prev.split@ is Some);
                            }
                        }
                    }
                }
                assert(!prev.overs@.contains(w as int));
            }
            assert(t.inv_owner()) by {
                assert forall|k: int| 0 <= k < t.work_size implies {
                    &&& (#[trigger] t.done@[k] ==> t.claimed(k))
                    &&& (t.claimed(k) && !t.done@[k] ==> {
                        &&& t.chained
                        &&& 0 <= t.owner@[k] < t.workers@.len()
                        &&& working_on(t.workers@[t.owner@[k]].phase) == Some(k)
                    })
                } by {
                    if (l as int) < t.cws() && k == nb {
                        assert(t.owner@[k] == w);
                    } else if t.claimed(k) && !t.done@[k] {
                        assert(prev.claimed(k) && !prev.done@[k]);
                        assert(prev.owner@[k] != w);
                        assert(t.owner@[k] == prev.owner@[k]);
                    }
                }
            }
            assert forall|v: int| 0 <= v < t.workers@.len() implies #[trigger] t.inv_worker(v) by {
                if v != w {
                    assert(prev.inv_worker(v));
                    if let Some(b) = working_on(prev.workers@[v].phase) {
                        assert(prev.claimed(b));
                    }
                    if prev.split@ is None {
                        assert(!prev.workers@[v].seen);
                    }
                }
            }
    }
}

proof fn lemma_wrap_sum(x: int, y: int)
    ensures
        wrap(wrap(x) + wrap(y)) == wrap(x + y),
{
    lemma_wrap_add(x, wrap(y) as int);
    lemma_wrap_add(y, x);
}

/// Two blocks of one row: the earlier ends no later than the later starts.
proof fn lemma_same_row(r: int, m: int, p: int, b: int)
    requires
        r > 4096,
        0 <= p < b < blocks_per_row(r) * m,
        p / blocks_per_row(r) == b / blocks_per_row(r),
    ensures
        block_end(r, blocks_per_row(r), p) <= block_start(r, blocks_per_row(r), b),
        p % blocks_per_row(r) < b % blocks_per_row(r),
{
    let c = blocks_per_row(r);
    lemma_blocks_per_row(r);
    lemma_fundamental_div_mod(p, c);
    lemma_fundamental_div_mod(b, c);
    assert((p % c + 1) * 4096 <= (b % c) * 4096) by (nonlinear_arith)
        requires
            p % c + 1 <= b % c,
    ;
}

impl Task {
    /// Finishes block `b` of worker `w`: scans its cells from `carry`, publishes its prefix, and
    /// sends the worker back to claiming.
    fn complete_block(&mut self, w: usize, b: usize, carry: u64)
        requires
            old(self).inv(),
            w < old(self).worker_count(),
            b < old(self).work_size,
            old(self).chained,
            working_on(old(self).workers@[w as int].phase) == Some(b as int),
            carry == wrap(sum(old(self).orig@, old(self).row_of(b as int) * old(self).inner_size, old(self).bstart(b as int))),
        ensures
            final(self).inv(),
            old(self).step_keeps(final(self)),
            old(self).finished_block(final(self), w as int, b as int, carry),
    {
        let ghost prev = *self;
        proof {
            assert(self.inv_worker(w as int));
            lemma_chained_block(self.inner_size as int, self.rows as int, b as int);
            lemma_blocks_per_row(self.inner_size as int);
        }
        let r = self.inner_size;
        let c = self.blocks_per_row;
        let row = b / c;
        let col = b % c;
        let n = self.output.len();
        proof {
            assert(row * r + r <= self.rows * r);
            assert(self.rows * r == n) by (nonlinear_arith)
                requires
                    n == r * self.rows,
            ;
            assert(col * 4096 < r) by {
                assert(col == b % c);
            }
        }
        let start = row * r + col * 4096;
        let end = if r - col * 4096 > 4096 {
            start + 4096
        } else {
            row * r + r
        };
        proof {
            assert(start == self.bstart(b as int));
            assert(end == self.bend(b as int));
            assert forall|i: int| start <= i < end implies prev.output@[i] == prev.orig@[i] || !prev.in_place by {
                assert(block_of(r as int, c as int, i) == b);
                assert(prev.blk(i) == b);
            }
        }
        let local = scan_cells(&self.input, &mut self.output, self.in_place, start, end, carry, self.orig);
        let d = self.temp[b];
        self.temp.set(b, BlockInfo { state: STATE_PREFIX_AVAILABLE, aggregate: d.aggregate, prefix: local });
        self.done = Ghost(self.done@.update(b as int, true));
        self.writes = Ghost(Seq::new(self.writes@.len(), |i: int| if prev.blk(i) == b { prev.writes@[i] + 1 } else { prev.writes@[i] }));
        let mut wk = self.workers[w];
        wk.phase = if wk.rowwise {
            Phase::Load
        } else {
            Phase::Claim
        };
        self.workers.set(w, wk);
        proof {
            Task::lemma_complete_inv(prev, *self, w as int, b as int);
            let t = *self;
            assert(prev.columns() == c);
            assert(prev.first_cell(b as int) == start);
            assert(prev.end_cell(b as int) == end);
            assert(prev.row_first_cell(b as int) == prev.row_of(b as int) * r);
            assert forall|i: int| prev.first_cell(b as int) <= i < prev.end_cell(b as int) implies #[trigger] t.output_view()[i]
                == wrap(carry + sum(prev.values(), prev.first_cell(b as int), i + 1)) && t.output_view()[i] == row_scan(
                prev.values(),
                prev.row_length(),
            )[i] by {
                assert(t.output@[i] == row_scan(prev.orig@, prev.inner_size as int)[i]);
            }
            assert(t.descriptors() =~= prev.descriptors().update(
                b as int,
                BlockInfo {
                    state: STATE_PREFIX_AVAILABLE,
                    aggregate: prev.descriptors()[b as int].aggregate,
                    prefix: wrap(carry + sum(prev.values(), prev.first_cell(b as int), prev.end_cell(b as int))),
                },
            ));
        }
    }

    #[verifier::rlimit(100)]
    proof fn lemma_complete_inv(prev: Task, t: Task, w: int, b: int)
        requires
            prev.inv(),
            0 <= w < prev.workers@.len(),
            0 <= b < prev.work_size,
            prev.chained,
            working_on(prev.workers@[w].phase) == Some(b),
            t.input@ == prev.input@,
            t.in_place == prev.in_place,
            t.inner_size == prev.inner_size,
            t.rows == prev.rows,
            t.blocks_per_row == prev.blocks_per_row,
            t.rows_per_block == prev.rows_per_block,
            t.chained == prev.chained,
            t.work_size == prev.work_size,
            t.work_index == prev.work_index,
            t.orig@ == prev.orig@,
            t.out0@ == prev.out0@,
            t.owner@ == prev.owner@,
            t.split@ == prev.split@,
            t.overs@ == prev.overs@,
            t.drained@ == prev.drained@,
            t.empty == prev.empty,
            t.done@ == prev.done@.update(b, true),
            t.writes@ == Seq::new(prev.writes@.len(), |i: int| if prev.blk(i) == b { prev.writes@[i] + 1 } else { prev.writes@[i] }),
            t.output@.len() == prev.output@.len(),
            forall|i: int|
                prev.bstart(b) <= i < prev.bend(b) ==> t.output@[i] == wrap(
                    wrap(sum(prev.orig@, prev.row_of(b) * prev.inner_size, prev.bstart(b))) + sum(prev.orig@, prev.bstart(b), i + 1),
                ),
            forall|i: int|
                0 <= i < prev.output@.len() && !(prev.bstart(b) <= i < prev.bend(b)) ==> t.output@[i] == prev.output@[i],
            t.temp@ == prev.temp@.update(
                b,
                BlockInfo {
                    state: 2,
                    aggregate: prev.temp@[b].aggregate,
                    prefix: wrap(
                        wrap(sum(prev.orig@, prev.row_of(b) * prev.inner_size, prev.bstart(b))) + sum(prev.orig@, prev.bstart(b), prev.bend(b)),
                    ),
                },
            ),
            t.workers@.len() == prev.workers@.len(),
            forall|v: int| 0 <= v < t.workers@.len() && v != w ==> t.workers@[v] == prev.workers@[v],
            t.workers@[w].seen == prev.workers@[w].seen,
            t.workers@[w].rows_done == prev.workers@[w].rows_done,
            t.workers@[w].row_work == prev.workers@[w].row_work,
            t.workers@[w].col_work == prev.workers@[w].col_work,
            t.workers@[w].rowwise == prev.workers@[w].rowwise,
            t.workers@[w].phase == (if prev.workers@[w].rowwise {
                Phase::Load
            } else {
                Phase::Claim
            }),
        ensures
            t.inv(),
            prev.step_keeps(&t),
            forall|i: int| prev.bstart(b) <= i < prev.bend(b) ==> #[trigger] t.output@[i] == row_scan(prev.orig@, prev.inner_size as int)[i],
            t.temp@[b].prefix == wrap(sum(prev.orig@, prev.row_of(b) * prev.inner_size, prev.bend(b))),
    {
        let r = prev.inner_size as int;
        let c = prev.blocks_per_row as int;
        let m = prev.rows as int;
        let row = prev.row_of(b);
        assert(prev.inv_worker(w));
        lemma_chained_block(r, m, b);
        lemma_blocks_per_row(r);
        let base = sum(prev.orig@, row * r, prev.bstart(b));
        lemma_sum_split(prev.orig@, row * r, prev.bstart(b), prev.bend(b));
        lemma_wrap_add(base, sum(prev.orig@, prev.bstart(b), prev.bend(b)));
        assert(t.inv_shape());
        assert forall|i: int| #![trigger t.output@[i]] #![trigger t.writes@[i]] 0 <= i < t.output@.len() implies t.output@[i] == if t.done@[t.blk(i)] {
            row_scan(t.orig@, r)[i]
        } else {
            t.out0@[i]
        } && t.writes@[i] == if t.done@[t.blk(i)] {
            1nat
        } else {
            0nat
        } by {
            prev.lemma_blk_in_range(i);
            assert(prev.output@[i] == if prev.done@[prev.blk(i)] {
                row_scan(prev.orig@, r)[i]
            } else {
                prev.out0@[i]
            });
            assert(prev.writes@[i] == if prev.done@[prev.blk(i)] {
                1nat
            } else {
                0nat
            });
            assert(block_of(r, c, i) == prev.blk(i));
            if prev.blk(i) == b {
                assert(row * r >= 0) by (nonlinear_arith)
                    requires
                        row >= 0,
                        r > 0,
                ;
                lemma_row_cells(prev.orig@, r, row, prev.bstart(b), wrap(base), i);
            }
        }
        assert(t.inv_cells());
        assert forall|k: int| 0 <= k < t.work_size implies #[trigger] t.claimed(k) == prev.claimed(k) by {}
        assert(t.inv_desc()) by {
            assert forall|k: int| 0 <= k < t.work_size implies {
                let d = #[trigger] t.temp@[k];
                &&& d.state <= 2
                &&& d.state == 1 ==> k % t.blocks_per_row as int != 0 && d.aggregate == wrap(
                    sum(t.orig@, t.bstart(k), t.bend(k)),
                )
                &&& d.state == 2 ==> d.prefix == wrap(
                    sum(t.orig@, t.row_of(k) * t.inner_size, t.bend(k)),
                )
                &&& d.state > 0 ==> t.claimed(k)
                &&& t.done@[k] ==> d.state == 2
            } by {
                assert(prev.temp@[k] == prev.temp@[k]);
            }
        }
        assert(t.inv_claims());
        assert(t.inv_owner()) by {
            assert forall|k: int| 0 <= k < t.work_size implies {
                &&& (#[trigger] t.done@[k] ==> t.claimed(k))
                &&& (t.claimed(k) && !t.done@[k] ==> {
                    &&& t.chained
                    &&& 0 <= t.owner@[k] < t.workers@.len()
                    &&& working_on(t.workers@[t.owner@[k]].phase) == Some(k)
                })
            } by {
                if k != b && prev.claimed(k) && !prev.done@[k] {
                    assert(prev.owner@[k] != w);
                }
            }
        }
        assert forall|v: int| 0 <= v < t.workers@.len() implies #[trigger] t.inv_worker(v) by {
            assert(prev.inv_worker(v));
            if v != w {
                if let Some(bb) = working_on(prev.workers@[v].phase) {
                    assert(prev.owner@[bb] == v);
                    assert(bb != b);
                }
            }
        }
    }
}

impl Task {
    /// The cells `[start, end)` of chained block `b`.
    fn block_bounds(&self, b: usize) -> (r: (usize, usize))
        requires
            self.inv_shape(),
            self.chained,
            b < self.work_size,
        ensures
            r.0 == self.bstart(b as int),
            r.1 == self.bend(b as int),
            r.0 <= r.1 <= self.orig@.len(),
    {
        proof {
            lemma_chained_block(self.inner_size as int, self.rows as int, b as int);
            lemma_blocks_per_row(self.inner_size as int);
        }
        let r = self.inner_size;
        let c = self.blocks_per_row;
        let row = b / c;
        let col = b % c;
        let n = self.output.len();
        proof {
            assert(self.rows * r == n) by (nonlinear_arith)
                requires
                    n == r * self.rows,
            ;
        }
        let start = row * r + col * 4096;
        let end = if r - col * 4096 > 4096 {
            start + 4096
        } else {
            row * r + r
        };
        (start, end)
    }

    /// Works on a freshly claimed block: with the predecessor's prefix at hand (or at the start
    /// of a row) scan it at once; otherwise publish its aggregate and look back.
    fn step_begin(&mut self, w: usize)
        requires
            old(self).inv(),
            w < old(self).worker_count(),
            old(self).workers@[w as int].phase is Begin,
        ensures
            final(self).inv(),
            old(self).step_keeps(final(self)),
            old(self).begin_effect(final(self), w as int, old(self).phase(w as int)->Begin_block as int),
    {
        let ghost prev = *self;
        let mut wk = self.workers[w];
        let b = match wk.phase {
            Phase::Begin { block } => block as usize,
            _ => 0,
        };
        proof {
            assert(self.inv_worker(w as int));
            lemma_chained_block(self.inner_size as int, self.rows as int, b as int);
            lemma_blocks_per_row(self.inner_size as int);
        }
        let c = self.blocks_per_row;
        if b % c == 0 {
            proof {
                assert(sum(self.orig@, self.bstart(b as int), self.bstart(b as int)) == 0);
                crate::scan::lemma_wrap_small(0);
            }
            self.complete_block(w, b, 0);
        } else {
            proof {
                if b == 0 {
                    vstd::arithmetic::div_mod::lemma_small_mod(0, c as nat);
                }
            }
            let p = self.temp[b - 1];
            if p.state == STATE_PREFIX_AVAILABLE {
                proof {
                    lemma_chained_block(self.inner_size as int, self.rows as int, b - 1);
                }
                self.complete_block(w, b, p.prefix);
            } else {
                let (start, end) = self.block_bounds(b);
                proof {
                    assert forall|i: int| start <= i < end implies prev.output@[i] == prev.orig@[i] || !prev.in_place by {
                        assert(block_of(self.inner_size as int, c as int, i) == b);
                        assert(prev.blk(i) == b);
                    }
                }
                let local = if self.in_place {
                    let v = fold_range(&self.output, start, end);
                    proof {
                        lemma_sum_agree(self.output@, self.orig@, start as int, end as int);
                    }
                    v
                } else {
                    fold_range(&self.input, start, end)
                };
                let d = self.temp[b];
                self.temp.set(b, BlockInfo { state: STATE_AGGREGATE_AVAILABLE, aggregate: local, prefix: d.prefix });
                wk.phase = Phase::LookBack { block: b as u32, previous: (b - 1) as u32, carry: 0, local };
                self.workers.set(w, wk);
                proof {
                    assert(sum(self.orig@, self.bend(b - 1), self.bstart(b as int)) == 0);
                    crate::scan::lemma_wrap_small(0);
                    Task::lemma_publish_inv(prev, *self, w as int, b as int);
                    assert(prev.first_cell(b as int) == start);
                    assert(prev.end_cell(b as int) == end);
                }
            }
        }
    }

    #[verifier::rlimit(100)]
    proof fn lemma_publish_inv(prev: Task, t: Task, w: int, b: int)
        requires
            prev.inv(),
            0 <= w < prev.workers@.len(),
            0 <= b < prev.work_size,
            prev.chained,
            prev.workers@[w].phase == (Phase::Begin { block: b as u32 }),
            b % prev.blocks_per_row as int != 0,
            t.input@ == prev.input@,
            t.output@ == prev.output@,
            t.in_place == prev.in_place,
            t.inner_size == prev.inner_size,
            t.rows == prev.rows,
            t.blocks_per_row == prev.blocks_per_row,
            t.rows_per_block == prev.rows_per_block,
            t.chained == prev.chained,
            t.work_size == prev.work_size,
            t.work_index == prev.work_index,
            t.orig@ == prev.orig@,
            t.out0@ == prev.out0@,
            t.owner@ == prev.owner@,
            t.split@ == prev.split@,
            t.overs@ == prev.overs@,
            t.drained@ == prev.drained@,
            t.empty == prev.empty,
            t.done@ == prev.done@,
            t.writes@ == prev.writes@,
            t.temp@ == prev.temp@.update(
                b,
                BlockInfo {
                    state: 1,
                    aggregate: wrap(sum(prev.orig@, prev.bstart(b), prev.bend(b))),
                    prefix: prev.temp@[b].prefix,
                },
            ),
            t.workers@.len() == prev.workers@.len(),
            forall|v: int| 0 <= v < t.workers@.len() && v != w ==> t.workers@[v] == prev.workers@[v],
            t.workers@[w].seen == prev.workers@[w].seen,
            t.workers@[w].rows_done == prev.workers@[w].rows_done,
            t.workers@[w].row_work == prev.workers@[w].row_work,
            t.workers@[w].col_work == prev.workers@[w].col_work,
            t.workers@[w].rowwise == prev.workers@[w].rowwise,
            t.workers@[w].phase == (Phase::LookBack {
                block: b as u32,
                previous: (b - 1) as u32,
                carry: 0,
                local: wrap(sum(prev.orig@, prev.bstart(b), prev.bend(b))),
            }),
            wrap(sum(prev.orig@, prev.bend(b - 1), prev.bstart(b))) == 0,
        ensures
            t.inv(),
            prev.step_keeps(&t),
    {
        assert(prev.inv_worker(w));
        lemma_chained_block(prev.inner_size as int, prev.rows as int, b);
        assert forall|k: int| 0 <= k < t.work_size implies #[trigger] t.claimed(k) == prev.claimed(k) by {}
        assert(t.inv_shape());
        assert(t.inv_cells()) by {
            assert forall|i: int| 0 <= i < t.output@.len() implies #[trigger] t.output@[i] == if t.done@[t.blk(i)] {
                row_scan(t.orig@, t.inner_size as int)[i]
            } else {
                t.out0@[i]
            } by {
                assert(prev.output@[i] == prev.output@[i]);
            }
            assert forall|i: int| 0 <= i < t.writes@.len() implies #[trigger] t.writes@[i] == if t.done@[t.blk(i)] {
                1nat
            } else {
                0nat
            } by {
                assert(prev.writes@[i] == prev.writes@[i]);
            }
        }
        assert(t.inv_desc()) by {
            assert forall|k: int| 0 <= k < t.work_size implies {
                let d = #[trigger] t.temp@[k];
                &&& d.state <= 2
                &&& d.state == 1 ==> k % t.blocks_per_row as int != 0 && d.aggregate == wrap(
                    sum(t.orig@, t.bstart(k), t.bend(k)),
                )
                &&& d.state == 2 ==> d.prefix == wrap(
                    sum(t.orig@, t.row_of(k) * t.inner_size, t.bend(k)),
                )
                &&& d.state > 0 ==> t.claimed(k)
                &&& t.done@[k] ==> d.state == 2
            } by {
                assert(prev.temp@[k] == prev.temp@[k]);
            }
        }
        assert(t.inv_claims());
        assert(t.inv_owner()) by {
            assert forall|k: int| 0 <= k < t.work_size implies {
                &&& (#[trigger] t.done@[k] ==> t.claimed(k))
                &&& (t.claimed(k) && !t.done@[k] ==> {
                    &&& t.chained
                    &&& 0 <= t.owner@[k] < t.workers@.len()
                    &&& working_on(t.workers@[t.owner@[k]].phase) == Some(k)
                })
            } by {
                if k != b && prev.claimed(k) && !prev.done@[k] {
                    assert(prev.owner@[k] != w);
                }
            }
        }
        assert forall|v: int| 0 <= v < t.workers@.len() implies #[trigger] t.inv_worker(v) by {
            assert(prev.inv_worker(v));
            if v != w {
                if let Some(bb) = working_on(prev.workers@[v].phase) {
                    assert(prev.owner@[bb] == v);
                    assert(bb != b);
                }
            }
        }
    }

    #[verifier::rlimit(100)]
    proof fn lemma_publish_prefix_inv(prev: Task, t: Task, w: int, b: int)
        requires
            prev.inv(),
            0 <= w < prev.workers@.len(),
            0 <= b < prev.work_size,
            prev.chained,
            prev.workers@[w].phase is LookBack,
            prev.workers@[w].phase->LookBack_block == b,
            t.input@ == prev.input@,
            t.output@ == prev.output@,
            t.in_place == prev.in_place,
            t.inner_size == prev.inner_size,
            t.rows == prev.rows,
            t.blocks_per_row == prev.blocks_per_row,
            t.rows_per_block == prev.rows_per_block,
            t.chained == prev.chained,
            t.work_size == prev.work_size,
            t.work_index == prev.work_index,
            t.orig@ == prev.orig@,
            t.out0@ == prev.out0@,
            t.owner@ == prev.owner@,
            t.split@ == prev.split@,
            t.overs@ == prev.overs@,
            t.drained@ == prev.drained@,
            t.empty == prev.empty,
            t.done@ == prev.done@,
            t.writes@ == prev.writes@,
            t.temp@ == prev.temp@.update(
                b,
                BlockInfo {
                    state: 2,
                    aggregate: prev.temp@[b].aggregate,
                    prefix: wrap(sum(prev.orig@, prev.row_of(b) * prev.inner_size, prev.bend(b))),
                },
            ),
            t.workers@.len() == prev.workers@.len(),
            forall|v: int| 0 <= v < t.workers@.len() && v != w ==> t.workers@[v] == prev.workers@[v],
            t.workers@[w].seen == prev.workers@[w].seen,
            t.workers@[w].rows_done == prev.workers@[w].rows_done,
            t.workers@[w].row_work == prev.workers@[w].row_work,
            t.workers@[w].col_work == prev.workers@[w].col_work,
            t.workers@[w].rowwise == prev.workers@[w].rowwise,
            t.workers@[w].phase is Scan,
            t.workers@[w].phase->Scan_block == b,
            t.workers@[w].phase->Scan_carry == wrap(sum(prev.orig@, prev.row_of(b) * prev.inner_size, prev.bstart(b))),
        ensures
            t.inv(),
            prev.step_keeps(&t),
    {
        assert(prev.inv_worker(w));
        lemma_chained_block(prev.inner_size as int, prev.rows as int, b);
        assert forall|k: int| 0 <= k < t.work_size implies #[trigger] t.claimed(k) == prev.claimed(k) by {}
        assert(t.inv_shape());
        assert(t.inv_cells()) by {
            assert forall|i: int| 0 <= i < t.output@.len() implies #[trigger] t.output@[i] == if t.done@[t.blk(i)] {
                row_scan(t.orig@, t.inner_size as int)[i]
            } else {
                t.out0@[i]
            } by {
                assert(prev.output@[i] == prev.output@[i]);
            }
            assert forall|i: int| 0 <= i < t.writes@.len() implies #[trigger] t.writes@[i] == if t.done@[t.blk(i)] {
                1nat
            } else {
                0nat
            } by {
                assert(prev.writes@[i] == prev.writes@[i]);
            }
        }
        assert(t.inv_desc()) by {
            assert forall|k: int| 0 <= k < t.work_size implies {
                let d = #[trigger] t.temp@[k];
                &&& d.state <= 2
                &&& d.state == 1 ==> k % t.blocks_per_row as int != 0 && d.aggregate == wrap(
                    sum(t.orig@, t.bstart(k), t.bend(k)),
                )
                &&& d.state == 2 ==> d.prefix == wrap(
                    sum(t.orig@, t.row_of(k) * t.inner_size, t.bend(k)),
                )
                &&& d.state > 0 ==> t.claimed(k)
                &&& t.done@[k] ==> d.state == 2
            } by {
                assert(prev.temp@[k] == prev.temp@[k]);
            }
        }
        assert(t.inv_claims());
        assert(t.inv_owner()) by {
            assert forall|k: int| 0 <= k < t.work_size implies {
                &&& (#[trigger] t.done@[k] ==> t.claimed(k))
                &&& (t.claimed(k) && !t.done@[k] ==> {
                    &&& t.chained
                    &&& 0 <= t.owner@[k] < t.workers@.len()
                    &&& working_on(t.workers@[t.owner@[k]].phase) == Some(k)
                })
            } by {
                if k != b && prev.claimed(k) && !prev.done@[k] {
                    assert(prev.owner@[k] != w);
                }
            }
        }
        assert forall|v: int| 0 <= v < t.workers@.len() implies #[trigger] t.inv_worker(v) by {
            assert(prev.inv_worker(v));
            if v != w {
                if let Some(bb) = working_on(prev.workers@[v].phase) {
                    assert(prev.owner@[bb] == v);
                    assert(bb != b);
                }
            }
        }
    }
}

impl Task {
    /// Looks at the next predecessor: its prefix ends the walk, its aggregate joins the carry,
    /// and a predecessor that has published nothing is looked at again on the next step.
    fn step_look_back(&mut self, w: usize)
        requires
            old(self).inv(),
            w < old(self).worker_count(),
            old(self).workers@[w as int].phase is LookBack,
        ensures
            final(self).inv(),
            old(self).step_keeps(final(self)),
            ({
                let p = old(self).phase(w as int);
                old(self).look_back_effect(
                    final(self),
                    w as int,
                    p->LookBack_block as int,
                    p->LookBack_previous as int,
                    p->LookBack_carry,
                    p->LookBack_local,
                )
            }),
    {
        let ghost prev = *self;
        let mut wk = self.workers[w];
        let (block, previous, carry, local) = match wk.phase {
            Phase::LookBack { block, previous, carry, local } => (block, previous, carry, local),
            _ => (0, 0, 0, 0),
        };
        proof {
            assert(self.inv_worker(w as int));
            lemma_chained_block(self.inner_size as int, self.rows as int, block as int);
            lemma_chained_block(self.inner_size as int, self.rows as int, previous as int);
            lemma_same_row(self.inner_size as int, self.rows as int, previous as int, block as int);
        }
        let d = self.temp[previous as usize];
        if d.state == STATE_PREFIX_AVAILABLE {
            proof {
                let rs = self.row_of(block as int) * self.inner_size;
                lemma_wrapping_add(d.prefix, carry);
                lemma_wrap_sum(
                    sum(self.orig@, rs, self.bend(previous as int)),
                    sum(self.orig@, self.bend(previous as int), self.bstart(block as int)),
                );
                lemma_sum_split(self.orig@, rs, self.bend(previous as int), self.bstart(block as int));
            }
            let total = d.prefix.wrapping_add(carry);
            let cur = self.temp[block as usize];
            let prefix = total.wrapping_add(local);
            proof {
                let rs = self.row_of(block as int) * self.inner_size;
                let agg = sum(self.orig@, self.bstart(block as int), self.bend(block as int));
                lemma_wrapping_add(d.prefix, carry);
                lemma_wrapping_add(total, local);
                lemma_wrap_add(agg, total as int);
                lemma_wrap_sum(sum(self.orig@, rs, self.bstart(block as int)), agg);
                lemma_sum_split(self.orig@, rs, self.bstart(block as int), self.bend(block as int));
                assert(prefix == wrap(sum(self.orig@, rs, self.bend(block as int))));
            }
            self.temp.set(block as usize, BlockInfo { state: STATE_PREFIX_AVAILABLE, aggregate: cur.aggregate, prefix });
            wk.phase = Phase::Scan { block, carry: total };
            self.workers.set(w, wk);
            proof {
                Task::lemma_publish_prefix_inv(prev, *self, w as int, block as int);
                let bs = block as int;
                assert(prev.first_cell(bs) == prev.bstart(bs));
                assert(prev.end_cell(bs) == prev.bend(bs));
                assert(prev.row_first_cell(bs) == prev.row_of(bs) * prev.inner_size);
            }
        } else if d.state == STATE_AGGREGATE_AVAILABLE {
            proof {
                lemma_wrapping_add(d.aggregate, carry);
                lemma_wrap_sum(
                    sum(self.orig@, self.bstart(previous as int), self.bend(previous as int)),
                    sum(self.orig@, self.bend(previous as int), self.bstart(block as int)),
                );
                lemma_sum_split(
                    self.orig@,
                    self.bstart(previous as int),
                    self.bend(previous as int),
                    self.bstart(block as int),
                );
            }
            proof {
                assert(self.temp@[previous as int].state == 1);
                if previous == 0 {
                    vstd::arithmetic::div_mod::lemma_small_mod(0, self.blocks_per_row as nat);
                }
            }
            let next = d.aggregate.wrapping_add(carry);
            proof {
                lemma_wrapping_add(d.aggregate, carry);
            }
            wk.phase = Phase::LookBack { block, previous: previous - 1, carry: next, local };
            self.workers.set(w, wk);
            proof {
                Task::lemma_look_back_inv(prev, *self, w as int);
            }
        }
    }

    proof fn lemma_look_back_inv(prev: Task, t: Task, w: int)
        requires
            prev.inv(),
            0 <= w < prev.workers@.len(),
            prev.workers@[w].phase is LookBack,
            t.input@ == prev.input@,
            t.output@ == prev.output@,
            t.in_place == prev.in_place,
            t.inner_size == prev.inner_size,
            t.rows == prev.rows,
            t.blocks_per_row == prev.blocks_per_row,
            t.rows_per_block == prev.rows_per_block,
            t.chained == prev.chained,
            t.work_size == prev.work_size,
            t.work_index == prev.work_index,
            t.orig@ == prev.orig@,
            t.out0@ == prev.out0@,
            t.owner@ == prev.owner@,
            t.split@ == prev.split@,
            t.overs@ == prev.overs@,
            t.drained@ == prev.drained@,
            t.empty == prev.empty,
            t.done@ == prev.done@,
            t.writes@ == prev.writes@,
            t.temp@ == prev.temp@,
            t.workers@.len() == prev.workers@.len(),
            forall|v: int| 0 <= v < t.workers@.len() && v != w ==> t.workers@[v] == prev.workers@[v],
            t.workers@[w].seen == prev.workers@[w].seen,
            t.workers@[w].rows_done == prev.workers@[w].rows_done,
            t.workers@[w].row_work == prev.workers@[w].row_work,
            t.workers@[w].col_work == prev.workers@[w].col_work,
            t.workers@[w].rowwise == prev.workers@[w].rowwise,
            ({
                let p = prev.workers@[w].phase;
                let q = t.workers@[w].phase;
                &&& q is LookBack
                &&& q->LookBack_block == p->LookBack_block
                &&& q->LookBack_local == p->LookBack_local
                &&& q->LookBack_previous == p->LookBack_previous - 1
                &&& prev.temp@[p->LookBack_previous as int].state == 1
                &&& q->LookBack_carry == wrap(
                    sum(prev.orig@, prev.bstart(p->LookBack_previous as int), prev.bstart(p->LookBack_block as int)),
                )
            }),
        ensures
            t.inv(),
            prev.step_keeps(&t),
    {
        assert(prev.inv_worker(w));
        let p = prev.workers@[w].phase;
        let b = p->LookBack_block as int;
        let pv = p->LookBack_previous as int;
        lemma_chained_block(prev.inner_size as int, prev.rows as int, pv);
        assert forall|k: int| 0 <= k < t.work_size implies #[trigger] t.claimed(k) == prev.claimed(k) by {}
        assert(t.inv_shape());
        assert(t.inv_cells()) by {
            assert forall|i: int| 0 <= i < t.output@.len() implies #[trigger] t.output@[i] == if t.done@[t.blk(i)] {
                row_scan(t.orig@, t.inner_size as int)[i]
            } else {
                t.out0@[i]
            } by {
                assert(prev.output@[i] == prev.output@[i]);
            }
            assert forall|i: int| 0 <= i < t.writes@.len() implies #[trigger] t.writes@[i] == if t.done@[t.blk(i)] {
                1nat
            } else {
                0nat
            } by {
                assert(prev.writes@[i] == prev.writes@[i]);
            }
        }
        assert(t.inv_desc()) by {
            assert forall|k: int| 0 <= k < t.work_size implies {
                let d = #[trigger] t.temp@[k];
                &&& d.state <= 2
                &&& d.state == 1 ==> k % t.blocks_per_row as int != 0 && d.aggregate == wrap(
                    sum(t.orig@, t.bstart(k), t.bend(k)),
                )
                &&& d.state == 2 ==> d.prefix == wrap(
                    sum(t.orig@, t.row_of(k) * t.inner_size, t.bend(k)),
                )
                &&& d.state > 0 ==> t.claimed(k)
                &&& t.done@[k] ==> d.state == 2
            } by {
                assert(prev.temp@[k] == prev.temp@[k]);
            }
        }
        assert(t.inv_claims());
        assert(t.inv_owner()) by {
            assert forall|k: int| 0 <= k < t.work_size implies {
                &&& (#[trigger] t.done@[k] ==> t.claimed(k))
                &&& (t.claimed(k) && !t.done@[k] ==> {
                    &&& t.chained
                    &&& 0 <= t.owner@[k] < t.workers@.len()
                    &&& working_on(t.workers@[t.owner@[k]].phase) == Some(k)
                })
            } by {
                if prev.claimed(k) && !prev.done@[k] {
                    assert(prev.owner@[k] == prev.owner@[k]);
                }
            }
        }
        assert forall|v: int| 0 <= v < t.workers@.len() implies #[trigger] t.inv_worker(v) by {
            assert(prev.inv_worker(v));
        }
    }

    /// One atomic action of worker `w`: a read, a claim, or the work on one block. The
    /// invariant holds after any step of any worker, whatever the interleaving.
    pub fn step(&mut self, w: usize)
        requires
            old(self).inv(),
            w < old(self).worker_count(),
        ensures
            final(self).inv(),
            old(self).step_keeps(final(self)),
            old(self).step_effect(final(self), w as int),
    {
        match self.workers[w].phase {
            Phase::Claim => {
                if self.chained {
                    self.step_claim_columns(w);
                } else {
                    self.step_claim_group(w);
                }
            },
            Phase::Load => self.step_load(w),
            Phase::Cas { .. } => self.step_cas(w),
            Phase::Begin { .. } => self.step_begin(w),
            Phase::LookBack { .. } => self.step_look_back(w),
            Phase::Scan { block, carry } => {
                proof {
                    assert(self.inv_worker(w as int));
                }
                self.complete_block(w, block as usize, carry);
            },
            Phase::Done => {},
        }
    }

    /// The number of workers that have entered.
    pub fn arrived(&self) -> (r: usize)
        ensures
            r == self.worker_count(),
    {
        self.workers.len()
    }

    /// Whether worker `w` has left the task.
    pub fn is_done(&self, w: usize) -> (r: bool)
        requires
            w < self.worker_count(),
        ensures
            r == self.has_left(w as int),
    {
        match self.workers[w].phase {
            Phase::Done => true,
            _ => false,
        }
    }
}

impl Task {
    /// Whether the task scans its cells in place.
    pub closed spec fn scans_in_place(&self) -> bool {
        self.in_place
    }

    /// The grid: cells are rows times row length; a chained grid has rows longer than a block,
    /// `⌈R / 4096⌉` blocks per row and one descriptor per block; otherwise whole rows are
    /// grouped, `group_rows()` to a block.
    pub proof fn lemma_shape(&self)
        requires
            self.inv(),
        ensures
            self.values().len() == self.row_length() * self.row_count(),
            self.output_view().len() == self.values().len(),
            self.work_size() < MAX_BLOCK_COUNT,
            self.chained_grid() ==> {
                &&& self.row_length() > 4096
                &&& self.work_size() == self.columns() * self.row_count()
                &&& self.descriptors().len() == self.work_size()
            },
            !self.chained_grid() ==> {
                &&& self.group_rows() >= 1
                &&& self.work_size() == (self.row_count() + self.group_rows() - 1) / self.group_rows()
            },
    {
    }

    /// What a descriptor of a chained grid holds at any time: a state of at most
    /// PREFIX_AVAILABLE; at AGGREGATE_AVAILABLE (never at a row start) the block's own sum; at
    /// PREFIX_AVAILABLE the row's sum through the block.
    pub proof fn lemma_descriptor_states(&self, k: int)
        requires
            self.inv(),
            self.chained_grid(),
            0 <= k < self.work_size(),
        ensures
            self.descriptors()[k].state <= STATE_PREFIX_AVAILABLE,
            self.descriptors()[k].state == STATE_AGGREGATE_AVAILABLE ==> k % self.columns() != 0
                && self.descriptors()[k].aggregate == wrap(sum(self.values(), self.first_cell(k), self.end_cell(k))),
            self.descriptors()[k].state == STATE_PREFIX_AVAILABLE ==> self.descriptors()[k].prefix == wrap(
                sum(self.values(), self.row_first_cell(k), self.end_cell(k)),
            ),
    {
        assert(self.temp@[k] == self.temp@[k]);
    }

    /// A walk back stays in its block's row and behind the block, so it reads at most as many
    /// published aggregates as the block's column index before it meets a prefix.
    pub proof fn lemma_walk_in_row(&self, w: int)
        requires
            self.inv(),
            0 <= w < self.worker_count(),
            self.phase(w) is LookBack,
        ensures
            ({
                let p = self.phase(w);
                &&& p->LookBack_previous < p->LookBack_block < self.work_size()
                &&& p->LookBack_previous as int / self.columns() == p->LookBack_block as int / self.columns()
                &&& p->LookBack_previous as int % self.columns() < p->LookBack_block as int % self.columns()
            }),
    {
        assert(self.inv_worker(w));
        let p = self.phase(w);
        lemma_same_row(self.inner_size as int, self.rows as int, p->LookBack_previous as int, p->LookBack_block as int);
    }

    /// A worker leaves only once every block is claimed, and the task-empty signal is then
    /// given.
    pub proof fn lemma_left_after_all_claimed(&self, w: int)
        requires
            self.inv(),
            0 <= w < self.worker_count(),
            self.has_left(w),
        ensures
            self.unclaimed_count() == 0,
            self.empty_signalled(),
    {
        assert(self.inv_worker(w));
        if self.chained && self.split@ is Some {
            self.lemma_split_facts();
        }
    }

    /// No output cell is ever written twice: every write count is 0 or 1.
    pub proof fn lemma_writes_at_most_once(&self)
        requires
            self.inv(),
        ensures
            forall|i: int| 0 <= i < self.write_counts().len() ==> #[trigger] self.write_counts()[i] <= 1,
    {
        assert forall|i: int| 0 <= i < self.write_counts().len() implies #[trigger] self.write_counts()[i] <= 1 by {
            assert(self.writes@[i] == if self.done@[self.blk(i)] {
                1nat
            } else {
                0nat
            });
        }
    }
}

/// The result does not depend on the scheduling: two finished tasks over the same values and
/// row length, whatever their worker counts and interleavings, hold the same output.
pub proof fn lemma_result_independent_of_workers(a: &Task, b: &Task)
    requires
        a.inv(),
        b.inv(),
        a.finished(),
        b.finished(),
        a.values() == b.values(),
        a.row_length() == b.row_length(),
    ensures
        a.output_view() == b.output_view(),
{
    a.lemma_finished_output();
    b.lemma_finished_output();
}

/// Scanning in place gives what scanning a fresh copy of the same values into another array
/// gives.
pub proof fn lemma_in_place_matches_copy(in_place: &Task, copy: &Task)
    requires
        in_place.inv(),
        copy.inv(),
        in_place.scans_in_place(),
        !copy.scans_in_place(),
        in_place.finished(),
        copy.finished(),
        in_place.values() == copy.values(),
        in_place.row_length() == copy.row_length(),
    ensures
        in_place.output_view() == copy.output_view(),
{
    in_place.lemma_finished_output();
    copy.lemma_finished_output();
}

} // verus!
