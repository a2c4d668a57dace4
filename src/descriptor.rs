use vstd::prelude::*;
use crate::array::{MultArray, inner_size_of, inner_count_of};
use crate::grid::{blocks_per_row, lemma_blocks_per_row};

verus! {

/// Descriptor state: nothing published yet.
pub const STATE_INITIALIZED: u64 = 0;

/// Descriptor state: the block's own sum is published.
pub const STATE_AGGREGATE_AVAILABLE: u64 = 1;

/// Descriptor state: the inclusive prefix at the block's end is published.
pub const STATE_PREFIX_AVAILABLE: u64 = 2;

/// The published state of one block of the grid.
#[derive(Clone, Copy)]
pub struct BlockInfo {
    pub state: u64,
    pub aggregate: u64,
    pub prefix: u64,
}

/// A descriptor as it is before its block is worked on.
pub open spec fn is_initial(b: BlockInfo) -> bool {
    b.state == STATE_INITIALIZED && b.aggregate == 0 && b.prefix == 0
}

impl BlockInfo {
    /// A descriptor in the initial state.
    pub fn new() -> (r: BlockInfo)
        ensures
            is_initial(r),
    {
        BlockInfo { state: STATE_INITIALIZED, aggregate: 0, prefix: 0 }
    }
}

/// One initial descriptor per block of the chained grid of `input`: `⌈R / 4096⌉` blocks for
/// each of its rows.
pub fn create_temp<const N: usize>(input: &MultArray<N>) -> (r: Vec<BlockInfo>)
    requires
        input.wf(),
    ensures
        r@.len() == blocks_per_row(inner_size_of(input.shape_view())) * inner_count_of(
            input.shape_view(),
        ),
        forall|i: int| 0 <= i < r@.len() ==> is_initial(#[trigger] r@[i]),
{
    let inner_size = input.get_inner_size();
    let rows = input.total_inner_count();
    let total = input.get_data().len();
    proof {
        input.lemma_size();
    }
    let per_row: usize = if inner_size == 0 {
        0
    } else {
        proof {
            lemma_blocks_per_row(inner_size as int);
        }
        (inner_size - 1) / 4096 + 1
    };
    proof {
        if inner_size > 0 {
            assert(per_row == blocks_per_row(inner_size as int)) by {
                vstd::arithmetic::div_mod::lemma_div_plus_one((inner_size - 1) as int, 4096);
            }
            assert(per_row * rows <= inner_size * rows) by (nonlinear_arith)
                requires
                    per_row <= inner_size,
            ;
        }
    }
    let count = per_row * rows;
    let mut temp: Vec<BlockInfo> = Vec::new();
    let mut i: usize = 0;
    while i < count
        invariant
            i <= count,
            temp@.len() == i,
            forall|j: int| 0 <= j < i ==> is_initial(#[trigger] temp@[j]),
        decreases count - i,
    {
        temp.push(BlockInfo::new());
        i = i + 1;
    }
    temp
}

/// Puts every descriptor back in the initial state, so that the array can serve another task.
pub fn reset(temp: &mut Vec<BlockInfo>)
    ensures
        final(temp)@.len() == old(temp)@.len(),
        forall|i: int| 0 <= i < final(temp)@.len() ==> is_initial(#[trigger] final(temp)@[i]),
{
    let n = temp.len();
    let mut i: usize = 0;
    while i < n
        invariant
            n == temp@.len(),
            i <= n,
            forall|j: int| 0 <= j < i ==> is_initial(#[trigger] temp@[j]),
        decreases n - i,
    {
        temp.set(i, BlockInfo::new());
        i = i + 1;
    }
}

} // verus!
