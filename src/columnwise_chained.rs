use vstd::prelude::*;
use crate::array::{MultArray, inner_size_of, inner_count_of};
use crate::descriptor::{BlockInfo, is_initial};
use crate::grid::{blocks_per_row, block_count, is_chained, rows_per_block};
use crate::scan::MAX_BLOCK_COUNT;
use crate::task::{Task, Order};
use crate::row_column_chained::init_ordered;

verus! {

/// Resets the descriptors, then builds the task that scans `input` into `output`, every
/// worker claiming the next block in column-major order.
pub fn init_single<const N: usize>(input: MultArray<N>, temp: Vec<BlockInfo>, output: MultArray<N>) -> (r: Task)
    requires
        input.wf(),
        output.wf(),
        input.shape_view() == output.shape_view(),
        N >= 1,
        block_count(inner_size_of(input.shape_view()), inner_count_of(input.shape_view())) < MAX_BLOCK_COUNT,
        temp@.len() == blocks_per_row(inner_size_of(input.shape_view())) * inner_count_of(input.shape_view()),
    ensures
        r.inv(),
        r.row_count() == inner_count_of(input.shape_view()),
        r.work_size() == block_count(inner_size_of(input.shape_view()), inner_count_of(input.shape_view())),
        r.chained_grid() == is_chained(inner_size_of(input.shape_view())),
        !is_chained(inner_size_of(input.shape_view())) ==> r.group_rows() == rows_per_block(inner_size_of(input.shape_view())),
        r.descriptors().len() == temp@.len(),
        r.claim_order() == Order::ColumnWise,
        r.values() == input.data_view(),
        r.output_view() == output.data_view(),
        r.row_length() == inner_size_of(input.shape_view()),
        r.worker_count() == 0,
        !r.scans_in_place(),
        forall|i: int| 0 <= i < r.descriptors().len() ==> is_initial(#[trigger] r.descriptors()[i]),
        forall|i: int| 0 <= i < r.write_counts().len() ==> #[trigger] r.write_counts()[i] == 0,
{
    init_ordered(input, temp, output, Order::ColumnWise)
}

} // verus!
