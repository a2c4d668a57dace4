use vstd::prelude::*;
use crate::array::{MultArray, inner_size_of, inner_count_of};
use crate::descriptor::{BlockInfo, is_initial, reset};
use crate::grid::{blocks_per_row, block_count, is_chained, rows_per_block};
use crate::scan::MAX_BLOCK_COUNT;
use crate::task::{Task, Order};

verus! {

/// A task that scans the rows of `input_m` into `output_m`, over the descriptors `temp`.
pub fn create_task<const N: usize>(input_m: MultArray<N>, temp: Vec<BlockInfo>, output_m: MultArray<N>) -> (r: Task)
    requires
        input_m.wf(),
        output_m.wf(),
        input_m.shape_view() == output_m.shape_view(),
        N >= 1,
        block_count(inner_size_of(input_m.shape_view()), inner_count_of(input_m.shape_view())) < MAX_BLOCK_COUNT,
        temp@.len() == blocks_per_row(inner_size_of(input_m.shape_view())) * inner_count_of(input_m.shape_view()),
        forall|i: int| 0 <= i < temp@.len() ==> is_initial(#[trigger] temp@[i]),
    ensures
        r.inv(),
        r.row_count() == inner_count_of(input_m.shape_view()),
        r.work_size() == block_count(inner_size_of(input_m.shape_view()), inner_count_of(input_m.shape_view())),
        r.chained_grid() == is_chained(inner_size_of(input_m.shape_view())),
        !is_chained(inner_size_of(input_m.shape_view())) ==> r.group_rows() == rows_per_block(inner_size_of(input_m.shape_view())),
        r.descriptors().len() == temp@.len(),
        r.claim_order() == Order::Adaptive,
        r.values() == input_m.data_view(),
        r.output_view() == output_m.data_view(),
        r.row_length() == inner_size_of(input_m.shape_view()),
        r.descriptors() == temp@,
        r.worker_count() == 0,
        !r.scans_in_place(),
        forall|i: int| 0 <= i < r.write_counts().len() ==> #[trigger] r.write_counts()[i] == 0,
{
    let inner_size = input_m.get_inner_size();
    let rows = input_m.total_inner_count();
    proof {
        input_m.lemma_size();
    }
    let input = input_m.into_data();
    let output = output_m.into_data();
    let ghost orig = input@;
    Task::build(input, output, false, temp, inner_size, rows, Order::Adaptive, false, Ghost(orig))
}

/// A task that scans the rows of `values` in place, over the descriptors `temp`.
pub fn create_task_in_place<const N: usize>(values: MultArray<N>, temp: Vec<BlockInfo>) -> (r: Task)
    requires
        values.wf(),
        N >= 1,
        block_count(inner_size_of(values.shape_view()), inner_count_of(values.shape_view())) < MAX_BLOCK_COUNT,
        temp@.len() == blocks_per_row(inner_size_of(values.shape_view())) * inner_count_of(values.shape_view()),
        forall|i: int| 0 <= i < temp@.len() ==> is_initial(#[trigger] temp@[i]),
    ensures
        r.inv(),
        r.row_count() == inner_count_of(values.shape_view()),
        r.work_size() == block_count(inner_size_of(values.shape_view()), inner_count_of(values.shape_view())),
        r.chained_grid() == is_chained(inner_size_of(values.shape_view())),
        !is_chained(inner_size_of(values.shape_view())) ==> r.group_rows() == rows_per_block(inner_size_of(values.shape_view())),
        r.descriptors().len() == temp@.len(),
        r.claim_order() == Order::Adaptive,
        r.values() == values.data_view(),
        r.output_view() == values.data_view(),
        r.row_length() == inner_size_of(values.shape_view()),
        r.descriptors() == temp@,
        r.worker_count() == 0,
        r.scans_in_place(),
        forall|i: int| 0 <= i < r.write_counts().len() ==> #[trigger] r.write_counts()[i] == 0,
{
    let inner_size = values.get_inner_size();
    let rows = values.total_inner_count();
    proof {
        values.lemma_size();
    }
    let output = values.into_data();
    let ghost orig = output@;
    Task::build(Vec::new(), output, true, temp, inner_size, rows, Order::Adaptive, false, Ghost(orig))
}

/// Resets the descriptors, then builds the task that scans `input` into `output`, its
/// workers claiming blocks in `order`.
pub fn init_ordered<const N: usize>(input: MultArray<N>, temp: Vec<BlockInfo>, output: MultArray<N>, order: Order) -> (r: Task)
    requires
        input.wf(),
        output.wf(),
        input.shape_view() == output.shape_view(),
        N >= 1,
        block_count(inner_size_of(input.shape_view()), inner_count_of(input.shape_view())) < MAX_BLOCK_COUNT,
        temp@.len() == blocks_per_row(inner_size_of(input.shape_view())) * inner_count_of(input.shape_view()),
    ensures
        r.inv(),
        r.row_count() == inner_count_of(input.shape_view()),
        r.work_size() == block_count(inner_size_of(input.shape_view()), inner_count_of(input.shape_view())),
        r.chained_grid() == is_chained(inner_size_of(input.shape_view())),
        !is_chained(inner_size_of(input.shape_view())) ==> r.group_rows() == rows_per_block(inner_size_of(input.shape_view())),
        r.descriptors().len() == temp@.len(),
        r.claim_order() == order,
        r.values() == input.data_view(),
        r.output_view() == output.data_view(),
        r.row_length() == inner_size_of(input.shape_view()),
        r.worker_count() == 0,
        !r.scans_in_place(),
        forall|i: int| 0 <= i < r.descriptors().len() ==> is_initial(#[trigger] r.descriptors()[i]),
        forall|i: int| 0 <= i < r.write_counts().len() ==> #[trigger] r.write_counts()[i] == 0,
{
    let mut temp = temp;
    reset(&mut temp);
    let inner_size = input.get_inner_size();
    let rows = input.total_inner_count();
    proof {
        input.lemma_size();
    }
    let input = input.into_data();
    let output = output.into_data();
    let ghost orig = input@;
    Task::build(input, output, false, temp, inner_size, rows, order, false, Ghost(orig))
}

/// Resets the descriptors, then builds the task that scans `input` into `output`: the first
/// worker claims row-wise, later ones column-wise.
pub fn init_single<const N: usize>(input: MultArray<N>, temp: Vec<BlockInfo>, output: MultArray<N>) -> (r: Task)
    requires
        input.wf(),
        output.wf(),
        input.shape_view() == output.shape_view(),
        N >= 1,
        block_count(inner_size_of(input.shape_view()), inner_count_of(input.shape_view())) < MAX_BLOCK_COUNT,
        temp@.len() == blocks_per_row(inner_size_of(input.shape_view())) * inner_count_of(input.shape_view()),
    ensures
        r.inv(),
        r.row_count() == inner_count_of(input.shape_view()),
        r.work_size() == block_count(inner_size_of(input.shape_view()), inner_count_of(input.shape_view())),
        r.chained_grid() == is_chained(inner_size_of(input.shape_view())),
        !is_chained(inner_size_of(input.shape_view())) ==> r.group_rows() == rows_per_block(inner_size_of(input.shape_view())),
        r.descriptors().len() == temp@.len(),
        r.claim_order() == Order::Adaptive,
        r.values() == input.data_view(),
        r.output_view() == output.data_view(),
        r.row_length() == inner_size_of(input.shape_view()),
        r.worker_count() == 0,
        !r.scans_in_place(),
        forall|i: int| 0 <= i < r.descriptors().len() ==> is_initial(#[trigger] r.descriptors()[i]),
        forall|i: int| 0 <= i < r.write_counts().len() ==> #[trigger] r.write_counts()[i] == 0,
{
    init_ordered(input, temp, output, Order::Adaptive)
}

/// Resets the descriptors, then builds the task that scans `values` in place.
pub fn init_single_in_place<const N: usize>(values: MultArray<N>, temp: Vec<BlockInfo>) -> (r: Task)
    requires
        values.wf(),
        N >= 1,
        block_count(inner_size_of(values.shape_view()), inner_count_of(values.shape_view())) < MAX_BLOCK_COUNT,
        temp@.len() == blocks_per_row(inner_size_of(values.shape_view())) * inner_count_of(values.shape_view()),
    ensures
        r.inv(),
        r.row_count() == inner_count_of(values.shape_view()),
        r.work_size() == block_count(inner_size_of(values.shape_view()), inner_count_of(values.shape_view())),
        r.chained_grid() == is_chained(inner_size_of(values.shape_view())),
        !is_chained(inner_size_of(values.shape_view())) ==> r.group_rows() == rows_per_block(inner_size_of(values.shape_view())),
        r.descriptors().len() == temp@.len(),
        r.claim_order() == Order::Adaptive,
        r.values() == values.data_view(),
        r.output_view() == values.data_view(),
        r.row_length() == inner_size_of(values.shape_view()),
        r.worker_count() == 0,
        r.scans_in_place(),
        forall|i: int| 0 <= i < r.descriptors().len() ==> is_initial(#[trigger] r.descriptors()[i]),
        forall|i: int| 0 <= i < r.write_counts().len() ==> #[trigger] r.write_counts()[i] == 0,
{
    let mut temp = temp;
    reset(&mut temp);
    create_task_in_place(values, temp)
}

} // verus!
