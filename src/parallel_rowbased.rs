use vstd::prelude::*;
use crate::array::{MultArray, inner_size_of, inner_count_of};
use crate::scan::MAX_BLOCK_COUNT;
use crate::task::{Task, Order};

verus! {

/// The task that scans `input_m` into `output_m` one whole row per block: rows are handed out
/// to the workers in order, and each row is scanned by the worker that claimed it.
pub fn create_task<const N: usize>(input_m: MultArray<N>, output_m: MultArray<N>) -> (r: Task)
    requires
        input_m.wf(),
        output_m.wf(),
        input_m.shape_view() == output_m.shape_view(),
        N >= 1,
        inner_count_of(input_m.shape_view()) < MAX_BLOCK_COUNT,
    ensures
        r.inv(),
        r.row_count() == inner_count_of(input_m.shape_view()),
        r.work_size() == inner_count_of(input_m.shape_view()),
        r.group_rows() == 1,
        !r.chained_grid(),
        r.values() == input_m.data_view(),
        r.output_view() == output_m.data_view(),
        r.row_length() == inner_size_of(input_m.shape_view()),
        r.worker_count() == 0,
        !r.scans_in_place(),
        forall|i: int| 0 <= i < r.write_counts().len() ==> #[trigger] r.write_counts()[i] == 0,
{
    let inner_size = input_m.get_inner_size();
    let rows = input_m.total_inner_count();
    proof {
        input_m.lemma_size();
    }
    let input = input_m.into_data();
    let output = output_m.into_data();
    let ghost orig = input@;
    Task::build(input, output, false, Vec::new(), inner_size, rows, Order::ColumnWise, true, Ghost(orig))
}

} // verus!
