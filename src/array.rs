use vstd::prelude::*;

verus! {

/// Product of all dimensions of a shape.
pub open spec fn product(s: Seq<usize>) -> int
    decreases s.len(),
{
    if s.len() == 0 {
        1
    } else {
        product(s.drop_last()) * s.last()
    }
}

/// Every partial product of the shape, taken from the outermost dimension, fits in `usize`.
pub open spec fn shape_fits(s: Seq<usize>) -> bool {
    forall|k: int| 0 <= k <= s.len() ==> #[trigger] product(s.take(k)) <= usize::MAX
}

/// Length of the innermost dimension (the row length), or 0 for a shape without dimensions.
pub open spec fn inner_size_of(s: Seq<usize>) -> int {
    if s.len() == 0 {
        0
    } else {
        s.last() as int
    }
}

/// Number of rows: the product of all dimensions but the innermost one.
pub open spec fn inner_count_of(s: Seq<usize>) -> int {
    if s.len() == 0 {
        0
    } else {
        product(s.drop_last())
    }
}

proof fn lemma_product_nonneg(s: Seq<usize>)
    ensures
        product(s) >= 0,
    decreases s.len(),
{
    if s.len() > 0 {
        lemma_product_nonneg(s.drop_last());
        vstd::arithmetic::mul::lemma_mul_nonnegative(product(s.drop_last()), s.last() as int);
    }
}

/// A multi-dimensional array of 64-bit cells, stored flat in row-major order.
pub struct MultArray<const N: usize> {
    data: Vec<u64>,
    shape: [usize; N],
}

impl<const N: usize> MultArray<N> {
    pub closed spec fn shape_view(&self) -> Seq<usize> {
        self.shape@
    }

    pub closed spec fn data_view(&self) -> Seq<u64> {
        self.data@
    }

    /// The flat data holds exactly one cell per index of the shape.
    pub open spec fn wf(&self) -> bool {
        &&& self.data_view().len() == product(self.shape_view())
        &&& shape_fits(self.shape_view())
    }

    /// The cells are exactly the rows times the row length.
    pub proof fn lemma_size(&self)
        requires
            self.wf(),
        ensures
            self.shape_view().len() == N,
            self.shape_view().len() > 0 ==> self.data_view().len() == inner_size_of(self.shape_view())
                * inner_count_of(self.shape_view()),
            inner_size_of(self.shape_view()) >= 0,
            inner_count_of(self.shape_view()) >= 0,
    {
        let s = self.shape_view();
        if s.len() == 0 {
        } else {
            lemma_product_nonneg(s.drop_last());
            assert(product(s) == product(s.drop_last()) * s.last());
            vstd::arithmetic::mul::lemma_mul_is_commutative(product(s.drop_last()), s.last() as int);
        }
    }

    fn calc_size(shape: [usize; N]) -> (r: usize)
        requires
            shape_fits(shape@),
        ensures
            r == product(shape@),
    {
        let mut cap: usize = 1;
        let mut i: usize = 0;
        while i < N
            invariant
                i <= N,
                shape@.len() == N,
                shape_fits(shape@),
                cap == product(shape@.take(i as int)),
            decreases N - i,
        {
            proof {
                assert(shape@.take(i as int + 1).drop_last() =~= shape@.take(i as int));
                assert(product(shape@.take(i as int + 1)) <= usize::MAX);
            }
            cap = cap * shape[i];
            i = i + 1;
        }
        assert(shape@.take(N as int) =~= shape@);
        cap
    }

    /// An array of the given shape with every cell zero.
    pub fn new(shape: [usize; N]) -> (r: Self)
        requires
            shape_fits(shape@),
        ensures
            r.wf(),
            r.shape_view() == shape@,
            r.data_view() == Seq::new(product(shape@) as nat, |i: int| 0u64),
    {
        let length = Self::calc_size(shape);
        let data = vec![0u64; length];
        proof {
            assert(data@ =~= Seq::new(product(shape@) as nat, |i: int| 0u64));
        }
        MultArray { data, shape }
    }

    /// The size of the innermost dimension.
    pub fn get_inner_size(&self) -> (r: usize)
        ensures
            r == inner_size_of(self.shape_view()),
    {
        if N == 0 {
            0
        } else {
            self.shape[N - 1]
        }
    }

    /// Replaces the cells, keeping the shape.
    pub fn store(&mut self, data: Vec<u64>)
        requires
            old(self).wf(),
            data@.len() == product(old(self).shape_view()),
        ensures
            final(self).wf(),
            final(self).shape_view() == old(self).shape_view(),
            final(self).data_view() == data@,
    {
        self.data = data;
    }

    /// The total number of rows of the innermost dimension.
    pub fn total_inner_count(&self) -> (r: usize)
        requires
            self.wf(),
        ensures
            r == inner_count_of(self.shape_view()),
    {
        if N == 0 {
            0
        } else {
            let mut count: usize = 1;
            let mut i: usize = 0;
            while i < N - 1
                invariant
                    i <= N - 1,
                    N >= 1,
                    self.shape@.len() == N,
                    shape_fits(self.shape@),
                    count == product(self.shape@.take(i as int)),
                decreases N - 1 - i,
            {
                proof {
                    assert(self.shape@.take(i as int + 1).drop_last() =~= self.shape@.take(i as int));
                    assert(product(self.shape@.take(i as int + 1)) <= usize::MAX);
                }
                count = count * self.shape[i];
                i = i + 1;
            }
            assert(self.shape@.take(N - 1) =~= self.shape@.drop_last());
            count
        }
    }

    /// Gives up the array, handing back its cells.
    pub fn into_data(self) -> (r: Vec<u64>)
        ensures
            r@ == self.data_view(),
    {
        self.data
    }

    /// The flat cells, row after row.
    pub fn get_data(&self) -> (r: &Vec<u64>)
        ensures
            r@ == self.data_view(),
    {
        &self.data
    }
}


} // verus!
