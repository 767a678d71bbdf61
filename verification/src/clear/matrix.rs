//! A matrix of plain numbers.
use crate::algebra::{
    computes, dot_cost, dot_product, entrywise, grid_holds, grid_times, grid_values, lemma_values_stable, zip_grid, Binary, Domain, ShapeError,
};
use crate::clear::vector::{decimal_values, literals, PlainVector};
use crate::number::Decimal;
use crate::program::{bootstraps, value_at, values_at, Program};
use vstd::prelude::*;

verus! {

/// A matrix of plain numbers with `dim_n` rows and `dim_m` columns: row by
/// row, the registers that hold them.
#[derive(Clone, Debug)]
pub struct PlainMatrix {
    pub plainmatrix: Vec<Vec<usize>>,
    pub dim_n: usize,
    pub dim_m: usize,
}

/// The decimals of a grid as real numbers, row by row.
pub open spec fn decimal_grid(rows: Seq<Vec<Decimal>>) -> Seq<Seq<real>> {
    Seq::new(rows.len(), |i: int| decimal_values(rows[i]@))
}

/// Every row of the grid has `width` numbers.
pub open spec fn rectangular(rows: Seq<Vec<Decimal>>, width: int) -> bool {
    forall|i: int| 0 <= i < rows.len() ==> (#[trigger] rows[i])@.len() == width
}

/// Whether every row of the grid has `width` numbers.
pub fn is_rectangular(rows: &Vec<Vec<Decimal>>, width: usize) -> (yes: bool)
    ensures
        yes == rectangular(rows@, width as int),
{
    let mut i: usize = 0;
    while i < rows.len()
        invariant
            i <= rows@.len(),
            forall|j: int| 0 <= j < i ==> (#[trigger] rows@[j])@.len() == width,
        decreases rows@.len() - i,
    {
        if rows[i].len() != width {
            return false;
        }
        i = i + 1;
    }
    true
}

/// One register for each number of a grid with rows of `width` numbers.
pub fn literal_grid(program: &mut Program, rows: &Vec<Vec<Decimal>>, width: usize) -> (grid: Vec<
    Vec<usize>,
>)
    requires
        old(program).wf(),
        rectangular(rows@, width as int),
    ensures
        computes(*final(program), *old(program), Domain::Plain),
        grid@.len() == rows@.len(),
        grid_holds(final(program)@, grid@, width as int, Domain::Plain),
        forall|inputs: Seq<real>| #[trigger]
            grid_values(final(program)@, inputs, grid@) == decimal_grid(rows@),
        bootstraps(final(program)@) == bootstraps(old(program)@),
{
    let ghost start = *program;
    let mut grid: Vec<Vec<usize>> = Vec::new();
    let mut i: usize = 0;
    while i < rows.len()
        invariant
            i <= rows@.len(),
            grid@.len() == i,
            rectangular(rows@, width as int),
            computes(*program, start, Domain::Plain),
            grid_holds(program@, grid@, width as int, Domain::Plain),
            forall|inputs: Seq<real>, j: int|
                0 <= j < i ==> #[trigger] values_at(program@, inputs, grid@[j]@) == decimal_values(
                    rows@[j]@,
                ),
            bootstraps(program@) == bootstraps(start@),
        decreases rows@.len() - i,
    {
        let ghost before = *program;
        let ghost done = grid@;
        let row = literals(program, &rows[i]);
        grid.push(row);
        proof {
            assert forall|inputs: Seq<real>, j: int| 0 <= j < i + 1 implies #[trigger] values_at(
                program@,
                inputs,
                grid@[j]@,
            ) == decimal_values(rows@[j]@) by {
                if j < i {
                    lemma_values_stable(program@, before@, inputs, done[j]@);
                }
            }
        }
        i = i + 1;
    }
    grid
}

impl PlainMatrix {
    /// The matrix has the shape it says, and its entries are plain numbers of
    /// `program`.
    pub open spec fn within(&self, program: Program) -> bool {
        &&& self.dim_n == self.plainmatrix@.len()
        &&& grid_holds(program@, self.plainmatrix@, self.dim_m as int, Domain::Plain)
    }

    /// The exact numbers of the matrix, row by row, after a run on `inputs`.
    pub open spec fn values(&self, program: Program, inputs: Seq<real>) -> Seq<Seq<real>> {
        grid_values(program@, inputs, self.plainmatrix@)
    }

    /// Row `i` as a vector of its own, which shares nothing with the matrix.
    pub fn get_row(&self, i: usize) -> (row: PlainVector)
        requires
            i < self.plainmatrix@.len(),
        ensures
            row.plainvector@ == self.plainmatrix@[i as int]@,
            row.dim == self.dim_m,
    {
        let plainvector = self.plainmatrix[i].clone();
        PlainVector { plainvector, dim: self.dim_m }
    }

    /// The matrix of the numbers `v_matrix`, written into the program as
    /// constants. It has as many columns as the first row has numbers. A grid
    /// without rows, and one whose rows are not all as long as the first, are
    /// refused, and the program is left as it was.
    pub fn new(v_matrix: &Vec<Vec<Decimal>>, program: &mut Program) -> (matrix: Result<
        PlainMatrix,
        ShapeError,
    >)
        requires
            old(program).wf(),
        ensures
            computes(*final(program), *old(program), Domain::Plain),
            bootstraps(final(program)@) == bootstraps(old(program)@),
            match matrix {
                Ok(m) => {
                    &&& v_matrix@.len() >= 1
                    &&& rectangular(v_matrix@, v_matrix@[0]@.len() as int)
                    &&& m.dim_n == v_matrix@.len()
                    &&& m.dim_m == v_matrix@[0]@.len()
                    &&& m.within(*final(program))
                    &&& forall|inputs: Seq<real>| #[trigger]
                        m.values(*final(program), inputs) == decimal_grid(v_matrix@)
                },
                Err(e) => {
                    &&& final(program)@ == old(program)@
                    &&& e == if v_matrix@.len() == 0 {
                        ShapeError::Empty
                    } else {
                        ShapeError::DimensionMismatch
                    }
                    &&& v_matrix@.len() == 0 || !rectangular(
                        v_matrix@,
                        v_matrix@[0]@.len() as int,
                    )
                },
            },
    {
        if v_matrix.len() == 0 {
            return Err(ShapeError::Empty);
        }
        let n = v_matrix.len();
        let m = v_matrix[0].len();
        if !is_rectangular(v_matrix, m) {
            return Err(ShapeError::DimensionMismatch);
        }
        let plainmatrix = literal_grid(program, v_matrix, m);
        Ok(PlainMatrix { plainmatrix, dim_n: n, dim_m: m })
    }

    /// Entry by entry, the result of `op` on two matrices of one shape.
    fn combine(&self, other: &PlainMatrix, op: Binary, program: &mut Program) -> (result: Result<
        PlainMatrix,
        ShapeError,
    >)
        requires
            old(program).wf(),
            self.within(*old(program)),
            other.within(*old(program)),
        ensures
            computes(*final(program), *old(program), Domain::Plain),
            bootstraps(final(program)@) == bootstraps(old(program)@),
            match result {
                Ok(c) => {
                    &&& self.dim_n == other.dim_n
                    &&& self.dim_m == other.dim_m
                    &&& c.dim_n == self.dim_n
                    &&& c.dim_m == self.dim_m
                    &&& c.within(*final(program))
                    &&& forall|i: int|
                        0 <= i < self.dim_n ==> entrywise(
                            final(program)@,
                            old(program)@,
                            (#[trigger] c.plainmatrix@[i])@,
                            self.plainmatrix@[i]@,
                            other.plainmatrix@[i]@,
                            op,
                        )
                },
                Err(e) => {
                    &&& self.dim_n != other.dim_n || self.dim_m != other.dim_m
                    &&& e == ShapeError::DimensionMismatch
                    &&& final(program)@ == old(program)@
                },
            },
    {
        if self.dim_n != other.dim_n || self.dim_m != other.dim_m {
            return Err(ShapeError::DimensionMismatch);
        }
        let plainmatrix = zip_grid(
            program,
            &self.plainmatrix,
            &other.plainmatrix,
            self.dim_m,
            op,
            Domain::Plain,
        );
        proof {
            assert(self.dim_n * (self.dim_m * 0) == 0) by (nonlinear_arith);
        }
        Ok(PlainMatrix { plainmatrix, dim_n: self.dim_n, dim_m: self.dim_m })
    }

    /// The sum of two matrices, entry by entry. Matrices of different shapes
    /// are refused, and the program is left as it was.
    pub fn add(&self, other: &PlainMatrix, program: &mut Program) -> (sum: Result<
        PlainMatrix,
        ShapeError,
    >)
        requires
            old(program).wf(),
            self.within(*old(program)),
            other.within(*old(program)),
        ensures
            computes(*final(program), *old(program), Domain::Plain),
            bootstraps(final(program)@) == bootstraps(old(program)@),
            match sum {
                Ok(c) => {
                    &&& self.dim_n == other.dim_n
                    &&& self.dim_m == other.dim_m
                    &&& c.dim_n == self.dim_n
                    &&& c.dim_m == self.dim_m
                    &&& c.within(*final(program))
                    &&& forall|i: int|
                        0 <= i < self.dim_n ==> entrywise(
                            final(program)@,
                            old(program)@,
                            (#[trigger] c.plainmatrix@[i])@,
                            self.plainmatrix@[i]@,
                            other.plainmatrix@[i]@,
                            Binary::Add,
                        )
                },
                Err(e) => {
                    &&& self.dim_n != other.dim_n || self.dim_m != other.dim_m
                    &&& e == ShapeError::DimensionMismatch
                    &&& final(program)@ == old(program)@
                },
            },
    {
        self.combine(other, Binary::Add, program)
    }

    /// The difference of two matrices, entry by entry. Matrices of different
    /// shapes are refused, and the program is left as it was.
    pub fn sub(&self, other: &PlainMatrix, program: &mut Program) -> (difference: Result<
        PlainMatrix,
        ShapeError,
    >)
        requires
            old(program).wf(),
            self.within(*old(program)),
            other.within(*old(program)),
        ensures
            computes(*final(program), *old(program), Domain::Plain),
            bootstraps(final(program)@) == bootstraps(old(program)@),
            match difference {
                Ok(c) => {
                    &&& self.dim_n == other.dim_n
                    &&& self.dim_m == other.dim_m
                    &&& c.dim_n == self.dim_n
                    &&& c.dim_m == self.dim_m
                    &&& c.within(*final(program))
                    &&& forall|i: int|
                        0 <= i < self.dim_n ==> entrywise(
                            final(program)@,
                            old(program)@,
                            (#[trigger] c.plainmatrix@[i])@,
                            self.plainmatrix@[i]@,
                            other.plainmatrix@[i]@,
                            Binary::Sub,
                        )
                },
                Err(e) => {
                    &&& self.dim_n != other.dim_n || self.dim_m != other.dim_m
                    &&& e == ShapeError::DimensionMismatch
                    &&& final(program)@ == old(program)@
                },
            },
    {
        self.combine(other, Binary::Sub, program)
    }

    /// The product of the matrix with a vector: for each row, its dot product
    /// with the vector. A vector that is not as long as the rows, and a
    /// matrix without columns, are refused, and the program is left as it
    /// was.
    pub fn mul(&self, other: &PlainVector, program: &mut Program) -> (product: Result<
        PlainVector,
        ShapeError,
    >)
        requires
            old(program).wf(),
            self.within(*old(program)),
            other.within(*old(program)),
        ensures
            computes(*final(program), *old(program), Domain::Plain),
            bootstraps(final(program)@) == bootstraps(old(program)@),
            match product {
                Ok(w) => {
                    &&& other.dim == self.dim_m
                    &&& self.dim_m >= 1
                    &&& w.dim == self.dim_n
                    &&& w.within(*final(program))
                    &&& forall|inputs: Seq<real>, i: int|
                        0 <= i < self.dim_n ==> #[trigger] value_at(
                            final(program)@,
                            inputs,
                            w.plainvector@[i] as int,
                        ) == dot_product(
                            self.values(*old(program), inputs)[i],
                            other.values(*old(program), inputs),
                        )
                },
                Err(e) => {
                    &&& e == if other.dim != self.dim_m {
                        ShapeError::DimensionMismatch
                    } else {
                        ShapeError::Empty
                    }
                    &&& other.dim != self.dim_m || self.dim_m == 0
                    &&& final(program)@ == old(program)@
                },
            },
    {
        if other.dim != self.dim_m {
            return Err(ShapeError::DimensionMismatch);
        }
        if self.dim_m == 0 {
            return Err(ShapeError::Empty);
        }
        let plainvector = grid_times(program, &self.plainmatrix, &other.plainvector, Domain::Plain);
        proof {
            let cost = dot_cost(
                self.dim_m as nat,
                Domain::Plain,
                *old(program),
            );
            assert(cost == 0) by {
                assert((self.dim_m - 1) * 0 == 0) by (nonlinear_arith);
            }
        }
        Ok(PlainVector { plainvector, dim: self.dim_n })
    }
}

} // verus!
