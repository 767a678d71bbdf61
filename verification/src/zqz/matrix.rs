//! A matrix of encrypted numbers.
use crate::algebra::{
    computes, dot_cost, dot_product, entrywise, grid_holds, grid_times, grid_values, zip_grid, Binary,
    Domain, ShapeError,
};
use crate::program::{bootstraps, value_at, Program};
use crate::zqz::vector::CipherVector;
use vstd::prelude::*;

verus! {

/// A matrix of encrypted numbers with `dim_n` rows and `dim_m` columns: row
/// by row, the registers that hold their ciphertexts.
#[derive(Clone, Debug)]
pub struct CipherMatrix {
    pub ciphermatrix: Vec<Vec<usize>>,
    pub dim_n: usize,
    pub dim_m: usize,
}

impl CipherMatrix {
    /// The matrix has the shape it says, and its entries are ciphertexts of
    /// `program`.
    pub open spec fn within(&self, program: Program) -> bool {
        &&& self.dim_n == self.ciphermatrix@.len()
        &&& grid_holds(program@, self.ciphermatrix@, self.dim_m as int, Domain::Cipher)
    }

    /// The exact numbers under the encryption, row by row, after a run on
    /// `inputs`.
    pub open spec fn values(&self, program: Program, inputs: Seq<real>) -> Seq<Seq<real>> {
        grid_values(program@, inputs, self.ciphermatrix@)
    }

    /// Row `i` as a vector of its own, which shares nothing with the matrix.
    pub fn get_row(&self, i: usize) -> (row: CipherVector)
        requires
            i < self.ciphermatrix@.len(),
        ensures
            row.ciphervector@ == self.ciphermatrix@[i as int]@,
            row.dim == self.dim_m,
    {
        let ciphervector = self.ciphermatrix[i].clone();
        CipherVector { ciphervector, dim: self.dim_m }
    }

    /// Entry by entry, the result of `op` on two matrices of one shape.
    fn combine(&self, other: &CipherMatrix, op: Binary, program: &mut Program) -> (result: Result<
        CipherMatrix,
        ShapeError,
    >)
        requires
            old(program).wf(),
            self.within(*old(program)),
            other.within(*old(program)),
        ensures
            computes(*final(program), *old(program), Domain::Cipher),
            match result {
                Ok(c) => {
                    &&& self.dim_n == other.dim_n
                    &&& self.dim_m == other.dim_m
                    &&& c.dim_n == self.dim_n
                    &&& c.dim_m == self.dim_m
                    &&& c.within(*final(program))
                    &&& forall|i: int|
                        0 <= i < self.dim_n ==> entrywise(
                            final(program)@,
                            old(program)@,
                            (#[trigger] c.ciphermatrix@[i])@,
                            self.ciphermatrix@[i]@,
                            other.ciphermatrix@[i]@,
                            op,
                        )
                    &&& bootstraps(final(program)@) == bootstraps(old(program)@) + self.dim_n * (
                    self.dim_m * op.cost(Domain::Cipher, *old(program)))
                },
                Err(e) => {
                    &&& self.dim_n != other.dim_n || self.dim_m != other.dim_m
                    &&& e == ShapeError::DimensionMismatch
                    &&& final(program)@ == old(program)@
                },
            },
    {
        if self.dim_n != other.dim_n || self.dim_m != other.dim_m {
            return Err(ShapeError::DimensionMismatch);
        }
        let ciphermatrix = zip_grid(
            program,
            &self.ciphermatrix,
            &other.ciphermatrix,
            self.dim_m,
            op,
            Domain::Cipher,
        );
        Ok(CipherMatrix { ciphermatrix, dim_n: self.dim_n, dim_m: self.dim_m })
    }

    /// The sum of two matrices, entry by entry. Matrices of different shapes
    /// are refused, and the program is left as it was.
    pub fn add(&self, other: &CipherMatrix, program: &mut Program) -> (sum: Result<
        CipherMatrix,
        ShapeError,
    >)
        requires
            old(program).wf(),
            self.within(*old(program)),
            other.within(*old(program)),
        ensures
            computes(*final(program), *old(program), Domain::Cipher),
            match sum {
                Ok(c) => {
                    &&& self.dim_n == other.dim_n
                    &&& self.dim_m == other.dim_m
                    &&& c.dim_n == self.dim_n
                    &&& c.dim_m == self.dim_m
                    &&& c.within(*final(program))
                    &&& forall|i: int|
                        0 <= i < self.dim_n ==> entrywise(
                            final(program)@,
                            old(program)@,
                            (#[trigger] c.ciphermatrix@[i])@,
                            self.ciphermatrix@[i]@,
                            other.ciphermatrix@[i]@,
                            Binary::Add,
                        )
                    &&& bootstraps(final(program)@) == bootstraps(old(program)@) + self.dim_n * (
                    self.dim_m * old(program).refresh_cost())
                },
                Err(e) => {
                    &&& self.dim_n != other.dim_n || self.dim_m != other.dim_m
                    &&& e == ShapeError::DimensionMismatch
                    &&& final(program)@ == old(program)@
                },
            },
    {
        self.combine(other, Binary::Add, program)
    }

    /// The difference of two matrices, entry by entry. Matrices of different
    /// shapes are refused, and the program is left as it was.
    pub fn sub(&self, other: &CipherMatrix, program: &mut Program) -> (difference: Result<
        CipherMatrix,
        ShapeError,
    >)
        requires
            old(program).wf(),
            self.within(*old(program)),
            other.within(*old(program)),
        ensures
            computes(*final(program), *old(program), Domain::Cipher),
            match difference {
                Ok(c) => {
                    &&& self.dim_n == other.dim_n
                    &&& self.dim_m == other.dim_m
                    &&& c.dim_n == self.dim_n
                    &&& c.dim_m == self.dim_m
                    &&& c.within(*final(program))
                    &&& forall|i: int|
                        0 <= i < self.dim_n ==> entrywise(
                            final(program)@,
                            old(program)@,
                            (#[trigger] c.ciphermatrix@[i])@,
                            self.ciphermatrix@[i]@,
                            other.ciphermatrix@[i]@,
                            Binary::Sub,
                        )
                    &&& bootstraps(final(program)@) == bootstraps(old(program)@) + self.dim_n * (
                    self.dim_m * old(program).refresh_cost())
                },
                Err(e) => {
                    &&& self.dim_n != other.dim_n || self.dim_m != other.dim_m
                    &&& e == ShapeError::DimensionMismatch
                    &&& final(program)@ == old(program)@
                },
            },
    {
        self.combine(other, Binary::Sub, program)
    }

    /// The product of the matrix with a vector: for each row, its dot product
    /// with the vector, so one product of ciphertexts for each entry of the
    /// matrix. A vector that is not as long as the rows, and a matrix without
    /// columns, are refused, and the program is left as it was.
    pub fn mul(&self, other: &CipherVector, program: &mut Program) -> (product: Result<
        CipherVector,
        ShapeError,
    >)
        requires
            old(program).wf(),
            self.within(*old(program)),
            other.within(*old(program)),
        ensures
            computes(*final(program), *old(program), Domain::Cipher),
            match product {
                Ok(w) => {
                    &&& other.dim == self.dim_m
                    &&& self.dim_m >= 1
                    &&& w.dim == self.dim_n
                    &&& w.within(*final(program))
                    &&& forall|inputs: Seq<real>, i: int|
                        0 <= i < self.dim_n ==> #[trigger] value_at(
                            final(program)@,
                            inputs,
                            w.ciphervector@[i] as int,
                        ) == dot_product(
                            self.values(*old(program), inputs)[i],
                            other.values(*old(program), inputs),
                        )
                    &&& bootstraps(final(program)@) == bootstraps(old(program)@) + self.dim_n
                        * dot_cost(self.dim_m as nat, Domain::Cipher, *old(program))
                },
                Err(e) => {
                    &&& e == if other.dim != self.dim_m {
                        ShapeError::DimensionMismatch
                    } else {
                        ShapeError::Empty
                    }
                    &&& other.dim != self.dim_m || self.dim_m == 0
                    &&& final(program)@ == old(program)@
                },
            },
    {
        if other.dim != self.dim_m {
            return Err(ShapeError::DimensionMismatch);
        }
        if self.dim_m == 0 {
            return Err(ShapeError::Empty);
        }
        let ciphervector = grid_times(
            program,
            &self.ciphermatrix,
            &other.ciphervector,
            Domain::Cipher,
        );
        Ok(CipherVector { ciphervector, dim: self.dim_n })
    }
}

} // verus!
