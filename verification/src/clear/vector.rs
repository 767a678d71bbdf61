//! A vector of plain numbers.
use crate::algebra::{
    all_hold, broadcast, computes, dot_product, entrywise, entrywise_constant, entrywise_with,
    fold_products, holds, lemma_values_stable, zip, Binary, Domain, ShapeError,
};
use crate::number::Decimal;
use crate::program::{bootstraps, value_at, values_at, Op, Program};
use vstd::prelude::*;

verus! {

/// A vector of `dim` plain numbers: the registers that hold them, in order.
/// It has the operations of a vector of encrypted numbers, each of which is
/// written into the program as the plain operation.
#[derive(Clone, Debug)]
pub struct PlainVector {
    pub plainvector: Vec<usize>,
    pub dim: usize,
}

/// The decimals of a row as real numbers.
pub open spec fn decimal_values(row: Seq<Decimal>) -> Seq<real> {
    Seq::new(row.len(), |i: int| row[i].value())
}

/// One register for each number of `v`, which holds that number.
pub fn literals(program: &mut Program, v: &Vec<Decimal>) -> (w: Vec<usize>)
    requires
        old(program).wf(),
    ensures
        computes(*final(program), *old(program), Domain::Plain),
        w@.len() == v@.len(),
        all_hold(final(program)@, w@, Domain::Plain),
        forall|inputs: Seq<real>| #[trigger]
            values_at(final(program)@, inputs, w@) == decimal_values(v@),
        bootstraps(final(program)@) == bootstraps(old(program)@),
{
    let ghost start = *program;
    let mut w: Vec<usize> = Vec::new();
    let mut i: usize = 0;
    while i < v.len()
        invariant
            i <= v@.len(),
            w@.len() == i,
            computes(*program, start, Domain::Plain),
            all_hold(program@, w@, Domain::Plain),
            forall|inputs: Seq<real>, j: int|
                0 <= j < i ==> #[trigger] value_at(program@, inputs, w@[j] as int)
                    == v@[j].value(),
            bootstraps(program@) == bootstraps(start@),
        decreases v@.len() - i,
    {
        let r = program.emit(Op::Literal(v[i]));
        w.push(r);
        i = i + 1;
    }
    w
}

impl PlainVector {
    /// The vector is as long as it says, and its entries are plain numbers of
    /// `program`.
    pub open spec fn within(&self, program: Program) -> bool {
        &&& self.dim == self.plainvector@.len()
        &&& all_hold(program@, self.plainvector@, Domain::Plain)
    }

    /// The exact numbers of the vector after a run on `inputs`.
    pub open spec fn values(&self, program: Program, inputs: Seq<real>) -> Seq<real> {
        values_at(program@, inputs, self.plainvector@)
    }

    /// The register of entry `i`.
    pub fn get(&self, i: usize) -> (register: usize)
        requires
            i < self.plainvector@.len(),
        ensures
            register == self.plainvector@[i as int],
    {
        self.plainvector[i]
    }

    /// The vector of the numbers `v`, written into the program as constants.
    pub fn new(v: &Vec<Decimal>, program: &mut Program) -> (vector: PlainVector)
        requires
            old(program).wf(),
        ensures
            computes(*final(program), *old(program), Domain::Plain),
            vector.dim == v@.len(),
            vector.within(*final(program)),
            forall|inputs: Seq<real>| #[trigger]
                vector.values(*final(program), inputs) == decimal_values(v@),
            bootstraps(final(program)@) == bootstraps(old(program)@),
    {
        let plainvector = literals(program, v);
        PlainVector { plainvector, dim: v.len() }
    }

    /// Entry by entry, the result of `op` on two vectors of one dimension.
    fn combine(&self, other: &PlainVector, op: Binary, program: &mut Program) -> (result: Result<
        PlainVector,
        ShapeError,
    >)
        requires
            old(program).wf(),
            self.within(*old(program)),
            other.within(*old(program)),
        ensures
            computes(*final(program), *old(program), Domain::Plain),
            bootstraps(final(program)@) == bootstraps(old(program)@),
            match result {
                Ok(w) => {
                    &&& self.dim == other.dim
                    &&& w.dim == self.dim
                    &&& w.within(*final(program))
                    &&& entrywise(
                        final(program)@,
                        old(program)@,
                        w.plainvector@,
                        self.plainvector@,
                        other.plainvector@,
                        op,
                    )
                },
                Err(e) => {
                    &&& self.dim != other.dim
                    &&& e == ShapeError::DimensionMismatch
                    &&& final(program)@ == old(program)@
                },
            },
    {
        if self.dim != other.dim {
            return Err(ShapeError::DimensionMismatch);
        }
        let plainvector = zip(program, &self.plainvector, &other.plainvector, op, Domain::Plain);
        proof {
            assert(self.dim * 0 == 0) by (nonlinear_arith);
        }
        Ok(PlainVector { plainvector, dim: self.dim })
    }

    /// The result of `op` on each entry and the number in register `s`.
    fn combine_scalar(&self, s: usize, op: Binary, program: &mut Program) -> (w: PlainVector)
        requires
            old(program).wf(),
            self.within(*old(program)),
            old(program).holds_plain(s),
        ensures
            computes(*final(program), *old(program), Domain::Plain),
            bootstraps(final(program)@) == bootstraps(old(program)@),
            w.dim == self.dim,
            w.within(*final(program)),
            entrywise_with(final(program)@, old(program)@, w.plainvector@, self.plainvector@, s, op),
    {
        let plainvector = broadcast(program, &self.plainvector, s, op, Domain::Plain);
        proof {
            assert(self.dim * 0 == 0) by (nonlinear_arith);
        }
        PlainVector { plainvector, dim: self.dim }
    }

    /// The result of `op` on each entry and the constant `k`.
    fn combine_constant(&self, k: Decimal, op: Binary, program: &mut Program) -> (w: PlainVector)
        requires
            old(program).wf(),
            self.within(*old(program)),
        ensures
            computes(*final(program), *old(program), Domain::Plain),
            bootstraps(final(program)@) == bootstraps(old(program)@),
            w.dim == self.dim,
            w.within(*final(program)),
            entrywise_constant(
                final(program)@,
                old(program)@,
                w.plainvector@,
                self.plainvector@,
                k.value(),
                op,
            ),
    {
        let s = program.emit(Op::Literal(k));
        let w = self.combine_scalar(s, op, program);
        w
    }

    /// The sum of two vectors, entry by entry. Vectors of different
    /// dimensions are refused, and the program is left as it was.
    pub fn add(&self, other: &PlainVector, program: &mut Program) -> (sum: Result<
        PlainVector,
        ShapeError,
    >)
        requires
            old(program).wf(),
            self.within(*old(program)),
            other.within(*old(program)),
        ensures
            computes(*final(program), *old(program), Domain::Plain),
            bootstraps(final(program)@) == bootstraps(old(program)@),
            match sum {
                Ok(w) => {
                    &&& self.dim == other.dim
                    &&& w.dim == self.dim
                    &&& w.within(*final(program))
                    &&& entrywise(
                        final(program)@,
                        old(program)@,
                        w.plainvector@,
                        self.plainvector@,
                        other.plainvector@,
                        Binary::Add,
                    )
                },
                Err(e) => {
                    &&& self.dim != other.dim
                    &&& e == ShapeError::DimensionMismatch
                    &&& final(program)@ == old(program)@
                },
            },
    {
        self.combine(other, Binary::Add, program)
    }

    /// The constant `k` added to every entry.
    pub fn add_constant(&self, k: Decimal, program: &mut Program) -> (sum: PlainVector)
        requires
            old(program).wf(),
            self.within(*old(program)),
        ensures
            computes(*final(program), *old(program), Domain::Plain),
            bootstraps(final(program)@) == bootstraps(old(program)@),
            sum.dim == self.dim,
            sum.within(*final(program)),
            entrywise_constant(
                final(program)@,
                old(program)@,
                sum.plainvector@,
                self.plainvector@,
                k.value(),
                Binary::Add,
            ),
    {
        self.combine_constant(k, Binary::Add, program)
    }

    /// The difference of two vectors, entry by entry. Vectors of different
    /// dimensions are refused, and the program is left as it was.
    pub fn sub(&self, other: &PlainVector, program: &mut Program) -> (difference: Result<
        PlainVector,
        ShapeError,
    >)
        requires
            old(program).wf(),
            self.within(*old(program)),
            other.within(*old(program)),
        ensures
            computes(*final(program), *old(program), Domain::Plain),
            bootstraps(final(program)@) == bootstraps(old(program)@),
            match difference {
                Ok(w) => {
                    &&& self.dim == other.dim
                    &&& w.dim == self.dim
                    &&& w.within(*final(program))
                    &&& entrywise(
                        final(program)@,
                        old(program)@,
                        w.plainvector@,
                        self.plainvector@,
                        other.plainvector@,
                        Binary::Sub,
                    )
                },
                Err(e) => {
                    &&& self.dim != other.dim
                    &&& e == ShapeError::DimensionMismatch
                    &&& final(program)@ == old(program)@
                },
            },
    {
        self.combine(other, Binary::Sub, program)
    }

    /// The constant `k` taken from every entry.
    pub fn sub_constant(&self, k: Decimal, program: &mut Program) -> (difference: PlainVector)
        requires
            old(program).wf(),
            self.within(*old(program)),
        ensures
            computes(*final(program), *old(program), Domain::Plain),
            bootstraps(final(program)@) == bootstraps(old(program)@),
            difference.dim == self.dim,
            difference.within(*final(program)),
            entrywise_constant(
                final(program)@,
                old(program)@,
                difference.plainvector@,
                self.plainvector@,
                k.value(),
                Binary::Sub,
            ),
    {
        self.combine_constant(k, Binary::Sub, program)
    }

    /// The dot product of two vectors: zero, and each product added to it in
    /// turn. Vectors of different dimensions are refused, and the program is
    /// left as it was.
    pub fn mul(&self, other: &PlainVector, program: &mut Program) -> (product: Result<
        usize,
        ShapeError,
    >)
        requires
            old(program).wf(),
            self.within(*old(program)),
            other.within(*old(program)),
        ensures
            computes(*final(program), *old(program), Domain::Plain),
            bootstraps(final(program)@) == bootstraps(old(program)@),
            match product {
                Ok(r) => {
                    &&& self.dim == other.dim
                    &&& final(program).holds_plain(r)
                    &&& forall|inputs: Seq<real>| #[trigger]
                        value_at(final(program)@, inputs, r as int) == dot_product(
                            self.values(*old(program), inputs),
                            other.values(*old(program), inputs),
                        )
                },
                Err(e) => {
                    &&& self.dim != other.dim
                    &&& e == ShapeError::DimensionMismatch
                    &&& final(program)@ == old(program)@
                },
            },
    {
        if self.dim != other.dim {
            return Err(ShapeError::DimensionMismatch);
        }
        let zero = program.emit(Op::Literal(Decimal::whole(false, 0)));
        let ghost middle = *program;
        let r = fold_products(program, &self.plainvector, &other.plainvector, 0, zero, Domain::Plain);
        proof {
            assert(self.dim * 0 == 0) by (nonlinear_arith);
            assert forall|inputs: Seq<real>| #[trigger]
                value_at(program@, inputs, r as int) == dot_product(
                    self.values(*old(program), inputs),
                    other.values(*old(program), inputs),
                ) by {
                lemma_values_stable(
                    middle@,
                    old(program)@,
                    inputs,
                    self.plainvector@,
                );
                lemma_values_stable(
                    middle@,
                    old(program)@,
                    inputs,
                    other.plainvector@,
                );
            }
        }
        Ok(r)
    }

    /// Every entry times the number in the plain register `s`.
    pub fn mul_scalar(&self, s: usize, program: &mut Program) -> (product: PlainVector)
        requires
            old(program).wf(),
            self.within(*old(program)),
            old(program).holds_plain(s),
        ensures
            computes(*final(program), *old(program), Domain::Plain),
            bootstraps(final(program)@) == bootstraps(old(program)@),
            product.dim == self.dim,
            product.within(*final(program)),
            entrywise_with(
                final(program)@,
                old(program)@,
                product.plainvector@,
                self.plainvector@,
                s,
                Binary::Mul,
            ),
    {
        self.combine_scalar(s, Binary::Mul, program)
    }

    /// Every entry times the constant `k`.
    pub fn mul_constant(&self, k: Decimal, program: &mut Program) -> (product: PlainVector)
        requires
            old(program).wf(),
            self.within(*old(program)),
        ensures
            computes(*final(program), *old(program), Domain::Plain),
            bootstraps(final(program)@) == bootstraps(old(program)@),
            product.dim == self.dim,
            product.within(*final(program)),
            entrywise_constant(
                final(program)@,
                old(program)@,
                product.plainvector@,
                self.plainvector@,
                k.value(),
                Binary::Mul,
            ),
    {
        self.combine_constant(k, Binary::Mul, program)
    }
}

} // verus!
