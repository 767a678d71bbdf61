//! A vector of encrypted numbers.
use crate::algebra::{
    all_hold, broadcast, computes, dot, dot_cost, dot_product, entrywise, entrywise_constant,
    entrywise_with, zip, Binary, Domain, ShapeError,
};
use crate::number::Decimal;
use crate::program::{bootstraps, value_at, values_at, Program};
use crate::zqz::cipherfloat::Cipherfloat;
use vstd::prelude::*;

verus! {

/// A vector of `dim` encrypted numbers: the registers that hold their
/// ciphertexts, in order.
#[derive(Clone, Debug)]
pub struct CipherVector {
    pub ciphervector: Vec<usize>,
    pub dim: usize,
}

/// The bootstraps that one operation between a ciphertext and a plain
/// constant costs: one for a product, none for a sum or a difference.
pub open spec fn constant_cost(op: Binary) -> nat {
    match op {
        Binary::Mul => 1,
        _ => 0,
    }
}

/// The sum, difference or product of each ciphertext of a row with the plain
/// constant `k`.
pub fn with_constant(program: &mut Program, u: &Vec<usize>, k: Decimal, op: Binary) -> (w: Vec<
    usize,
>)
    requires
        old(program).wf(),
        all_hold(old(program)@, u@, Domain::Cipher),
    ensures
        computes(*final(program), *old(program), Domain::Cipher),
        all_hold(final(program)@, w@, Domain::Cipher),
        entrywise_constant(final(program)@, old(program)@, w@, u@, k.value(), op),
        bootstraps(final(program)@) == bootstraps(old(program)@) + u@.len() * constant_cost(op),
{
    let ghost start = *program;
    let ghost cost = constant_cost(op);
    let mut w: Vec<usize> = Vec::new();
    let mut i: usize = 0;
    while i < u.len()
        invariant
            i <= u@.len(),
            w@.len() == i,
            start.wf(),
            computes(*program, start, Domain::Cipher),
            all_hold(start@, u@, Domain::Cipher),
            all_hold(program@, w@, Domain::Cipher),
            forall|inputs: Seq<real>, j: int|
                0 <= j < i ==> #[trigger] value_at(program@, inputs, w@[j] as int) == op.apply(
                    value_at(start@, inputs, u@[j] as int),
                    k.value(),
                ),
            cost == constant_cost(op),
            bootstraps(program@) == bootstraps(start@) + i * cost,
        decreases u@.len() - i,
    {
        let entry = Cipherfloat { register: u[i] };
        let r = match op {
            Binary::Add => entry.add_constant(k, program),
            Binary::Sub => entry.sub_constant(k, program),
            Binary::Mul => entry.mul_constant(k, program),
        };
        w.push(r.register);
        i = i + 1;
    }
    w
}

impl CipherVector {
    /// The vector is as long as it says, and its entries are ciphertexts of
    /// `program`.
    pub open spec fn within(&self, program: Program) -> bool {
        &&& self.dim == self.ciphervector@.len()
        &&& all_hold(program@, self.ciphervector@, Domain::Cipher)
    }

    /// The exact numbers under the encryption, after a run on `inputs`.
    pub open spec fn values(&self, program: Program, inputs: Seq<real>) -> Seq<real> {
        values_at(program@, inputs, self.ciphervector@)
    }

    /// Entry `i` of the vector.
    pub fn get(&self, i: usize) -> (entry: Cipherfloat)
        requires
            i < self.ciphervector@.len(),
        ensures
            entry.register == self.ciphervector@[i as int],
    {
        Cipherfloat { register: self.ciphervector[i] }
    }

    /// Entry by entry, the result of `op` on two vectors of one dimension.
    fn combine(&self, other: &CipherVector, op: Binary, program: &mut Program) -> (result: Result<
        CipherVector,
        ShapeError,
    >)
        requires
            old(program).wf(),
            self.within(*old(program)),
            other.within(*old(program)),
        ensures
            computes(*final(program), *old(program), Domain::Cipher),
            match result {
                Ok(w) => {
                    &&& self.dim == other.dim
                    &&& w.dim == self.dim
                    &&& w.within(*final(program))
                    &&& entrywise(
                        final(program)@,
                        old(program)@,
                        w.ciphervector@,
                        self.ciphervector@,
                        other.ciphervector@,
                        op,
                    )
                    &&& bootstraps(final(program)@) == bootstraps(old(program)@) + self.dim
                        * op.cost(Domain::Cipher, *old(program))
                },
                Err(e) => {
                    &&& self.dim != other.dim
                    &&& e == ShapeError::DimensionMismatch
                    &&& final(program)@ == old(program)@
                },
            },
    {
        if self.dim != other.dim {
            return Err(ShapeError::DimensionMismatch);
        }
        let ciphervector = zip(program, &self.ciphervector, &other.ciphervector, op, Domain::Cipher);
        Ok(CipherVector { ciphervector, dim: self.dim })
    }

    /// The result of `op` on each entry and the one encrypted number `other`.
    fn combine_scalar(&self, other: &Cipherfloat, op: Binary, program: &mut Program) -> (w:
        CipherVector)
        requires
            old(program).wf(),
            self.within(*old(program)),
            other.within(*old(program)),
        ensures
            computes(*final(program), *old(program), Domain::Cipher),
            w.dim == self.dim,
            w.within(*final(program)),
            entrywise_with(
                final(program)@,
                old(program)@,
                w.ciphervector@,
                self.ciphervector@,
                other.register,
                op,
            ),
            bootstraps(final(program)@) == bootstraps(old(program)@) + self.dim * op.cost(
                Domain::Cipher,
                *old(program),
            ),
    {
        let ciphervector = broadcast(
            program,
            &self.ciphervector,
            other.register,
            op,
            Domain::Cipher,
        );
        CipherVector { ciphervector, dim: self.dim }
    }

    /// The result of `op` on each entry and the plain constant `k`.
    fn combine_constant(&self, k: Decimal, op: Binary, program: &mut Program) -> (w: CipherVector)
        requires
            old(program).wf(),
            self.within(*old(program)),
        ensures
            computes(*final(program), *old(program), Domain::Cipher),
            w.dim == self.dim,
            w.within(*final(program)),
            entrywise_constant(
                final(program)@,
                old(program)@,
                w.ciphervector@,
                self.ciphervector@,
                k.value(),
                op,
            ),
            bootstraps(final(program)@) == bootstraps(old(program)@) + self.dim * constant_cost(
                op,
            ),
    {
        let ciphervector = with_constant(program, &self.ciphervector, k, op);
        CipherVector { ciphervector, dim: self.dim }
    }

    /// The sum of two vectors, entry by entry. Vectors of different
    /// dimensions are refused, and the program is left as it was.
    pub fn add(&self, other: &CipherVector, program: &mut Program) -> (sum: Result<
        CipherVector,
        ShapeError,
    >)
        requires
            old(program).wf(),
            self.within(*old(program)),
            other.within(*old(program)),
        ensures
            computes(*final(program), *old(program), Domain::Cipher),
            match sum {
                Ok(w) => {
                    &&& self.dim == other.dim
                    &&& w.dim == self.dim
                    &&& w.within(*final(program))
                    &&& entrywise(
                        final(program)@,
                        old(program)@,
                        w.ciphervector@,
                        self.ciphervector@,
                        other.ciphervector@,
                        Binary::Add,
                    )
                    &&& bootstraps(final(program)@) == bootstraps(old(program)@) + self.dim
                        * old(program).refresh_cost()
                },
                Err(e) => {
                    &&& self.dim != other.dim
                    &&& e == ShapeError::DimensionMismatch
                    &&& final(program)@ == old(program)@
                },
            },
    {
        self.combine(other, Binary::Add, program)
    }

    /// The encrypted number `other` added to every entry.
    pub fn add_scalar(&self, other: &Cipherfloat, program: &mut Program) -> (sum: CipherVector)
        requires
            old(program).wf(),
            self.within(*old(program)),
            other.within(*old(program)),
        ensures
            computes(*final(program), *old(program), Domain::Cipher),
            sum.dim == self.dim,
            sum.within(*final(program)),
            entrywise_with(
                final(program)@,
                old(program)@,
                sum.ciphervector@,
                self.ciphervector@,
                other.register,
                Binary::Add,
            ),
            bootstraps(final(program)@) == bootstraps(old(program)@) + self.dim * old(
                program,
            ).refresh_cost(),
    {
        self.combine_scalar(other, Binary::Add, program)
    }

    /// The plain constant `k` added to every entry, without a bootstrap.
    pub fn add_constant(&self, k: Decimal, program: &mut Program) -> (sum: CipherVector)
        requires
            old(program).wf(),
            self.within(*old(program)),
        ensures
            computes(*final(program), *old(program), Domain::Cipher),
            sum.dim == self.dim,
            sum.within(*final(program)),
            entrywise_constant(
                final(program)@,
                old(program)@,
                sum.ciphervector@,
                self.ciphervector@,
                k.value(),
                Binary::Add,
            ),
            bootstraps(final(program)@) == bootstraps(old(program)@),
    {
        let sum = self.combine_constant(k, Binary::Add, program);
        sum
    }

    /// The difference of two vectors, entry by entry. Vectors of different
    /// dimensions are refused, and the program is left as it was.
    pub fn sub(&self, other: &CipherVector, program: &mut Program) -> (difference: Result<
        CipherVector,
        ShapeError,
    >)
        requires
            old(program).wf(),
            self.within(*old(program)),
            other.within(*old(program)),
        ensures
            computes(*final(program), *old(program), Domain::Cipher),
            match difference {
                Ok(w) => {
                    &&& self.dim == other.dim
                    &&& w.dim == self.dim
                    &&& w.within(*final(program))
                    &&& entrywise(
                        final(program)@,
                        old(program)@,
                        w.ciphervector@,
                        self.ciphervector@,
                        other.ciphervector@,
                        Binary::Sub,
                    )
                    &&& bootstraps(final(program)@) == bootstraps(old(program)@) + self.dim
                        * old(program).refresh_cost()
                },
                Err(e) => {
                    &&& self.dim != other.dim
                    &&& e == ShapeError::DimensionMismatch
                    &&& final(program)@ == old(program)@
                },
            },
    {
        self.combine(other, Binary::Sub, program)
    }

    /// The encrypted number `other` taken from every entry.
    pub fn sub_scalar(&self, other: &Cipherfloat, program: &mut Program) -> (difference:
        CipherVector)
        requires
            old(program).wf(),
            self.within(*old(program)),
            other.within(*old(program)),
        ensures
            computes(*final(program), *old(program), Domain::Cipher),
            difference.dim == self.dim,
            difference.within(*final(program)),
            entrywise_with(
                final(program)@,
                old(program)@,
                difference.ciphervector@,
                self.ciphervector@,
                other.register,
                Binary::Sub,
            ),
            bootstraps(final(program)@) == bootstraps(old(program)@) + self.dim * old(
                program,
            ).refresh_cost(),
    {
        self.combine_scalar(other, Binary::Sub, program)
    }

    /// The plain constant `k` taken from every entry, without a bootstrap.
    pub fn sub_constant(&self, k: Decimal, program: &mut Program) -> (difference: CipherVector)
        requires
            old(program).wf(),
            self.within(*old(program)),
        ensures
            computes(*final(program), *old(program), Domain::Cipher),
            difference.dim == self.dim,
            difference.within(*final(program)),
            entrywise_constant(
                final(program)@,
                old(program)@,
                difference.ciphervector@,
                self.ciphervector@,
                k.value(),
                Binary::Sub,
            ),
            bootstraps(final(program)@) == bootstraps(old(program)@),
    {
        let difference = self.combine_constant(k, Binary::Sub, program);
        difference
    }

    /// The dot product of two vectors: the first product, and each further
    /// product added to it in turn, so one product of ciphertexts for each
    /// entry. Vectors of different dimensions, and vectors without entries,
    /// are refused, and the program is left as it was.
    pub fn mul(&self, other: &CipherVector, program: &mut Program) -> (product: Result<
        Cipherfloat,
        ShapeError,
    >)
        requires
            old(program).wf(),
            self.within(*old(program)),
            other.within(*old(program)),
        ensures
            computes(*final(program), *old(program), Domain::Cipher),
            match product {
                Ok(c) => {
                    &&& self.dim == other.dim
                    &&& self.dim >= 1
                    &&& c.within(*final(program))
                    &&& forall|inputs: Seq<real>| #[trigger]
                        value_at(final(program)@, inputs, c.register as int) == dot_product(
                            self.values(*old(program), inputs),
                            other.values(*old(program), inputs),
                        )
                    &&& bootstraps(final(program)@) == bootstraps(old(program)@) + dot_cost(
                        self.dim as nat,
                        Domain::Cipher,
                        *old(program),
                    )
                },
                Err(e) => {
                    &&& e == if self.dim != other.dim {
                        ShapeError::DimensionMismatch
                    } else {
                        ShapeError::Empty
                    }
                    &&& self.dim != other.dim || self.dim == 0
                    &&& final(program)@ == old(program)@
                },
            },
    {
        if self.dim != other.dim {
            return Err(ShapeError::DimensionMismatch);
        }
        if self.dim == 0 {
            return Err(ShapeError::Empty);
        }
        let register = dot(program, &self.ciphervector, &other.ciphervector, Domain::Cipher);
        Ok(Cipherfloat { register })
    }

    /// Every entry times the encrypted number `other`.
    pub fn mul_scalar(&self, other: &Cipherfloat, program: &mut Program) -> (product:
        CipherVector)
        requires
            old(program).wf(),
            self.within(*old(program)),
            other.within(*old(program)),
        ensures
            computes(*final(program), *old(program), Domain::Cipher),
            product.dim == self.dim,
            product.within(*final(program)),
            entrywise_with(
                final(program)@,
                old(program)@,
                product.ciphervector@,
                self.ciphervector@,
                other.register,
                Binary::Mul,
            ),
            bootstraps(final(program)@) == bootstraps(old(program)@) + self.dim * (2 + old(
                program,
            ).refresh_cost()),
    {
        self.combine_scalar(other, Binary::Mul, program)
    }

    /// Every entry times the plain constant `k`, by one bootstrap each.
    pub fn mul_constant(&self, k: Decimal, program: &mut Program) -> (product: CipherVector)
        requires
            old(program).wf(),
            self.within(*old(program)),
        ensures
            computes(*final(program), *old(program), Domain::Cipher),
            product.dim == self.dim,
            product.within(*final(program)),
            entrywise_constant(
                final(program)@,
                old(program)@,
                product.ciphervector@,
                self.ciphervector@,
                k.value(),
                Binary::Mul,
            ),
            bootstraps(final(program)@) == bootstraps(old(program)@) + self.dim,
    {
        let product = self.combine_constant(k, Binary::Mul, program);
        product
    }
}

} // verus!
