//! Arithmetic on rows of registers, plain or encrypted alike.
//!
//! The vectors and matrices of the library, in the clear and under
//! encryption, have the same shape and the same operations. They differ in
//! the operation that is written into the program for a sum, a difference or
//! a product of two entries. This module holds what they share.
use crate::program::{
    bootstraps, cipher_at, continues, plain_at, value_at, values_at, Op, Program,
};
use crate::zqz::cipherfloat::Cipherfloat;
use vstd::prelude::*;

verus! {

/// What the registers of a row hold.
#[derive(Clone, Copy, Debug)]
pub enum Domain {
    /// plain numbers
    Plain,
    /// ciphertexts
    Cipher,
}

/// An operation on two numbers.
#[derive(Clone, Copy, Debug)]
pub enum Binary {
    /// the sum
    Add,
    /// the difference
    Sub,
    /// the product
    Mul,
}

/// Why an operation on vectors or matrices was not carried out.
#[derive(Clone, Copy, Debug, PartialEq, Eq, Structural)]
pub enum ShapeError {
    /// the operands do not have the dimensions that the operation needs
    DimensionMismatch,
    /// an operand has no entries where the operation needs one
    Empty,
}

impl Binary {
    /// The operation on real numbers.
    pub open spec fn apply(self, x: real, y: real) -> real {
        match self {
            Binary::Add => x + y,
            Binary::Sub => x - y,
            Binary::Mul => x * y,
        }
    }

    /// The bootstraps that one such operation costs in `program`: none on
    /// plain numbers; on ciphertexts two for a product, and the refresh of a
    /// sum or difference where the policy asks for it.
    pub open spec fn cost(self, domain: Domain, program: Program) -> nat {
        match domain {
            Domain::Plain => 0,
            Domain::Cipher => match self {
                Binary::Add => program.refresh_cost(),
                Binary::Sub => program.refresh_cost(),
                Binary::Mul => 2 + program.refresh_cost(),
            },
        }
    }
}

/// Register `r` exists among `ops` and holds a number of the domain.
pub open spec fn holds(ops: Seq<Op>, r: usize, domain: Domain) -> bool {
    match domain {
        Domain::Plain => plain_at(ops, r),
        Domain::Cipher => cipher_at(ops, r),
    }
}

/// Every register of the row exists among `ops` and holds a number of the
/// domain.
pub open spec fn all_hold(ops: Seq<Op>, row: Seq<usize>, domain: Domain) -> bool {
    forall|i: int| 0 <= i < row.len() ==> holds(ops, #[trigger] row[i], domain)
}

/// Whether the operation is arithmetic of the domain. On plain numbers these
/// are constants, inputs, sums, differences, products and functions; on
/// ciphertexts exact sums and differences, sums with a constant,
/// bootstraps and keyswitches.
pub open spec fn is_arithmetic(op: Op, domain: Domain) -> bool {
    match domain {
        Domain::Plain => op is Literal || op is Input || op is Add || op is Sub || op is Mul
            || op is Apply,
        Domain::Cipher => op is AddExact || op is SubExact || op is AddConstant
            || op is Bootstrap || op is Keyswitch,
    }
}

/// Every operation of `ops` from number `from` on is arithmetic of the
/// domain.
pub open spec fn arithmetic_from(ops: Seq<Op>, from: int, domain: Domain) -> bool {
    forall|r: int| from <= r < ops.len() ==> is_arithmetic(#[trigger] ops[r], domain)
}

/// The program `new` follows `old`, and what it adds is arithmetic of the
/// domain: nothing is encrypted or decrypted, and every number that is
/// added is of the domain.
pub open spec fn computes(new: Program, old: Program, domain: Domain) -> bool {
    &&& new.follows(old)
    &&& arithmetic_from(new@, old@.len() as int, domain)
}

/// Every row of the grid has `width` registers, each of which exists among
/// `ops` and holds a number of the domain.
pub open spec fn grid_holds(ops: Seq<Op>, grid: Seq<Vec<usize>>, width: int, domain: Domain) -> bool {
    forall|i: int|
        0 <= i < grid.len() ==> (#[trigger] grid[i])@.len() == width && all_hold(
            ops,
            grid[i]@,
            domain,
        )
}

/// The sum of the products `u[i] * v[i]` for `from <= i < to`.
pub open spec fn sum_products(u: Seq<real>, v: Seq<real>, from: int, to: int) -> real
    decreases to - from,
{
    if to <= from {
        0real
    } else {
        sum_products(u, v, from, to - 1) + u[to - 1] * v[to - 1]
    }
}

/// The dot product of two rows of numbers of one length.
pub open spec fn dot_product(u: Seq<real>, v: Seq<real>) -> real {
    sum_products(u, v, 0, u.len() as int)
}

/// Entry by entry, the registers `w` hold after `new` the result of `op` on
/// what the registers `u` and `v` hold after `old`.
pub open spec fn entrywise(
    new: Seq<Op>,
    old: Seq<Op>,
    w: Seq<usize>,
    u: Seq<usize>,
    v: Seq<usize>,
    op: Binary,
) -> bool {
    &&& w.len() == u.len()
    &&& forall|inputs: Seq<real>, i: int|
        0 <= i < u.len() ==> #[trigger] value_at(new, inputs, w[i] as int) == op.apply(
            value_at(old, inputs, u[i] as int),
            value_at(old, inputs, v[i] as int),
        )
}

/// The registers `w` hold after `new` the result of `op` on what each
/// register of `u` and the one register `s` hold after `old`.
pub open spec fn entrywise_with(
    new: Seq<Op>,
    old: Seq<Op>,
    w: Seq<usize>,
    u: Seq<usize>,
    s: usize,
    op: Binary,
) -> bool {
    &&& w.len() == u.len()
    &&& forall|inputs: Seq<real>, i: int|
        0 <= i < u.len() ==> #[trigger] value_at(new, inputs, w[i] as int) == op.apply(
            value_at(old, inputs, u[i] as int),
            value_at(old, inputs, s as int),
        )
}

/// The registers `w` hold after `new` the result of `op` on what each
/// register of `u` holds after `old` and the number `k`.
pub open spec fn entrywise_constant(
    new: Seq<Op>,
    old: Seq<Op>,
    w: Seq<usize>,
    u: Seq<usize>,
    k: real,
    op: Binary,
) -> bool {
    &&& w.len() == u.len()
    &&& forall|inputs: Seq<real>, i: int|
        0 <= i < u.len() ==> #[trigger] value_at(new, inputs, w[i] as int) == op.apply(
            value_at(old, inputs, u[i] as int),
            k,
        )
}

/// A sum of products is its first product plus the rest.
pub proof fn lemma_sum_products_first(u: Seq<real>, v: Seq<real>, from: int, to: int)
    requires
        from < to,
    ensures
        sum_products(u, v, from, to) == u[from] * v[from] + sum_products(u, v, from + 1, to),
    decreases to - from,
{
    if from + 1 < to {
        lemma_sum_products_first(u, v, from, to - 1);
    } else {
        assert(sum_products(u, v, from, to - 1) == 0real);
    }
}

/// The sum, difference or product of two numbers of one domain.
pub fn binary(program: &mut Program, a: usize, b: usize, op: Binary, domain: Domain) -> (r: usize)
    requires
        old(program).wf(),
        holds(old(program)@, a, domain),
        holds(old(program)@, b, domain),
    ensures
        computes(*final(program), *old(program), domain),
        holds(final(program)@, r, domain),
        forall|inputs: Seq<real>| #[trigger]
            value_at(final(program)@, inputs, r as int) == op.apply(
                value_at(old(program)@, inputs, a as int),
                value_at(old(program)@, inputs, b as int),
            ),
        bootstraps(final(program)@) == bootstraps(old(program)@) + op.cost(
            domain,
            *old(program),
        ),
{
    match domain {
        Domain::Plain => match op {
            Binary::Add => program.emit(Op::Add(a, b)),
            Binary::Sub => program.emit(Op::Sub(a, b)),
            Binary::Mul => program.emit(Op::Mul(a, b)),
        },
        Domain::Cipher => {
            let x = Cipherfloat { register: a };
            let y = Cipherfloat { register: b };
            match op {
                Binary::Add => x.add(&y, program).register,
                Binary::Sub => x.sub(&y, program).register,
                Binary::Mul => x.mul(&y, program).register,
            }
        },
    }
}

/// Entry by entry, the sum, difference or product of two rows of one length.
pub fn zip(program: &mut Program, u: &Vec<usize>, v: &Vec<usize>, op: Binary, domain: Domain) -> (w:
    Vec<usize>)
    requires
        old(program).wf(),
        u@.len() == v@.len(),
        all_hold(old(program)@, u@, domain),
        all_hold(old(program)@, v@, domain),
    ensures
        computes(*final(program), *old(program), domain),
        all_hold(final(program)@, w@, domain),
        entrywise(final(program)@, old(program)@, w@, u@, v@, op),
        bootstraps(final(program)@) == bootstraps(old(program)@) + u@.len() * op.cost(
            domain,
            *old(program),
        ),
{
    let ghost start = *program;
    let ghost cost = op.cost(domain, start);
    let mut w: Vec<usize> = Vec::new();
    let mut i: usize = 0;
    while i < u.len()
        invariant
            i <= u@.len(),
            u@.len() == v@.len(),
            w@.len() == i,
            start.wf(),
            computes(*program, start, domain),
            all_hold(start@, u@, domain),
            all_hold(start@, v@, domain),
            all_hold(program@, w@, domain),
            forall|inputs: Seq<real>, j: int|
                0 <= j < i ==> #[trigger] value_at(program@, inputs, w@[j] as int) == op.apply(
                    value_at(start@, inputs, u@[j] as int),
                    value_at(start@, inputs, v@[j] as int),
                ),
            cost == op.cost(domain, start),
            bootstraps(program@) == bootstraps(start@) + i * cost,
        decreases u@.len() - i,
    {
        let r = binary(program, u[i], v[i], op, domain);
        w.push(r);
        proof {
            assert((i + 1) * cost == i * cost + cost) by (nonlinear_arith);
        }
        i = i + 1;
    }
    w
}

/// The sum, difference or product of each entry of a row with one number.
pub fn broadcast(program: &mut Program, u: &Vec<usize>, s: usize, op: Binary, domain: Domain) -> (w:
    Vec<usize>)
    requires
        old(program).wf(),
        all_hold(old(program)@, u@, domain),
        holds(old(program)@, s, domain),
    ensures
        computes(*final(program), *old(program), domain),
        all_hold(final(program)@, w@, domain),
        entrywise_with(final(program)@, old(program)@, w@, u@, s, op),
        bootstraps(final(program)@) == bootstraps(old(program)@) + u@.len() * op.cost(
            domain,
            *old(program),
        ),
{
    let ghost start = *program;
    let ghost cost = op.cost(domain, start);
    let mut w: Vec<usize> = Vec::new();
    let mut i: usize = 0;
    while i < u.len()
        invariant
            i <= u@.len(),
            w@.len() == i,
            start.wf(),
            computes(*program, start, domain),
            all_hold(start@, u@, domain),
            holds(start@, s, domain),
            all_hold(program@, w@, domain),
            forall|inputs: Seq<real>, j: int|
                0 <= j < i ==> #[trigger] value_at(program@, inputs, w@[j] as int) == op.apply(
                    value_at(start@, inputs, u@[j] as int),
                    value_at(start@, inputs, s as int),
                ),
            cost == op.cost(domain, start),
            bootstraps(program@) == bootstraps(start@) + i * cost,
        decreases u@.len() - i,
    {
        let r = binary(program, u[i], s, op, domain);
        w.push(r);
        proof {
            assert((i + 1) * cost == i * cost + cost) by (nonlinear_arith);
        }
        i = i + 1;
    }
    w
}

/// Adds to the number in `acc` the products `u[i] * v[i]` for `i` from
/// `from` on, one after the other.
pub fn fold_products(
    program: &mut Program,
    u: &Vec<usize>,
    v: &Vec<usize>,
    from: usize,
    acc: usize,
    domain: Domain,
) -> (total: usize)
    requires
        old(program).wf(),
        u@.len() == v@.len(),
        from <= u@.len(),
        all_hold(old(program)@, u@, domain),
        all_hold(old(program)@, v@, domain),
        holds(old(program)@, acc, domain),
    ensures
        computes(*final(program), *old(program), domain),
        holds(final(program)@, total, domain),
        forall|inputs: Seq<real>| #[trigger]
            value_at(final(program)@, inputs, total as int) == value_at(
                old(program)@,
                inputs,
                acc as int,
            ) + sum_products(
                values_at(old(program)@, inputs, u@),
                values_at(old(program)@, inputs, v@),
                from as int,
                u@.len() as int,
            ),
        bootstraps(final(program)@) == bootstraps(old(program)@) + (u@.len() - from) * (
        Binary::Mul.cost(domain, *old(program)) + Binary::Add.cost(domain, *old(program))),
{
    let ghost start = *program;
    let ghost cost = Binary::Mul.cost(domain, start) + Binary::Add.cost(domain, start);
    let mut total: usize = acc;
    let mut i: usize = from;
    while i < u.len()
        invariant
            from <= i <= u@.len(),
            u@.len() == v@.len(),
            start.wf(),
            computes(*program, start, domain),
            all_hold(start@, u@, domain),
            all_hold(start@, v@, domain),
            holds(program@, total, domain),
            forall|inputs: Seq<real>| #[trigger]
                value_at(program@, inputs, total as int) == value_at(start@, inputs, acc as int)
                    + sum_products(
                    values_at(start@, inputs, u@),
                    values_at(start@, inputs, v@),
                    from as int,
                    i as int,
                ),
            cost == Binary::Mul.cost(domain, start) + Binary::Add.cost(domain, start),
            bootstraps(program@) == bootstraps(start@) + (i - from) * cost,
        decreases u@.len() - i,
    {
        let product = binary(program, u[i], v[i], Binary::Mul, domain);
        let next = binary(program, total, product, Binary::Add, domain);
        proof {
            assert((i + 1 - from) * cost == (i - from) * cost + cost) by (nonlinear_arith);
        }
        total = next;
        i = i + 1;
    }
    total
}

/// The numbers in the registers of a grid, row by row.
pub open spec fn grid_values(ops: Seq<Op>, inputs: Seq<real>, grid: Seq<Vec<usize>>) -> Seq<
    Seq<real>,
> {
    Seq::new(grid.len(), |i: int| values_at(ops, inputs, grid[i]@))
}

/// A row of registers keeps its numbers when operations are added.
pub proof fn lemma_values_stable(new: Seq<Op>, old: Seq<Op>, inputs: Seq<real>, row: Seq<usize>)
    requires
        continues(new, old),
        forall|i: int| 0 <= i < row.len() ==> (#[trigger] row[i]) < old.len(),
    ensures
        values_at(new, inputs, row) == values_at(old, inputs, row),
{
}

/// A grid of registers keeps its numbers when operations are added.
pub proof fn lemma_grid_stable(
    new: Seq<Op>,
    old: Seq<Op>,
    inputs: Seq<real>,
    grid: Seq<Vec<usize>>,
    width: int,
    domain: Domain,
)
    requires
        continues(new, old),
        grid_holds(old, grid, width, domain),
    ensures
        grid_values(new, inputs, grid) == grid_values(old, inputs, grid),
        grid_holds(new, grid, width, domain),
{
    assert forall|i: int| 0 <= i < grid.len() implies values_at(new, inputs, grid[i]@)
        == values_at(old, inputs, grid[i]@) by {
    }
}

/// The dot product of two rows of one length, which is not zero: the first
/// product, and each further product added to it in turn.
pub fn dot(program: &mut Program, u: &Vec<usize>, v: &Vec<usize>, domain: Domain) -> (total: usize)
    requires
        old(program).wf(),
        u@.len() == v@.len(),
        u@.len() >= 1,
        all_hold(old(program)@, u@, domain),
        all_hold(old(program)@, v@, domain),
    ensures
        computes(*final(program), *old(program), domain),
        holds(final(program)@, total, domain),
        forall|inputs: Seq<real>| #[trigger]
            value_at(final(program)@, inputs, total as int) == dot_product(
                values_at(old(program)@, inputs, u@),
                values_at(old(program)@, inputs, v@),
            ),
        bootstraps(final(program)@) == bootstraps(old(program)@) + dot_cost(
            u@.len(),
            domain,
            *old(program),
        ),
{
    let ghost start = *program;
    let first = binary(program, u[0], v[0], Binary::Mul, domain);
    let ghost middle = *program;
    let total = fold_products(program, u, v, 1, first, domain);
    proof {
        assert forall|inputs: Seq<real>| #[trigger]
            value_at(program@, inputs, total as int) == dot_product(
                values_at(start@, inputs, u@),
                values_at(start@, inputs, v@),
            ) by {
            let us = values_at(start@, inputs, u@);
            let vs = values_at(start@, inputs, v@);
            lemma_values_stable(middle@, start@, inputs, u@);
            lemma_values_stable(middle@, start@, inputs, v@);
            lemma_sum_products_first(us, vs, 0, u@.len() as int);
        }
    }
    total
}

/// The bootstraps that a dot product of two rows of `len` entries costs.
pub open spec fn dot_cost(len: nat, domain: Domain, program: Program) -> nat {
    (Binary::Mul.cost(domain, program) + (len - 1) * (Binary::Mul.cost(domain, program)
        + Binary::Add.cost(domain, program))) as nat
}

/// Entry by entry, the sum or difference of two grids of one shape.
pub fn zip_grid(
    program: &mut Program,
    a: &Vec<Vec<usize>>,
    b: &Vec<Vec<usize>>,
    width: usize,
    op: Binary,
    domain: Domain,
) -> (c: Vec<Vec<usize>>)
    requires
        old(program).wf(),
        a@.len() == b@.len(),
        grid_holds(old(program)@, a@, width as int, domain),
        grid_holds(old(program)@, b@, width as int, domain),
    ensures
        computes(*final(program), *old(program), domain),
        c@.len() == a@.len(),
        grid_holds(final(program)@, c@, width as int, domain),
        forall|i: int|
            0 <= i < a@.len() ==> entrywise(
                final(program)@,
                old(program)@,
                (#[trigger] c@[i])@,
                a@[i]@,
                b@[i]@,
                op,
            ),
        bootstraps(final(program)@) == bootstraps(old(program)@) + a@.len() * (width * op.cost(
            domain,
            *old(program),
        )),
{
    let ghost start = *program;
    let ghost cost = width * op.cost(domain, start);
    let mut c: Vec<Vec<usize>> = Vec::new();
    let mut i: usize = 0;
    while i < a.len()
        invariant
            i <= a@.len(),
            a@.len() == b@.len(),
            c@.len() == i,
            start.wf(),
            computes(*program, start, domain),
            grid_holds(start@, a@, width as int, domain),
            grid_holds(start@, b@, width as int, domain),
            grid_holds(program@, c@, width as int, domain),
            forall|j: int|
                0 <= j < i ==> entrywise(program@, start@, (#[trigger] c@[j])@, a@[j]@, b@[j]@, op),
            cost == width * op.cost(domain, start),
            bootstraps(program@) == bootstraps(start@) + i * cost,
        decreases a@.len() - i,
    {
        let row = zip(program, &a[i], &b[i], op, domain);
        proof {
            assert((i + 1) * cost == i * cost + cost) by (nonlinear_arith);
        }
        c.push(row);
        i = i + 1;
    }
    c
}

/// The product of a grid with a row: for each row of the grid, its dot
/// product with `v`. The rows are as long as `v`, and not empty.
pub fn grid_times(
    program: &mut Program,
    m: &Vec<Vec<usize>>,
    v: &Vec<usize>,
    domain: Domain,
) -> (w: Vec<usize>)
    requires
        old(program).wf(),
        v@.len() >= 1,
        grid_holds(old(program)@, m@, v@.len() as int, domain),
        all_hold(old(program)@, v@, domain),
    ensures
        computes(*final(program), *old(program), domain),
        w@.len() == m@.len(),
        all_hold(final(program)@, w@, domain),
        forall|inputs: Seq<real>, i: int|
            0 <= i < m@.len() ==> #[trigger] value_at(final(program)@, inputs, w@[i] as int)
                == dot_product(
                values_at(old(program)@, inputs, m@[i]@),
                values_at(old(program)@, inputs, v@),
            ),
        bootstraps(final(program)@) == bootstraps(old(program)@) + m@.len() * dot_cost(
            v@.len(),
            domain,
            *old(program),
        ),
{
    let ghost start = *program;
    let ghost cost = dot_cost(v@.len(), domain, start);
    let mut w: Vec<usize> = Vec::new();
    let mut i: usize = 0;
    while i < m.len()
        invariant
            i <= m@.len(),
            w@.len() == i,
            v@.len() >= 1,
            start.wf(),
            computes(*program, start, domain),
            grid_holds(start@, m@, v@.len() as int, domain),
            all_hold(start@, v@, domain),
            all_hold(program@, w@, domain),
            forall|inputs: Seq<real>, j: int|
                0 <= j < i ==> #[trigger] value_at(program@, inputs, w@[j] as int) == dot_product(
                    values_at(start@, inputs, m@[j]@),
                    values_at(start@, inputs, v@),
                ),
            cost == dot_cost(v@.len(), domain, start),
            bootstraps(program@) == bootstraps(start@) + i * cost,
        decreases m@.len() - i,
    {
        let ghost before = *program;
        let r = dot(program, &m[i], v, domain);
        w.push(r);
        proof {
            assert((i + 1) * cost == i * cost + cost) by (nonlinear_arith);
            assert forall|inputs: Seq<real>, j: int| 0 <= j < i + 1 implies #[trigger] value_at(
                program@,
                inputs,
                w@[j] as int,
            ) == dot_product(
                values_at(start@, inputs, m@[j]@),
                values_at(start@, inputs, v@),
            ) by {
                if j >= i {
                    lemma_values_stable(before@, start@, inputs, m@[i as int]@);
                    lemma_values_stable(before@, start@, inputs, v@);
                }
            }
        }
        i = i + 1;
    }
    w
}

} // verus!
