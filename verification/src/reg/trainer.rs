//! Training: the program that computes the weights of a model.
//!
//! The weights start at `0.001` each. A round computes for every row `i` of
//! the data but row 0 the term `a = y[i] * (1/2 - 1/4 * y[i] * (x[i] . beta))`
//! and adds `x[i] * a` to the gradient `g`. It then moves the weights by the
//! inverse Hessian approximation times the gradient: `beta + (-1) * (H * g)`.
//! The number of rounds is fixed. The same rounds are written for plain
//! numbers and for ciphertexts.
use crate::algebra::{
    all_hold, arithmetic_from, broadcast, computes, dot, dot_cost, dot_product,
    entrywise_constant, grid_holds, grid_times, grid_values, holds, is_arithmetic,
    lemma_grid_stable, lemma_values_stable, zip, Binary, Domain, ShapeError,
};
use crate::clear::matrix::{decimal_grid, is_rectangular, literal_grid, rectangular};
use crate::clear::vector::{decimal_values, literals, PlainVector};
use crate::number::Decimal;
use crate::program::{bootstraps, continues, value_at, values_at, LinearPolicy, Op, Program};
use crate::reg::hessian::{
    hessian_entry, inverse_hessian, lemma_constants, reciprocal,
    reciprocal_register, row_sums, row_total,
};
use crate::zqz::cipherfloat::Cipherfloat;
use crate::zqz::keys::{
    cross_grid, cross_row, crossings, crossings_from, grid_crossings, Crossing,
};
use crate::zqz::vector::with_constant;
use vstd::prelude::*;

verus! {

/// The rounds of Newton's iteration for each reciprocal in plain training.
pub const PLAIN_RECIPROCAL_ROUNDS: usize = 20;

/// The rounds of plain training.
pub const PLAIN_ROUNDS: usize = 19;

/// The rounds of Newton's iteration for each reciprocal in encrypted
/// training.
pub const FHE_RECIPROCAL_ROUNDS: usize = 10;

/// The rounds of encrypted training.
pub const FHE_ROUNDS: usize = 9;

/// The term of row `i` in the gradient, for the label `y` and the score
/// `s = x[i] . beta`: the first-order approximation of the logistic gradient
/// around a score of zero.
pub open spec fn gradient_weight(y: real, s: real) -> real {
    y * (1real / 2real - (1real / 4real) * y * s)
}

/// Entry `j` of the gradient after the rows from 1 to `upto - 1`.
pub open spec fn gradient_entry(
    x: Seq<Seq<real>>,
    y: Seq<real>,
    beta: Seq<real>,
    j: int,
    upto: int,
) -> real
    decreases upto,
{
    if upto <= 1 {
        0real
    } else {
        gradient_entry(x, y, beta, j, upto - 1) + x[upto - 1][j] * gradient_weight(
            y[upto - 1],
            dot_product(x[upto - 1], beta),
        )
    }
}

/// The gradient at the weights `beta`: all rows but row 0.
pub open spec fn gradient(x: Seq<Seq<real>>, y: Seq<real>, beta: Seq<real>) -> Seq<real> {
    Seq::new(beta.len(), |j: int| gradient_entry(x, y, beta, j, x.len() as int))
}

/// The weights after one round that begins at `beta`.
pub open spec fn newton_update(
    x: Seq<Seq<real>>,
    y: Seq<real>,
    h_inv: Seq<Seq<real>>,
    beta: Seq<real>,
) -> Seq<real> {
    Seq::new(
        beta.len(),
        |j: int| beta[j] + dot_product(h_inv[j], gradient(x, y, beta)) * (-1real),
    )
}

/// The weights after `rounds` rounds that begin at `beta`.
pub open spec fn trained(
    x: Seq<Seq<real>>,
    y: Seq<real>,
    h_inv: Seq<Seq<real>>,
    beta: Seq<real>,
    rounds: nat,
) -> Seq<real>
    decreases rounds,
{
    if rounds == 0 {
        beta
    } else {
        newton_update(x, y, h_inv, trained(x, y, h_inv, beta, (rounds - 1) as nat))
    }
}

/// The weights that training begins at: `0.001` for each of `dim` columns.
pub open spec fn initial_weights(dim: nat) -> Seq<real> {
    Seq::new(dim, |j: int| 1real / 1000real)
}

/// The weights of the model trained on the data `x` with the labels `y`.
pub open spec fn model(
    x: Seq<Seq<real>>,
    y: Seq<real>,
    dim: nat,
    reciprocal_rounds: nat,
    rounds: nat,
) -> Seq<real> {
    trained(x, y, inverse_hessian(x, dim, reciprocal_rounds), initial_weights(dim), rounds)
}

/// The bootstraps that the product of a number with a constant costs: one
/// on ciphertexts, none on plain numbers.
pub open spec fn scale_cost(domain: Domain) -> nat {
    match domain {
        Domain::Plain => 0,
        Domain::Cipher => 1,
    }
}

/// The bootstraps that the term of one row costs: two products, and one
/// product with a constant.
pub open spec fn weight_cost(domain: Domain, program: Program) -> nat {
    2 * Binary::Mul.cost(domain, program) + scale_cost(domain)
}

/// The bootstraps that one row costs in a round, for rows of `dim` numbers:
/// its score, its term, the products of its features with the term, and
/// their sums with the gradient.
pub open spec fn row_cost(dim: nat, domain: Domain, program: Program) -> nat {
    dot_cost(dim, domain, program) + weight_cost(domain, program) + dim * Binary::Mul.cost(
        domain,
        program,
    ) + dim * Binary::Add.cost(domain, program)
}

/// The number of the rows after row 0.
pub open spec fn rows_after_first(rows: nat) -> nat {
    if rows == 0 {
        0
    } else {
        (rows - 1) as nat
    }
}

/// The bootstraps that one round costs, for `rows` rows of `dim` numbers:
/// every row but row 0, the product of the inverse Hessian approximation
/// with the gradient, its product with `-1`, and its sum with the weights.
pub open spec fn round_cost(rows: nat, dim: nat, domain: Domain, program: Program) -> nat {
    rows_after_first(rows) * row_cost(dim, domain, program) + dim * dot_cost(
        dim,
        domain,
        program,
    ) + dim * scale_cost(domain) + dim * Binary::Add.cost(domain, program)
}

/// The four stages of a program that trains under encryption. Up to
/// `encrypted_from` everything is arithmetic on plain numbers: the data and
/// the inverse Hessian approximation. Up to `computed_from` numbers are
/// encrypted, each as `how` says. Up to `decrypted_from` everything is
/// arithmetic on ciphertexts: the rounds. What follows decrypts.
pub open spec fn staged(
    ops: Seq<Op>,
    encrypted_from: int,
    computed_from: int,
    decrypted_from: int,
    how: Crossing,
) -> bool {
    &&& 0 <= encrypted_from <= computed_from <= decrypted_from <= ops.len()
    &&& forall|r: int|
        0 <= r < encrypted_from ==> is_arithmetic(#[trigger] ops[r], Domain::Plain)
    &&& forall|r: int| encrypted_from <= r < computed_from ==> how.makes(#[trigger] ops[r])
    &&& forall|r: int|
        computed_from <= r < decrypted_from ==> is_arithmetic(#[trigger] ops[r], Domain::Cipher)
    &&& forall|r: int| decrypted_from <= r < ops.len() ==> (#[trigger] ops[r]) is Decrypt
}

/// A program in the four stages of `staged` whose second stage encrypts
/// just what the registers of `plain` hold: what training begins with, in
/// the order of `Prepared::crossings`, and nothing that the first stage may
/// have computed besides.
pub open spec fn encrypts_prepared(
    ops: Seq<Op>,
    encrypted_from: int,
    computed_from: int,
    decrypted_from: int,
    how: Crossing,
    plain: Prepared,
) -> bool {
    &&& staged(ops, encrypted_from, computed_from, decrypted_from, how)
    &&& ops.subrange(encrypted_from, computed_from) == plain.crossings(how)
}

/// A program of plain arithmetic alone costs no bootstrap.
pub proof fn lemma_plain_costs_nothing(ops: Seq<Op>)
    requires
        arithmetic_from(ops, 0, Domain::Plain),
    ensures
        bootstraps(ops) == 0,
    decreases ops.len(),
{
    if ops.len() > 0 {
        let shorter = ops.drop_last();
        lemma_plain_costs_nothing(shorter);
    }
}

/// A program that trains a model, and the registers in which a run leaves
/// the weights.
#[derive(Debug)]
pub struct Training {
    pub program: Program,
    pub weights: PlainVector,
}

/// The two ways in which the term of a row is computed give the same number.
proof fn lemma_gradient_weight(y: real, s: real)
    ensures
        (1real / 2real - ((1real / 4real) * y) * s) * y == gradient_weight(y, s),
        ((y * s) * (-1real / 4real) + 1real / 2real) * y == gradient_weight(y, s),
{
    assert(((y * s) * (-1real / 4real) + 1real / 2real) * y == y * (1real / 2real - (1real
        / 4real) * y * s)) by (nonlinear_arith);
}

/// The matrix of the inverse Hessian approximation for the data `x`: the
/// approximate reciprocals on the diagonal, zero elsewhere.
pub fn inverse_hessian_grid(
    program: &mut Program,
    x: &Vec<Vec<usize>>,
    width: usize,
    rounds: usize,
) -> (h: Vec<Vec<usize>>)
    requires
        old(program).wf(),
        grid_holds(old(program)@, x@, width as int, Domain::Plain),
    ensures
        computes(*final(program), *old(program), Domain::Plain),
        h@.len() == width,
        grid_holds(final(program)@, h@, width as int, Domain::Plain),
        forall|inputs: Seq<real>| #[trigger]
            grid_values(final(program)@, inputs, h@) == inverse_hessian(
                grid_values(old(program)@, inputs, x@),
                width as nat,
                rounds as nat,
            ),
        bootstraps(final(program)@) == bootstraps(old(program)@),
{
    let ghost start = *program;
    let zero = program.emit(Op::Literal(Decimal::whole(false, 0)));
    let ghost zeroed = *program;
    let sums = row_sums(program, x, width, zero);
    let ghost summed = *program;
    proof {
        assert forall|inputs: Seq<real>, i: int| 0 <= i < x@.len() implies #[trigger] value_at(
            summed@,
            inputs,
            sums@[i] as int,
        ) == row_total(grid_values(summed@, inputs, x@)[i]) by {
            lemma_grid_stable(summed@, zeroed@, inputs, x@, width as int, Domain::Plain);
        }
    }
    let mut h: Vec<Vec<usize>> = Vec::new();
    let mut j: usize = 0;
    while j < width
        invariant
            j <= width,
            h@.len() == j,
            start.wf(),
            summed.wf(),
            computes(summed, start, Domain::Plain),
            computes(*program, summed, Domain::Plain),
            grid_holds(start@, x@, width as int, Domain::Plain),
            grid_holds(summed@, x@, width as int, Domain::Plain),
            all_hold(summed@, sums@, Domain::Plain),
            sums@.len() == x@.len(),
            summed.holds_plain(zero),
            forall|inputs: Seq<real>| #[trigger] value_at(summed@, inputs, zero as int) == 0real,
            forall|inputs: Seq<real>, i: int|
                0 <= i < x@.len() ==> #[trigger] value_at(summed@, inputs, sums@[i] as int)
                    == row_total(grid_values(summed@, inputs, x@)[i]),
            grid_holds(program@, h@, width as int, Domain::Plain),
            forall|inputs: Seq<real>, r: int|
                0 <= r < j ==> #[trigger] values_at(program@, inputs, h@[r]@) == inverse_hessian(
                    grid_values(start@, inputs, x@),
                    width as nat,
                    rounds as nat,
                )[r],
            bootstraps(program@) == bootstraps(start@),
        decreases width - j,
    {
        let ghost before = *program;
        let ghost done = h@;
        proof {
            assert forall|inputs: Seq<real>, i: int| 0 <= i < x@.len() implies #[trigger] value_at(
                before@,
                inputs,
                sums@[i] as int,
            ) == row_total(grid_values(before@, inputs, x@)[i]) by {
                lemma_grid_stable(before@, summed@, inputs, x@, width as int, Domain::Plain);
            }
        }
        let entry = hessian_entry(program, x, width, &sums, j, zero);
        let inverse = reciprocal_register(program, entry, rounds);
        let mut row: Vec<usize> = Vec::new();
        let mut k: usize = 0;
        while k < width
            invariant
                k <= width,
                row@.len() == k,
                j < width,
                program.holds_plain(zero),
                program.holds_plain(inverse),
                forall|c: int|
                    0 <= c < k ==> #[trigger] row@[c] == if c == j {
                        inverse
                    } else {
                        zero
                    },
            decreases width - k,
        {
            if k == j {
                row.push(inverse);
            } else {
                row.push(zero);
            }
            k = k + 1;
        }
        h.push(row);
        proof {
            assert forall|inputs: Seq<real>, r: int| 0 <= r < j + 1 implies #[trigger] values_at(
                program@,
                inputs,
                h@[r]@,
            ) == inverse_hessian(
                grid_values(start@, inputs, x@),
                width as nat,
                rounds as nat,
            )[r] by {
                if r < j {
                    lemma_values_stable(program@, before@, inputs, done[r]@);
                } else {
                    lemma_grid_stable(before@, summed@, inputs, x@, width as int, Domain::Plain);
                    lemma_grid_stable(summed@, start@, inputs, x@, width as int, Domain::Plain);
                }
            }
        }
        j = j + 1;
    }
    h
}

/// Every number of a row times the constant `k`.
pub fn scale_row(program: &mut Program, u: &Vec<usize>, k: Decimal, domain: Domain) -> (w: Vec<
    usize,
>)
    requires
        old(program).wf(),
        all_hold(old(program)@, u@, domain),
    ensures
        computes(*final(program), *old(program), domain),
        all_hold(final(program)@, w@, domain),
        entrywise_constant(final(program)@, old(program)@, w@, u@, k.value(), Binary::Mul),
        bootstraps(final(program)@) == bootstraps(old(program)@) + u@.len() * scale_cost(domain),
{
    match domain {
        Domain::Plain => {
            let s = program.emit(Op::Literal(k));
            let w = broadcast(program, u, s, Binary::Mul, Domain::Plain);
            w
        },
        Domain::Cipher => with_constant(program, u, k, Binary::Mul),
    }
}

/// The term of one row in the gradient, from the label in `y` and the score
/// in `s`.
pub fn gradient_weight_register(program: &mut Program, y: usize, s: usize, domain: Domain) -> (a:
    usize)
    requires
        old(program).wf(),
        holds(old(program)@, y, domain),
        holds(old(program)@, s, domain),
    ensures
        computes(*final(program), *old(program), domain),
        holds(final(program)@, a, domain),
        forall|inputs: Seq<real>| #[trigger]
            value_at(final(program)@, inputs, a as int) == gradient_weight(
                value_at(old(program)@, inputs, y as int),
                value_at(old(program)@, inputs, s as int),
            ),
        bootstraps(final(program)@) == bootstraps(old(program)@) + weight_cost(
            domain,
            *old(program),
        ),
{
    proof {
        lemma_constants();
    }
    match domain {
        Domain::Plain => {
            let quarter = program.emit(Op::Literal(Decimal::new(false, 25, 2)));
            let half = program.emit(Op::Literal(Decimal::new(false, 5, 1)));
            let t1 = program.emit(Op::Mul(quarter, y));
            let t2 = program.emit(Op::Mul(t1, s));
            let t3 = program.emit(Op::Sub(half, t2));
            let a = program.emit(Op::Mul(t3, y));
            proof {
                assert forall|inputs: Seq<real>| #[trigger]
                    value_at(program@, inputs, a as int) == gradient_weight(
                        value_at(old(program)@, inputs, y as int),
                        value_at(old(program)@, inputs, s as int),
                    ) by {
                    let yv = value_at(old(program)@, inputs, y as int);
                    let sv = value_at(old(program)@, inputs, s as int);
                    lemma_gradient_weight(yv, sv);
                }
            }
            a
        },
        Domain::Cipher => {
            let label = Cipherfloat { register: y };
            let score = Cipherfloat { register: s };
            let m1 = label.mul(&score, program);
            let m2 = m1.mul_constant(Decimal::new(true, 25, 2), program);
            let m3 = m2.add_constant(Decimal::new(false, 5, 1), program);
            let a = m3.mul(&label, program);
            proof {
                assert forall|inputs: Seq<real>| #[trigger]
                    value_at(program@, inputs, a.register as int) == gradient_weight(
                        value_at(old(program)@, inputs, y as int),
                        value_at(old(program)@, inputs, s as int),
                    ) by {
                    let yv = value_at(old(program)@, inputs, y as int);
                    let sv = value_at(old(program)@, inputs, s as int);
                    lemma_gradient_weight(yv, sv);
                }
            }
            a.register
        },
    }
}

/// The gradient at the weights in `beta`: to the zeros in `g0` the term
/// `x[i] * a` of every row but row 0 is added in turn.
pub fn gradient_rows(
    program: &mut Program,
    x: &Vec<Vec<usize>>,
    y: &Vec<usize>,
    beta: &Vec<usize>,
    g0: &Vec<usize>,
    domain: Domain,
) -> (g: Vec<usize>)
    requires
        old(program).wf(),
        beta@.len() >= 1,
        grid_holds(old(program)@, x@, beta@.len() as int, domain),
        all_hold(old(program)@, y@, domain),
        y@.len() == x@.len(),
        all_hold(old(program)@, beta@, domain),
        all_hold(old(program)@, g0@, domain),
        g0@.len() == beta@.len(),
        forall|inputs: Seq<real>, j: int|
            0 <= j < g0@.len() ==> #[trigger] value_at(old(program)@, inputs, g0@[j] as int)
                == 0real,
    ensures
        computes(*final(program), *old(program), domain),
        g@.len() == beta@.len(),
        all_hold(final(program)@, g@, domain),
        forall|inputs: Seq<real>| #[trigger]
            values_at(final(program)@, inputs, g@) == gradient(
                grid_values(old(program)@, inputs, x@),
                values_at(old(program)@, inputs, y@),
                values_at(old(program)@, inputs, beta@),
            ),
        bootstraps(final(program)@) == bootstraps(old(program)@) + rows_after_first(x@.len())
            * row_cost(beta@.len(), domain, *old(program)),
{
    let ghost start = *program;
    let ghost width = beta@.len() as int;
    let ghost cost = row_cost(beta@.len(), domain, start);
    let mut g: Vec<usize> = g0.clone();
    let mut i: usize = 1;
    while i < x.len()
        invariant
            1 <= i,
            i <= x@.len() || i == 1,
            width == beta@.len(),
            width >= 1,
            y@.len() == x@.len(),
            g@.len() == width,
            start.wf(),
            cost == row_cost(beta@.len(), domain, start),
            bootstraps(program@) == bootstraps(start@) + (i - 1) * cost,
            computes(*program, start, domain),
            grid_holds(start@, x@, width, domain),
            all_hold(start@, y@, domain),
            all_hold(start@, beta@, domain),
            all_hold(program@, g@, domain),
            forall|inputs: Seq<real>, j: int|
                0 <= j < width ==> #[trigger] value_at(program@, inputs, g@[j] as int)
                    == gradient_entry(
                    grid_values(start@, inputs, x@),
                    values_at(start@, inputs, y@),
                    values_at(start@, inputs, beta@),
                    j,
                    i as int,
                ),
        decreases x@.len() - i,
    {
        let ghost before = *program;
        let s = dot(program, &x[i], beta, domain);
        let a = gradient_weight_register(program, y[i], s, domain);
        let xa = broadcast(program, &x[i], a, Binary::Mul, domain);
        let next = zip(program, &g, &xa, Binary::Add, domain);
        proof {
            assert((i + 1 - 1) * cost == (i - 1) * cost + cost) by (nonlinear_arith);
            assert forall|inputs: Seq<real>, j: int| 0 <= j < width implies #[trigger] value_at(
                program@,
                inputs,
                next@[j] as int,
            ) == gradient_entry(
                grid_values(start@, inputs, x@),
                values_at(start@, inputs, y@),
                values_at(start@, inputs, beta@),
                j,
                i + 1,
            ) by {
                let row = x@[i as int]@;
                lemma_values_stable(before@, start@, inputs, row);
                lemma_values_stable(before@, start@, inputs, beta@);
            }
        }
        g = next;
        i = i + 1;
    }
    g
}

/// One round of training: the weights in `beta` moved by the inverse Hessian
/// approximation times the gradient.
pub fn update_round(
    program: &mut Program,
    x: &Vec<Vec<usize>>,
    y: &Vec<usize>,
    h_inv: &Vec<Vec<usize>>,
    beta: &Vec<usize>,
    g0: &Vec<usize>,
    domain: Domain,
) -> (moved: Vec<usize>)
    requires
        old(program).wf(),
        beta@.len() >= 1,
        grid_holds(old(program)@, x@, beta@.len() as int, domain),
        all_hold(old(program)@, y@, domain),
        y@.len() == x@.len(),
        grid_holds(old(program)@, h_inv@, beta@.len() as int, domain),
        h_inv@.len() == beta@.len(),
        all_hold(old(program)@, beta@, domain),
        all_hold(old(program)@, g0@, domain),
        g0@.len() == beta@.len(),
        forall|inputs: Seq<real>, j: int|
            0 <= j < g0@.len() ==> #[trigger] value_at(old(program)@, inputs, g0@[j] as int)
                == 0real,
    ensures
        computes(*final(program), *old(program), domain),
        moved@.len() == beta@.len(),
        all_hold(final(program)@, moved@, domain),
        forall|inputs: Seq<real>| #[trigger]
            values_at(final(program)@, inputs, moved@) == newton_update(
                grid_values(old(program)@, inputs, x@),
                values_at(old(program)@, inputs, y@),
                grid_values(old(program)@, inputs, h_inv@),
                values_at(old(program)@, inputs, beta@),
            ),
        bootstraps(final(program)@) == bootstraps(old(program)@) + round_cost(
            x@.len(),
            beta@.len(),
            domain,
            *old(program),
        ),
{
    let ghost start = *program;
    let ghost width = beta@.len() as int;
    let g = gradient_rows(program, x, y, beta, g0, domain);
    let ghost p1 = *program;
    let delta = grid_times(program, h_inv, &g, domain);
    let step = scale_row(program, &delta, Decimal::new(true, 1, 0), domain);
    let moved = zip(program, beta, &step, Binary::Add, domain);
    proof {
        assert forall|inputs: Seq<real>| #[trigger]
            values_at(program@, inputs, moved@) == newton_update(
                grid_values(start@, inputs, x@),
                values_at(start@, inputs, y@),
                grid_values(start@, inputs, h_inv@),
                values_at(start@, inputs, beta@),
            ) by {
            lemma_grid_stable(p1@, start@, inputs, h_inv@, width, domain);
        }
    }
    moved
}

/// `rounds` rounds of training, which begin at the weights in `beta0`.
pub fn train_rounds(
    program: &mut Program,
    x: &Vec<Vec<usize>>,
    y: &Vec<usize>,
    h_inv: &Vec<Vec<usize>>,
    beta0: Vec<usize>,
    g0: &Vec<usize>,
    rounds: usize,
    domain: Domain,
) -> (beta: Vec<usize>)
    requires
        old(program).wf(),
        beta0@.len() >= 1,
        grid_holds(old(program)@, x@, beta0@.len() as int, domain),
        all_hold(old(program)@, y@, domain),
        y@.len() == x@.len(),
        grid_holds(old(program)@, h_inv@, beta0@.len() as int, domain),
        h_inv@.len() == beta0@.len(),
        all_hold(old(program)@, beta0@, domain),
        all_hold(old(program)@, g0@, domain),
        g0@.len() == beta0@.len(),
        forall|inputs: Seq<real>, j: int|
            0 <= j < g0@.len() ==> #[trigger] value_at(old(program)@, inputs, g0@[j] as int)
                == 0real,
    ensures
        computes(*final(program), *old(program), domain),
        beta@.len() == beta0@.len(),
        all_hold(final(program)@, beta@, domain),
        forall|inputs: Seq<real>| #[trigger]
            values_at(final(program)@, inputs, beta@) == trained(
                grid_values(old(program)@, inputs, x@),
                values_at(old(program)@, inputs, y@),
                grid_values(old(program)@, inputs, h_inv@),
                values_at(old(program)@, inputs, beta0@),
                rounds as nat,
            ),
        bootstraps(final(program)@) == bootstraps(old(program)@) + rounds * round_cost(
            x@.len(),
            beta0@.len(),
            domain,
            *old(program),
        ),
{
    let ghost start = *program;
    let ghost width = beta0@.len() as int;
    let ghost cost = round_cost(x@.len(), beta0@.len(), domain, start);
    let mut beta: Vec<usize> = beta0;
    let mut k: usize = 0;
    while k < rounds
        invariant
            k <= rounds,
            width == beta0@.len(),
            width >= 1,
            beta@.len() == width,
            y@.len() == x@.len(),
            h_inv@.len() == width,
            g0@.len() == width,
            start.wf(),
            cost == round_cost(x@.len(), beta0@.len(), domain, start),
            bootstraps(program@) == bootstraps(start@) + k * cost,
            computes(*program, start, domain),
            grid_holds(start@, x@, width, domain),
            all_hold(start@, y@, domain),
            grid_holds(start@, h_inv@, width, domain),
            all_hold(start@, g0@, domain),
            forall|inputs: Seq<real>, j: int|
                0 <= j < g0@.len() ==> #[trigger] value_at(start@, inputs, g0@[j] as int)
                    == 0real,
            all_hold(program@, beta@, domain),
            forall|inputs: Seq<real>| #[trigger]
                values_at(program@, inputs, beta@) == trained(
                    grid_values(start@, inputs, x@),
                    values_at(start@, inputs, y@),
                    grid_values(start@, inputs, h_inv@),
                    values_at(start@, inputs, beta0@),
                    k as nat,
                ),
        decreases rounds - k,
    {
        let ghost before = *program;
        let moved = update_round(program, x, y, h_inv, &beta, g0, domain);
        proof {
            assert((k + 1) * cost == k * cost + cost) by (nonlinear_arith);
            assert forall|inputs: Seq<real>| #[trigger]
                values_at(program@, inputs, moved@) == trained(
                    grid_values(start@, inputs, x@),
                    values_at(start@, inputs, y@),
                    grid_values(start@, inputs, h_inv@),
                    values_at(start@, inputs, beta0@),
                    (k + 1) as nat,
                ) by {
                lemma_grid_stable(before@, start@, inputs, x@, width, domain);
                lemma_grid_stable(before@, start@, inputs, h_inv@, width, domain);
                lemma_values_stable(before@, start@, inputs, y@);
            }
        }
        beta = moved;
        k = k + 1;
    }
    beta
}

/// A row of `n` numbers, each of them `value`.
pub fn constant_row(value: Decimal, n: usize) -> (row: Vec<Decimal>)
    ensures
        row@.len() == n,
        forall|i: int| 0 <= i < n ==> #[trigger] row@[i] == value,
{
    let mut row: Vec<Decimal> = Vec::new();
    let mut i: usize = 0;
    while i < n
        invariant
            i <= n,
            row@.len() == i,
            forall|j: int| 0 <= j < i ==> #[trigger] row@[j] == value,
        decreases n - i,
    {
        row.push(value);
        i = i + 1;
    }
    row
}

/// Whether data and labels can be trained on, and if not, why: there is at
/// least one row, the rows have one length, which is not zero, and there is
/// one label for each row.
pub open spec fn trainable(x: Seq<Vec<Decimal>>, y: Seq<Decimal>) -> Result<(), ShapeError> {
    if x.len() == 0 || x[0]@.len() == 0 {
        Err(ShapeError::Empty)
    } else if !rectangular(x, x[0]@.len() as int) || y.len() != x.len() {
        Err(ShapeError::DimensionMismatch)
    } else {
        Ok(())
    }
}

/// Checks data and labels as `trainable` says.
pub fn check_trainable(x: &Vec<Vec<Decimal>>, y: &Vec<Decimal>) -> (checked: Result<
    (),
    ShapeError,
>)
    ensures
        checked == trainable(x@, y@),
{
    if x.len() == 0 {
        return Err(ShapeError::Empty);
    }
    let d = x[0].len();
    if d == 0 {
        return Err(ShapeError::Empty);
    }
    if !is_rectangular(x, d) || y.len() != x.len() {
        return Err(ShapeError::DimensionMismatch);
    }
    Ok(())
}

/// The registers that training begins with: the data, the labels, the
/// inverse Hessian approximation, the first weights and the zeros of the
/// gradient.
pub struct Prepared {
    pub x: Vec<Vec<usize>>,
    pub y: Vec<usize>,
    pub h_inv: Vec<Vec<usize>>,
    pub beta: Vec<usize>,
    pub g: Vec<usize>,
}

impl Prepared {
    /// The registers hold in `program`, as numbers of the domain, what
    /// training on the data `x` with the labels `y` begins with.
    pub open spec fn holds_for(
        &self,
        program: Program,
        x: Seq<Vec<Decimal>>,
        y: Seq<Decimal>,
        reciprocal_rounds: nat,
        domain: Domain,
    ) -> bool {
        let width = x[0]@.len();
        &&& grid_holds(program@, self.x@, width as int, domain)
        &&& all_hold(program@, self.y@, domain)
        &&& grid_holds(program@, self.h_inv@, width as int, domain)
        &&& all_hold(program@, self.beta@, domain)
        &&& all_hold(program@, self.g@, domain)
        &&& self.x@.len() == x.len()
        &&& self.y@.len() == x.len()
        &&& self.h_inv@.len() == width
        &&& self.beta@.len() == width
        &&& self.g@.len() == width
        &&& forall|inputs: Seq<real>| #[trigger]
            grid_values(program@, inputs, self.x@) == decimal_grid(x)
        &&& forall|inputs: Seq<real>| #[trigger]
            values_at(program@, inputs, self.y@) == decimal_values(y)
        &&& forall|inputs: Seq<real>| #[trigger]
            grid_values(program@, inputs, self.h_inv@) == inverse_hessian(
                decimal_grid(x),
                width,
                reciprocal_rounds,
            )
        &&& forall|inputs: Seq<real>| #[trigger]
            values_at(program@, inputs, self.beta@) == initial_weights(width)
        &&& forall|inputs: Seq<real>, j: int|
            0 <= j < width ==> #[trigger] value_at(program@, inputs, self.g@[j] as int) == 0real
    }

    /// The operations that take across what training begins with: the
    /// inverse Hessian approximation, the data, the labels, the zeros of the
    /// gradient and the first weights, in this order.
    pub open spec fn crossings(&self, how: Crossing) -> Seq<Op> {
        grid_crossings(self.h_inv@, how) + grid_crossings(self.x@, how) + crossings(self.y@, how)
            + crossings(self.g@, how) + crossings(self.beta@, how)
    }
}

/// Writes into the program, on plain numbers, what training begins with.
pub fn prepare(
    program: &mut Program,
    x: &Vec<Vec<Decimal>>,
    y: &Vec<Decimal>,
    reciprocal_rounds: usize,
) -> (prepared: Prepared)
    requires
        old(program).wf(),
        trainable(x@, y@) is Ok,
    ensures
        computes(*final(program), *old(program), Domain::Plain),
        prepared.holds_for(*final(program), x@, y@, reciprocal_rounds as nat, Domain::Plain),
        bootstraps(final(program)@) == bootstraps(old(program)@),
{
    let d = x[0].len();
    let px = literal_grid(program, x, d);
    let ghost p1 = *program;
    let py = literals(program, y);
    let ghost p2 = *program;
    let h_inv = inverse_hessian_grid(program, &px, d, reciprocal_rounds);
    let ghost p3 = *program;
    let beta = literals(program, &constant_row(Decimal::new(false, 1, 3), d));
    let ghost p4 = *program;
    let g = literals(program, &constant_row(Decimal::whole(false, 0), d));
    let prepared = Prepared { x: px, y: py, h_inv, beta, g };
    proof {
        lemma_constants();
        assert forall|inputs: Seq<real>| #[trigger]
            grid_values(program@, inputs, px@) == decimal_grid(x@) by {
            lemma_grid_stable(p2@, p1@, inputs, px@, d as int, Domain::Plain);
            lemma_grid_stable(p3@, p2@, inputs, px@, d as int, Domain::Plain);
            lemma_grid_stable(p4@, p3@, inputs, px@, d as int, Domain::Plain);
            lemma_grid_stable(program@, p4@, inputs, px@, d as int, Domain::Plain);
        }
        assert forall|inputs: Seq<real>| #[trigger]
            values_at(program@, inputs, py@) == decimal_values(y@) by {
            lemma_values_stable(p3@, p2@, inputs, py@);
        }
        assert forall|inputs: Seq<real>| #[trigger]
            grid_values(program@, inputs, h_inv@) == inverse_hessian(
                decimal_grid(x@),
                d as nat,
                reciprocal_rounds as nat,
            ) by {
            lemma_grid_stable(p2@, p1@, inputs, px@, d as int, Domain::Plain);
            lemma_grid_stable(p4@, p3@, inputs, h_inv@, d as int, Domain::Plain);
            lemma_grid_stable(program@, p4@, inputs, h_inv@, d as int, Domain::Plain);
        }
        assert forall|inputs: Seq<real>| #[trigger]
            values_at(program@, inputs, beta@) == initial_weights(d as nat) by {
            lemma_values_stable(program@, p4@, inputs, beta@);
        }
        assert forall|inputs: Seq<real>, j: int| 0 <= j < d implies #[trigger] value_at(
            program@,
            inputs,
            g@[j] as int,
        ) == 0real by {
            assert(values_at(program@, inputs, g@)[j] == 0real);
        }
    }
    prepared
}

/// The program that trains a model on plain numbers, for the data `x` with
/// the labels `y`. Data that are not `trainable` are refused.
pub fn train_data_plain(x: &Vec<Vec<Decimal>>, y: &Vec<Decimal>) -> (training: Result<
    Training,
    ShapeError,
>)
    ensures
        match training {
            Ok(t) => {
                &&& trainable(x@, y@) is Ok
                &&& t.program.wf()
                &&& t.weights.within(t.program)
                &&& t.weights.dim == x@[0]@.len()
                &&& arithmetic_from(t.program@, 0, Domain::Plain)
                &&& bootstraps(t.program@) == 0
                &&& forall|inputs: Seq<real>| #[trigger]
                    t.weights.values(t.program, inputs) == model(
                        decimal_grid(x@),
                        decimal_values(y@),
                        x@[0]@.len(),
                        PLAIN_RECIPROCAL_ROUNDS as nat,
                        PLAIN_ROUNDS as nat,
                    )
            },
            Err(e) => trainable(x@, y@) == Err::<(), ShapeError>(e),
        },
{
    match check_trainable(x, y) {
        Err(e) => {
            return Err(e);
        },
        Ok(_) => {},
    }
    let mut program = Program::new(LinearPolicy::Noiseless, false);
    let prepared = prepare(&mut program, x, y, PLAIN_RECIPROCAL_ROUNDS);
    let d = x[0].len();
    let beta = train_rounds(
        &mut program,
        &prepared.x,
        &prepared.y,
        &prepared.h_inv,
        prepared.beta,
        &prepared.g,
        PLAIN_ROUNDS,
        Domain::Plain,
    );
    let weights = PlainVector { plainvector: beta, dim: d };
    proof {
        lemma_plain_costs_nothing(program@);
    }
    Ok(Training { program, weights })
}

/// What training begins with is still there when operations are added.
pub proof fn lemma_prepared_stable(
    new: Program,
    old: Program,
    prepared: Prepared,
    x: Seq<Vec<Decimal>>,
    y: Seq<Decimal>,
    reciprocal_rounds: nat,
    domain: Domain,
)
    requires
        continues(new@, old@),
        prepared.holds_for(old, x, y, reciprocal_rounds, domain),
    ensures
        prepared.holds_for(new, x, y, reciprocal_rounds, domain),
{
    let width = x[0]@.len() as int;
    assert forall|inputs: Seq<real>| #[trigger]
        grid_values(new@, inputs, prepared.x@) == decimal_grid(x) by {
        lemma_grid_stable(new@, old@, inputs, prepared.x@, width, domain);
    }
    assert forall|inputs: Seq<real>| #[trigger]
        grid_values(new@, inputs, prepared.h_inv@) == inverse_hessian(
            decimal_grid(x),
            width as nat,
            reciprocal_rounds,
        ) by {
        lemma_grid_stable(new@, old@, inputs, prepared.h_inv@, width, domain);
    }
    assert forall|inputs: Seq<real>| #[trigger]
        values_at(new@, inputs, prepared.y@) == decimal_values(y) by {
        lemma_values_stable(new@, old@, inputs, prepared.y@);
    }
    assert forall|inputs: Seq<real>| #[trigger]
        values_at(new@, inputs, prepared.beta@) == initial_weights(width as nat) by {
        lemma_values_stable(new@, old@, inputs, prepared.beta@);
    }
}

/// Encrypts what training begins with: the inverse Hessian approximation,
/// the data, the labels, the zeros of the gradient and the first weights, in
/// this order.
fn encrypt_prepared(
    program: &mut Program,
    plain: &Prepared,
    how: Crossing,
    Ghost(x): Ghost<Seq<Vec<Decimal>>>,
    Ghost(y): Ghost<Seq<Decimal>>,
    Ghost(reciprocal_rounds): Ghost<nat>,
) -> (cipher: Prepared)
    requires
        old(program).wf(),
        how is Encrypt,
        how.ready(old(program)@),
        plain.holds_for(*old(program), x, y, reciprocal_rounds, Domain::Plain),
    ensures
        final(program).follows(*old(program)),
        final(program)@ == old(program)@ + plain.crossings(how),
        cipher.holds_for(*final(program), x, y, reciprocal_rounds, Domain::Cipher),
        crossings_from(final(program)@, old(program)@.len() as int, how),
        bootstraps(final(program)@) == bootstraps(old(program)@),
{
    let ghost width = x[0]@.len() as int;
    let ghost p0 = *program;
    let e_h = cross_grid(program, &plain.h_inv, plain.beta.len(), how);
    let ghost p1 = *program;
    proof {
        lemma_prepared_stable(p1, p0, *plain, x, y, reciprocal_rounds, Domain::Plain);
    }
    let e_x = cross_grid(program, &plain.x, plain.beta.len(), how);
    let ghost p2 = *program;
    proof {
        lemma_prepared_stable(p2, p1, *plain, x, y, reciprocal_rounds, Domain::Plain);
    }
    let e_y = cross_row(program, &plain.y, how);
    let ghost p3 = *program;
    proof {
        lemma_prepared_stable(p3, p2, *plain, x, y, reciprocal_rounds, Domain::Plain);
    }
    let e_g = cross_row(program, &plain.g, how);
    let ghost p4 = *program;
    proof {
        lemma_prepared_stable(p4, p3, *plain, x, y, reciprocal_rounds, Domain::Plain);
    }
    let e_beta = cross_row(program, &plain.beta, how);
    let cipher = Prepared { x: e_x, y: e_y, h_inv: e_h, beta: e_beta, g: e_g };
    proof {
        let p5 = *program;
        assert(p5@ =~= p0@ + plain.crossings(how));
        assert forall|inputs: Seq<real>| #[trigger]
            grid_values(p5@, inputs, e_x@) == decimal_grid(x) by {
            lemma_grid_stable(p3@, p2@, inputs, e_x@, width, Domain::Cipher);
            lemma_grid_stable(p4@, p3@, inputs, e_x@, width, Domain::Cipher);
            lemma_grid_stable(p5@, p4@, inputs, e_x@, width, Domain::Cipher);
        }
        assert forall|inputs: Seq<real>| #[trigger]
            grid_values(p5@, inputs, e_h@) == inverse_hessian(
                decimal_grid(x),
                width as nat,
                reciprocal_rounds,
            ) by {
            lemma_grid_stable(p2@, p1@, inputs, e_h@, width, Domain::Cipher);
            lemma_grid_stable(p3@, p2@, inputs, e_h@, width, Domain::Cipher);
            lemma_grid_stable(p4@, p3@, inputs, e_h@, width, Domain::Cipher);
            lemma_grid_stable(p5@, p4@, inputs, e_h@, width, Domain::Cipher);
        }
        assert forall|inputs: Seq<real>| #[trigger]
            values_at(p5@, inputs, e_y@) == decimal_values(y) by {
            lemma_values_stable(p4@, p3@, inputs, e_y@);
        }
        assert forall|inputs: Seq<real>, j: int| 0 <= j < width implies #[trigger] value_at(
            p5@,
            inputs,
            e_g@[j] as int,
        ) == 0real by {
            assert(values_at(p4@, inputs, e_g@)[j] == value_at(p4@, inputs, e_g@[j] as int));
        }
    }
    cipher
}

/// The program that trains a model under encryption, for the data `x` with
/// the labels `y`. The inverse Hessian approximation is computed on plain
/// numbers. Then everything is encrypted over the range from -60 to 60 with
/// the given bits, the rounds are run on ciphertexts, and the weights are
/// decrypted. The program is begun with the policy for sums and differences
/// and with or without keyswitching, as asked. Data that are not `trainable`
/// are refused.
pub fn train_data_fhe(
    x: &Vec<Vec<Decimal>>,
    y: &Vec<Decimal>,
    policy: LinearPolicy,
    with_ks: bool,
    nb_bit_precision: usize,
    nb_bit_padding: usize,
) -> (training: Result<Training, ShapeError>)
    ensures
        match training {
            Ok(t) => {
                &&& trainable(x@, y@) is Ok
                &&& t.program.wf()
                &&& t.program.linear_policy() == policy
                &&& t.program.keyswitching() == with_ks
                &&& bootstraps(t.program@) == FHE_ROUNDS * round_cost(
                    x@.len(),
                    x@[0]@.len(),
                    Domain::Cipher,
                    t.program,
                )
                &&& t.weights.within(t.program)
                &&& t.weights.dim == x@[0]@.len()
                &&& exists|a: int, b: int, c: int, min: usize, max: usize, plain: Prepared|
                    {
                        &&& #[trigger] encrypts_prepared(
                            t.program@,
                            a,
                            b,
                            c,
                            Crossing::Encrypt {
                                min,
                                max,
                                precision_bits: nb_bit_precision,
                                padding_bits: nb_bit_padding,
                            },
                            plain,
                        )
                        &&& plain.holds_for(
                            t.program,
                            x@,
                            y@,
                            FHE_RECIPROCAL_ROUNDS as nat,
                            Domain::Plain,
                        )
                        &&& forall|inputs: Seq<real>| #[trigger]
                            value_at(t.program@, inputs, min as int) == -60real
                        &&& forall|inputs: Seq<real>| #[trigger]
                            value_at(t.program@, inputs, max as int) == 60real
                    }
                &&& forall|j: int|
                    0 <= j < t.weights.dim ==> t.program@[(
                    #[trigger] t.weights.plainvector@[j]) as int] is Decrypt
                &&& forall|inputs: Seq<real>| #[trigger]
                    t.weights.values(t.program, inputs) == model(
                        decimal_grid(x@),
                        decimal_values(y@),
                        x@[0]@.len(),
                        FHE_RECIPROCAL_ROUNDS as nat,
                        FHE_ROUNDS as nat,
                    )
            },
            Err(e) => trainable(x@, y@) == Err::<(), ShapeError>(e),
        },
{
    match check_trainable(x, y) {
        Err(e) => {
            return Err(e);
        },
        Ok(_) => {},
    }
    let mut program = Program::new(policy, with_ks);
    let plain = prepare(&mut program, x, y, FHE_RECIPROCAL_ROUNDS);
    let ghost p0 = program;
    let min = program.emit(Op::Literal(Decimal::whole(true, 60)));
    let max = program.emit(Op::Literal(Decimal::whole(false, 60)));
    let ghost pm = program;
    let how = Crossing::Encrypt {
        min,
        max,
        precision_bits: nb_bit_precision,
        padding_bits: nb_bit_padding,
    };
    proof {
        lemma_prepared_stable(
            program,
            p0,
            plain,
            x@,
            y@,
            FHE_RECIPROCAL_ROUNDS as nat,
            Domain::Plain,
        );
    }
    let cipher = encrypt_prepared(
        &mut program,
        &plain,
        how,
        Ghost(x@),
        Ghost(y@),
        Ghost(FHE_RECIPROCAL_ROUNDS as nat),
    );
    let d = x[0].len();
    let ghost p1 = program;
    let beta = train_rounds(
        &mut program,
        &cipher.x,
        &cipher.y,
        &cipher.h_inv,
        cipher.beta,
        &cipher.g,
        FHE_ROUNDS,
        Domain::Cipher,
    );
    let ghost p2 = program;
    let plainvector = cross_row(&mut program, &beta, Crossing::Decrypt);
    let weights = PlainVector { plainvector, dim: d };
    proof {
        let a = pm@.len() as int;
        let b = p1@.len() as int;
        let c = p2@.len() as int;
        assert(staged(program@, a, b, c, how));
        assert(program@.subrange(a, b) =~= plain.crossings(how));
        assert(encrypts_prepared(program@, a, b, c, how, plain));
        lemma_prepared_stable(
            program,
            p0,
            plain,
            x@,
            y@,
            FHE_RECIPROCAL_ROUNDS as nat,
            Domain::Plain,
        );
    }
    Ok(Training { program, weights })
}

} // verus!
