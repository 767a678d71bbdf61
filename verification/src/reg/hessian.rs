//! The approximation of the inverse Hessian that the training uses.
//!
//! The Hessian of the logistic loss is replaced by a diagonal matrix, whose
//! entry `j` is `-1/4` times the sum over the rows `i` of `x[i][j]` times the
//! sum of row `i`, over all rows. Each entry is inverted by
//! Newton's iteration for a reciprocal, which needs no division. All of it
//! is computed on plain numbers.
use crate::algebra::{all_hold, computes, grid_holds, grid_values, lemma_values_stable, Domain};
use crate::number::{pow10, power_of_ten, Decimal};
use crate::program::{bootstraps, value_at, values_at, Func, Op, Program};
use vstd::prelude::*;

verus! {

/// The sum of the first `upto` numbers of a row.
pub open spec fn sum_entries(row: Seq<real>, upto: int) -> real
    decreases upto,
{
    if upto <= 0 {
        0real
    } else {
        sum_entries(row, upto - 1) + row[upto - 1]
    }
}

/// The sum of a row.
pub open spec fn row_total(row: Seq<real>) -> real {
    sum_entries(row, row.len() as int)
}

/// The sum over the rows `i` before `upto` of `x[i][j]` times the sum of
/// row `i`.
pub open spec fn hessian_sum(x: Seq<Seq<real>>, j: int, upto: int) -> real
    decreases upto,
{
    if upto <= 0 {
        0real
    } else {
        hessian_sum(x, j, upto - 1) + x[upto - 1][j] * row_total(x[upto - 1])
    }
}

/// Entry `j` of the diagonal approximation of the Hessian.
pub open spec fn hessian_diagonal(x: Seq<Seq<real>>, j: int) -> real {
    -hessian_sum(x, j, x.len() as int) / 4real
}

/// One round of Newton's iteration for the reciprocal of `a`.
pub open spec fn newton_step(a: real, x: real) -> real {
    x * (2real - a * x)
}

/// The approximation of `1 / a` after `rounds` rounds of Newton's iteration,
/// begun at `0.0001` with the sign of `a`.
pub open spec fn reciprocal(a: real, rounds: nat) -> real
    decreases rounds,
{
    if rounds == 0 {
        Func::Seed.apply(a)
    } else {
        newton_step(a, reciprocal(a, (rounds - 1) as nat))
    }
}

/// The error `1 - a * x` of an approximation `x` of `1 / a`.
pub open spec fn reciprocal_error(a: real, rounds: nat) -> real {
    1real - a * reciprocal(a, rounds)
}

/// Each round of Newton's iteration squares the error.
pub proof fn lemma_newton_squares_error(a: real, rounds: nat)
    ensures
        reciprocal_error(a, rounds + 1) == reciprocal_error(a, rounds) * reciprocal_error(
            a,
            rounds,
        ),
{
    let x = reciprocal(a, rounds);
    assert(1real - a * (x * (2real - a * x)) == (1real - a * x) * (1real - a * x))
        by (nonlinear_arith);
}

/// Where the first guess lies between zero and twice the reciprocal, which
/// for the guess of magnitude `0.0001` means `-20000 < a < 20000`, the error
/// after the first round is below 1 and not negative, and every further
/// round multiplies it by no more than the error after the first round: the
/// more rounds, the closer `a * x` is to 1.
pub proof fn lemma_newton_converges(a: real, rounds: nat)
    requires
        -20000real < a < 20000real,
        a != 0real,
    ensures
        0real <= reciprocal_error(a, rounds + 1) < 1real,
        reciprocal_error(a, rounds + 1) <= reciprocal_error(a, 1),
        reciprocal_error(a, rounds + 2) <= reciprocal_error(a, 1) * reciprocal_error(
            a,
            rounds + 1,
        ),
        reciprocal_error(a, rounds + 2) <= reciprocal_error(a, rounds + 1),
    decreases rounds,
{
    lemma_newton_squares_error(a, rounds);
    lemma_newton_squares_error(a, rounds + 1);
    let first = reciprocal_error(a, 1);
    let e = reciprocal_error(a, rounds);
    let f = reciprocal_error(a, rounds + 1);
    if rounds == 0 {
        if a <= 0real {
            assert(0real < a * (-1real / 10000real) < 2real) by (nonlinear_arith)
                requires
                    -20000real < a < 0real,
            ;
        }
        assert(0real <= e * e < 1real) by (nonlinear_arith)
            requires
                -1real < e < 1real,
        ;
    } else {
        lemma_newton_converges(a, (rounds - 1) as nat);
        assert(0real <= e * e < 1real) by (nonlinear_arith)
            requires
                0real <= e < 1real,
        ;
    }
    assert(0real <= f * f <= first * f && f * f <= f) by (nonlinear_arith)
        requires
            0real <= f < 1real,
            0real <= f <= first,
    ;
}

/// Where the first guess lies beyond twice the reciprocal, which means
/// `a < -20000` or `a > 20000`, the error is above 1 after the first round
/// and every further round makes it larger: the iteration runs away.
pub proof fn lemma_newton_diverges(a: real, rounds: nat)
    requires
        a < -20000real || a > 20000real,
    ensures
        1real < reciprocal_error(a, rounds + 1) < reciprocal_error(a, rounds + 2),
    decreases rounds,
{
    lemma_newton_squares_error(a, rounds);
    lemma_newton_squares_error(a, rounds + 1);
    let e = reciprocal_error(a, rounds);
    let f = reciprocal_error(a, rounds + 1);
    if rounds == 0 {
        assert(e * e > 1real) by (nonlinear_arith)
            requires
                e < -1real,
        ;
    } else {
        lemma_newton_diverges(a, (rounds - 1) as nat);
    }
    assert(f * f > f) by (nonlinear_arith)
        requires
            f > 1real,
    ;
}

/// The diagonal matrix of the approximate reciprocals of the Hessian's
/// diagonal, for data with rows of `dim` numbers.
pub open spec fn inverse_hessian(x: Seq<Seq<real>>, dim: nat, rounds: nat) -> Seq<Seq<real>> {
    Seq::new(
        dim,
        |j: int|
            Seq::new(
                dim,
                |k: int|
                    if j == k {
                        reciprocal(hessian_diagonal(x, j), rounds)
                    } else {
                        0real
                    },
            ),
    )
}

/// The values of the constants of the algorithms.
pub proof fn lemma_constants()
    ensures
        (Decimal { negative: false, digits: 0, scale: 0 }).value() == 0real,
        (Decimal { negative: false, digits: 2, scale: 0 }).value() == 2real,
        (Decimal { negative: true, digits: 1, scale: 0 }).value() == -1real,
        (Decimal { negative: false, digits: 60, scale: 0 }).value() == 60real,
        (Decimal { negative: true, digits: 60, scale: 0 }).value() == -60real,
        (Decimal { negative: false, digits: 5, scale: 1 }).value() == 1real / 2real,
        (Decimal { negative: false, digits: 25, scale: 2 }).value() == 1real / 4real,
        (Decimal { negative: true, digits: 25, scale: 2 }).value() == -1real / 4real,
        (Decimal { negative: false, digits: 1, scale: 3 }).value() == 1real / 1000real,
{
    assert(power_of_ten(0) == 1real) by {
        reveal_with_fuel(pow10, 1);
    }
    assert(pow10(1) == 10real) by {
        reveal_with_fuel(pow10, 2);
    }
    assert(pow10(2) == 100real) by {
        reveal_with_fuel(pow10, 3);
    }
}

/// The sum of the numbers of a row, added one after the other to the zero in
/// register `zero`.
pub fn sum_row(program: &mut Program, row: &Vec<usize>, zero: usize) -> (total: usize)
    requires
        old(program).wf(),
        all_hold(old(program)@, row@, Domain::Plain),
        old(program).holds_plain(zero),
        forall|inputs: Seq<real>| #[trigger] value_at(old(program)@, inputs, zero as int) == 0real,
    ensures
        computes(*final(program), *old(program), Domain::Plain),
        final(program).holds_plain(total),
        forall|inputs: Seq<real>| #[trigger]
            value_at(final(program)@, inputs, total as int) == row_total(
                values_at(old(program)@, inputs, row@),
            ),
        bootstraps(final(program)@) == bootstraps(old(program)@),
{
    let ghost start = *program;
    let mut total: usize = zero;
    let mut j: usize = 0;
    while j < row.len()
        invariant
            j <= row@.len(),
            computes(*program, start, Domain::Plain),
            all_hold(start@, row@, Domain::Plain),
            program.holds_plain(total),
            forall|inputs: Seq<real>| #[trigger]
                value_at(program@, inputs, total as int) == sum_entries(
                    values_at(start@, inputs, row@),
                    j as int,
                ),
            bootstraps(program@) == bootstraps(start@),
        decreases row@.len() - j,
    {
        let next = program.emit(Op::Add(total, row[j]));
        total = next;
        j = j + 1;
    }
    total
}

/// The sum of each row of a grid.
pub fn row_sums(program: &mut Program, x: &Vec<Vec<usize>>, width: usize, zero: usize) -> (sums:
    Vec<usize>)
    requires
        old(program).wf(),
        grid_holds(old(program)@, x@, width as int, Domain::Plain),
        old(program).holds_plain(zero),
        forall|inputs: Seq<real>| #[trigger] value_at(old(program)@, inputs, zero as int) == 0real,
    ensures
        computes(*final(program), *old(program), Domain::Plain),
        sums@.len() == x@.len(),
        all_hold(final(program)@, sums@, Domain::Plain),
        forall|inputs: Seq<real>, i: int|
            0 <= i < x@.len() ==> #[trigger] value_at(final(program)@, inputs, sums@[i] as int)
                == row_total(grid_values(old(program)@, inputs, x@)[i]),
        bootstraps(final(program)@) == bootstraps(old(program)@),
{
    let ghost start = *program;
    let mut sums: Vec<usize> = Vec::new();
    let mut i: usize = 0;
    while i < x.len()
        invariant
            i <= x@.len(),
            sums@.len() == i,
            start.wf(),
            computes(*program, start, Domain::Plain),
            grid_holds(start@, x@, width as int, Domain::Plain),
            start.holds_plain(zero),
            forall|inputs: Seq<real>| #[trigger] value_at(start@, inputs, zero as int) == 0real,
            all_hold(program@, sums@, Domain::Plain),
            forall|inputs: Seq<real>, k: int|
                0 <= k < i ==> #[trigger] value_at(program@, inputs, sums@[k] as int) == row_total(
                    grid_values(start@, inputs, x@)[k],
                ),
            bootstraps(program@) == bootstraps(start@),
        decreases x@.len() - i,
    {
        let ghost before = *program;
        let total = sum_row(program, &x[i], zero);
        sums.push(total);
        proof {
            assert forall|inputs: Seq<real>, k: int| 0 <= k < i + 1 implies #[trigger] value_at(
                program@,
                inputs,
                sums@[k] as int,
            ) == row_total(grid_values(start@, inputs, x@)[k]) by {
                if k >= i {
                    lemma_values_stable(before@, start@, inputs, x@[i as int]@);
                }
            }
        }
        i = i + 1;
    }
    sums
}

/// Entry `j` of the diagonal approximation of the Hessian of the data `x`,
/// whose rows have the sums in `sums`.
pub fn hessian_entry(
    program: &mut Program,
    x: &Vec<Vec<usize>>,
    width: usize,
    sums: &Vec<usize>,
    j: usize,
    zero: usize,
) -> (entry: usize)
    requires
        old(program).wf(),
        grid_holds(old(program)@, x@, width as int, Domain::Plain),
        all_hold(old(program)@, sums@, Domain::Plain),
        sums@.len() == x@.len(),
        j < width,
        old(program).holds_plain(zero),
        forall|inputs: Seq<real>| #[trigger] value_at(old(program)@, inputs, zero as int) == 0real,
        forall|inputs: Seq<real>, i: int|
            0 <= i < x@.len() ==> #[trigger] value_at(old(program)@, inputs, sums@[i] as int)
                == row_total(grid_values(old(program)@, inputs, x@)[i]),
    ensures
        computes(*final(program), *old(program), Domain::Plain),
        final(program).holds_plain(entry),
        forall|inputs: Seq<real>| #[trigger]
            value_at(final(program)@, inputs, entry as int) == hessian_diagonal(
                grid_values(old(program)@, inputs, x@),
                j as int,
            ),
        bootstraps(final(program)@) == bootstraps(old(program)@),
{
    let ghost start = *program;
    let mut temp: usize = zero;
    let mut i: usize = 0;
    while i < x.len()
        invariant
            i <= x@.len(),
            sums@.len() == x@.len(),
            j < width,
            start.wf(),
            computes(*program, start, Domain::Plain),
            grid_holds(start@, x@, width as int, Domain::Plain),
            all_hold(start@, sums@, Domain::Plain),
            program.holds_plain(temp),
            forall|inputs: Seq<real>, k: int|
                0 <= k < x@.len() ==> #[trigger] value_at(start@, inputs, sums@[k] as int)
                    == row_total(grid_values(start@, inputs, x@)[k]),
            forall|inputs: Seq<real>| #[trigger]
                value_at(program@, inputs, temp as int) == hessian_sum(
                    grid_values(start@, inputs, x@),
                    j as int,
                    i as int,
                ),
            bootstraps(program@) == bootstraps(start@),
        decreases x@.len() - i,
    {
        let product = program.emit(Op::Mul(x[i][j], sums[i]));
        let next = program.emit(Op::Add(temp, product));
        temp = next;
        i = i + 1;
    }
    let quarter = program.emit(Op::Literal(Decimal::new(true, 25, 2)));
    let ghost middle = *program;
    let entry = program.emit(Op::Mul(temp, quarter));
    proof {
        lemma_constants();
        assert forall|inputs: Seq<real>| #[trigger]
            value_at(program@, inputs, entry as int) == hessian_diagonal(
                grid_values(start@, inputs, x@),
                j as int,
            ) by {
            assert(value_at(middle@, inputs, quarter as int) == -1real / 4real);
        }
    }
    entry
}

/// The approximate reciprocal of the number in register `a`, by `rounds`
/// rounds of Newton's iteration.
pub fn reciprocal_register(program: &mut Program, a: usize, rounds: usize) -> (x: usize)
    requires
        old(program).wf(),
        old(program).holds_plain(a),
    ensures
        computes(*final(program), *old(program), Domain::Plain),
        final(program).holds_plain(x),
        forall|inputs: Seq<real>| #[trigger]
            value_at(final(program)@, inputs, x as int) == reciprocal(
                value_at(old(program)@, inputs, a as int),
                rounds as nat,
            ),
        bootstraps(final(program)@) == bootstraps(old(program)@),
{
    let ghost start = *program;
    let two = program.emit(Op::Literal(Decimal::whole(false, 2)));
    let mut xk = program.emit(Op::Apply(a, Func::Seed));
    let mut k: usize = 0;
    while k < rounds
        invariant
            k <= rounds,
            start.wf(),
            computes(*program, start, Domain::Plain),
            start.holds_plain(a),
            program.holds_plain(two),
            program.holds_plain(xk),
            forall|inputs: Seq<real>| #[trigger] value_at(program@, inputs, two as int) == 2real,
            forall|inputs: Seq<real>| #[trigger]
                value_at(program@, inputs, xk as int) == reciprocal(
                    value_at(start@, inputs, a as int),
                    k as nat,
                ),
            bootstraps(program@) == bootstraps(start@),
        decreases rounds - k,
    {
        let t = program.emit(Op::Mul(a, xk));
        let u = program.emit(Op::Sub(two, t));
        let next = program.emit(Op::Mul(xk, u));
        xk = next;
        k = k + 1;
    }
    xk
}

} // verus!
