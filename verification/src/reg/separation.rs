//! A worked example of training: two groups of examples that share no
//! feature, and the proof that the trained model tells them apart.
use crate::algebra::{dot_product, sum_products};
use crate::clear::matrix::decimal_grid;
use crate::clear::vector::decimal_values;
use crate::number::Decimal;
use crate::reg::classifier::{model_inputs, padded, padded_grid, prediction};
use crate::reg::hessian::{
    hessian_diagonal, hessian_sum, inverse_hessian, lemma_newton_converges,
    lemma_newton_squares_error, reciprocal, reciprocal_error, row_total, sum_entries,
};
use crate::reg::trainer::{
    gradient, gradient_entry, gradient_weight, initial_weights, model, newton_update, trained,
    PLAIN_RECIPROCAL_ROUNDS, PLAIN_ROUNDS,
};
use vstd::prelude::*;

verus! {

/// An example of the first group: the last two features are 4.
pub open spec fn first_group() -> Seq<real> {
    seq![0real, 0real, 4real, 4real]
}

/// An example of the second group: the first two features are 1.
pub open spec fn second_group() -> Seq<real> {
    seq![1real, 1real, 0real, 0real]
}

/// Three examples of the first group, then two of the second.
pub open spec fn two_groups() -> Seq<Seq<real>> {
    seq![first_group(), first_group(), first_group(), second_group(), second_group()]
}

/// The labels of `two_groups`: `+1` for the first group, `-1` for the
/// second.
pub open spec fn two_labels() -> Seq<real> {
    seq![1real, 1real, 1real, -1real, -1real]
}

/// The dot product of rows of four numbers, written out.
proof fn lemma_dot_of_four(u: Seq<real>, v: Seq<real>)
    requires
        u.len() == 4,
    ensures
        dot_product(u, v) == u[0] * v[0] + u[1] * v[1] + u[2] * v[2] + u[3] * v[3],
{
    reveal_with_fuel(sum_products, 5);
}

/// The diagonal of the Hessian approximation for `two_groups`.
proof fn lemma_group_hessian()
    ensures
        hessian_diagonal(two_groups(), 0) == -1real,
        hessian_diagonal(two_groups(), 1) == -1real,
        hessian_diagonal(two_groups(), 2) == -24real,
        hessian_diagonal(two_groups(), 3) == -24real,
{
    let x = two_groups();
    assert(row_total(first_group()) == 8real) by {
        reveal_with_fuel(sum_entries, 5);
    }
    assert(row_total(second_group()) == 2real) by {
        reveal_with_fuel(sum_entries, 5);
    }
    assert forall|j: int| 0 <= j < 4 implies hessian_sum(x, j, 5) == x[0][j] * 8real + x[1][j]
        * 8real + x[2][j] * 8real + x[3][j] * 2real + x[4][j] * 2real by {
        reveal_with_fuel(hessian_sum, 6);
    }
}

/// From the fourth round on, the error of the reciprocal of `-1` is at most
/// `0.9986`.
proof fn lemma_error_small(rounds: nat)
    requires
        rounds >= 4,
    ensures
        0real <= reciprocal_error(-1real, rounds) <= 9986real / 10000real,
    decreases rounds,
{
    let a = -1real;
    if rounds == 4 {
        let e0 = reciprocal_error(a, 0);
        let e1 = reciprocal_error(a, 1);
        let e2 = reciprocal_error(a, 2);
        let e3 = reciprocal_error(a, 3);
        let e4 = reciprocal_error(a, 4);
        assert(e0 == 9999real / 10000real);
        lemma_newton_squares_error(a, 0);
        lemma_newton_squares_error(a, 1);
        lemma_newton_squares_error(a, 2);
        lemma_newton_squares_error(a, 3);
        assert(0real <= e1 <= 99981real / 100000real) by (nonlinear_arith)
            requires
                e1 == e0 * e0,
                e0 == 9999real / 10000real,
        ;
        assert(0real <= e2 <= 99963real / 100000real) by (nonlinear_arith)
            requires
                e2 == e1 * e1,
                0real <= e1 <= 99981real / 100000real,
        ;
        assert(0real <= e3 <= 99927real / 100000real) by (nonlinear_arith)
            requires
                e3 == e2 * e2,
                0real <= e2 <= 99963real / 100000real,
        ;
        assert(0real <= e4 <= 9986real / 10000real) by (nonlinear_arith)
            requires
                e4 == e3 * e3,
                0real <= e3 <= 99927real / 100000real,
        ;
    } else {
        lemma_error_small((rounds - 1) as nat);
        lemma_newton_converges(a, (rounds - 2) as nat);
        lemma_newton_converges(a, (rounds - 1) as nat);
        assert(reciprocal_error(a, rounds) <= reciprocal_error(a, (rounds - 1) as nat));
    }
}

/// The inverse Hessian approximation for `two_groups`, after at least four
/// rounds for each reciprocal: where its entries lie.
proof fn lemma_group_inverse(rounds: nat)
    requires
        rounds >= 4,
    ensures
        -1real <= reciprocal(-1real, rounds) <= -14real / 10000real,
        -1real / 24real <= reciprocal(-24real, rounds) < 0real,
{
    lemma_error_small(rounds);
    lemma_newton_converges(-24real, (rounds - 1) as nat);
}

/// The gradient for `two_groups` at the weights `beta`, written out.
proof fn lemma_group_gradient(beta: Seq<real>)
    requires
        beta.len() == 4,
    ensures
        gradient(two_groups(), two_labels(), beta).len() == 4,
        gradient(two_groups(), two_labels(), beta)[0] == -1real - (beta[0] + beta[1]) / 2real,
        gradient(two_groups(), two_labels(), beta)[1] == -1real - (beta[0] + beta[1]) / 2real,
        gradient(two_groups(), two_labels(), beta)[2] == 4real - 8real * (beta[2] + beta[3]),
        gradient(two_groups(), two_labels(), beta)[3] == 4real - 8real * (beta[2] + beta[3]),
{
    let x = two_groups();
    let y = two_labels();
    lemma_dot_of_four(first_group(), beta);
    lemma_dot_of_four(second_group(), beta);
    let first = gradient_weight(1real, dot_product(first_group(), beta));
    let second = gradient_weight(-1real, dot_product(second_group(), beta));
    let s1 = dot_product(first_group(), beta);
    let s2 = dot_product(second_group(), beta);
    assert(s1 == 4real * beta[2] + 4real * beta[3]);
    assert(s2 == beta[0] + beta[1]);
    assert(first == 1real / 2real - (beta[2] + beta[3])) by (nonlinear_arith)
        requires
            first == 1real * (1real / 2real - (1real / 4real) * 1real * s1),
            s1 == 4real * beta[2] + 4real * beta[3],
    ;
    assert(second == -1real / 2real - (beta[0] + beta[1]) / 4real) by (nonlinear_arith)
        requires
            second == (-1real) * (1real / 2real - (1real / 4real) * (-1real) * s2),
            s2 == beta[0] + beta[1],
    ;
    assert forall|j: int| 0 <= j < 4 implies gradient_entry(x, y, beta, j, 5) == x[1][j] * first
        + x[2][j] * first + x[3][j] * second + x[4][j] * second by {
        reveal_with_fuel(gradient_entry, 6);
    }
}

/// One round of training on `two_groups`, written out: each weight moves
/// by its entry of the gradient times its entry of the inverse Hessian
/// approximation.
proof fn lemma_group_round(beta: Seq<real>, rounds: nat)
    requires
        beta.len() == 4,
    ensures
        ({
            let g = gradient(two_groups(), two_labels(), beta);
            let next = newton_update(
                two_groups(),
                two_labels(),
                inverse_hessian(two_groups(), 4, rounds),
                beta,
            );
            &&& next.len() == 4
            &&& next[0] == beta[0] - reciprocal(-1real, rounds) * g[0]
            &&& next[1] == beta[1] - reciprocal(-1real, rounds) * g[1]
            &&& next[2] == beta[2] - reciprocal(-24real, rounds) * g[2]
            &&& next[3] == beta[3] - reciprocal(-24real, rounds) * g[3]
        }),
{
    let h = inverse_hessian(two_groups(), 4, rounds);
    let g = gradient(two_groups(), two_labels(), beta);
    lemma_group_hessian();
    lemma_group_gradient(beta);
    assert forall|j: int| 0 <= j < 4 implies dot_product(h[j], g) == h[j][j] * g[j] by {
        lemma_dot_of_four(h[j], g);
    }
}

/// Weights that tell the two groups apart: the first two are one negative
/// number, not below `-1`; the last two are one positive number, below
/// `1/4`.
pub open spec fn tells_apart(beta: Seq<real>) -> bool {
    &&& beta.len() == 4
    &&& -1real <= beta[0] < 0real
    &&& beta[1] == beta[0]
    &&& 0real < beta[2] < 1real / 4real
    &&& beta[3] == beta[2]
}

/// After every round of training on `two_groups`, the weights tell the two
/// groups apart.
pub proof fn lemma_group_trained(reciprocal_rounds: nat, rounds: nat)
    requires
        reciprocal_rounds >= 4,
        rounds >= 1,
    ensures
        tells_apart(model(two_groups(), two_labels(), 4, reciprocal_rounds, rounds)),
    decreases rounds,
{
    let x = two_groups();
    let y = two_labels();
    let h = inverse_hessian(x, 4, reciprocal_rounds);
    let before = trained(x, y, h, initial_weights(4), (rounds - 1) as nat);
    let next = trained(x, y, h, initial_weights(4), rounds);
    let h0 = reciprocal(-1real, reciprocal_rounds);
    let h2 = reciprocal(-24real, reciprocal_rounds);
    if rounds > 1 {
        lemma_group_trained(reciprocal_rounds, (rounds - 1) as nat);
    }
    lemma_group_round(before, reciprocal_rounds);
    lemma_group_gradient(before);
    lemma_group_inverse(reciprocal_rounds);
    let p = before[0];
    let q = before[2];
    let g0 = -1real - p;
    let g2 = 4real - 16real * q;
    assert(next[0] == p - h0 * g0 && next[1] == next[0]);
    assert(next[2] == q - h2 * g2 && next[3] == next[2]);
    if rounds == 1 {
        assert(-1real <= p - h0 * g0 < 0real) by (nonlinear_arith)
            requires
                p == 1real / 1000real,
                g0 == -1real - p,
                -1real <= h0 <= -14real / 10000real,
        ;
        assert(0real < q - h2 * g2 < 1real / 4real) by (nonlinear_arith)
            requires
                q == 1real / 1000real,
                g2 == 4real - 16real * q,
                -1real / 24real <= h2 < 0real,
        ;
    } else {
        assert(-1real <= p - h0 * g0 < 0real) by (nonlinear_arith)
            requires
                -1real <= p < 0real,
                g0 == -1real - p,
                -1real <= h0 <= -14real / 10000real,
        ;
        assert(0real < q - h2 * g2 < 1real / 4real) by (nonlinear_arith)
            requires
                0real < q < 1real / 4real,
                g2 == 4real - 16real * q,
                -1real / 24real <= h2 < 0real,
        ;
    }
}

/// Training on `two_groups` with their labels, with at least four rounds
/// for each reciprocal and at least one round of training, gives a model
/// under which every example of the training set is of the class that its
/// label names.
pub proof fn lemma_two_groups_are_told_apart(reciprocal_rounds: nat, rounds: nat)
    requires
        reciprocal_rounds >= 4,
        rounds >= 1,
    ensures
        forall|i: int|
            0 <= i < 5 ==> prediction(
                #[trigger] two_groups()[i],
                model(two_groups(), two_labels(), 4, reciprocal_rounds, rounds),
            ) == two_labels()[i],
{
    let beta = model(two_groups(), two_labels(), 4, reciprocal_rounds, rounds);
    lemma_group_trained(reciprocal_rounds, rounds);
    lemma_dot_of_four(first_group(), beta);
    lemma_dot_of_four(second_group(), beta);
}

/// Plain training on data that are `two_groups` with `two_labels`, and
/// then the classification of the same data under the weights that the
/// training left, gives every example the class that its label names: in
/// exact terms, the training set is recovered.
pub proof fn lemma_training_set_is_recovered(
    x: Seq<Vec<Decimal>>,
    y: Seq<Decimal>,
    weights: Seq<real>,
)
    requires
        decimal_grid(x) == two_groups(),
        decimal_values(y) == two_labels(),
        weights == model(
            decimal_grid(x),
            decimal_values(y),
            4,
            PLAIN_RECIPROCAL_ROUNDS as nat,
            PLAIN_ROUNDS as nat,
        ),
    ensures
        forall|i: int|
            0 <= i < 5 ==> prediction(
                #[trigger] padded_grid(x, 4)[i],
                model_inputs(weights, 4),
            ) == decimal_values(y)[i],
{
    lemma_group_trained(PLAIN_RECIPROCAL_ROUNDS as nat, PLAIN_ROUNDS as nat);
    lemma_two_groups_are_told_apart(PLAIN_RECIPROCAL_ROUNDS as nat, PLAIN_ROUNDS as nat);
    assert(model_inputs(weights, 4) =~= weights);
    assert(x.len() == 5);
    assert forall|i: int| 0 <= i < 5 implies #[trigger] padded_grid(x, 4)[i] == two_groups()[i] by {
        assert(decimal_grid(x)[i] == decimal_values(x[i]@));
        assert(x[i]@.len() == 4);
        assert(padded(x[i]@, 4) =~= x[i]@);
    }
}

} // verus!
