//! Classification: the program that scores examples against a model.
//!
//! The score of an example is the dot product of its features with the
//! weights of the model. The class is `+1` where `1/2 + score/4` is above
//! `1/2`, else `-1`. The weights are supplied when the program is run: weight
//! `j` is input `j`. An example with fewer features than the model has
//! weights is filled up with zeros.
use crate::algebra::{
    all_hold, arithmetic_from, computes, dot, dot_cost, dot_product, fold_products, grid_holds,
    grid_values, holds, is_arithmetic, lemma_grid_stable, lemma_values_stable, Domain,
    ShapeError,
};
use crate::clear::matrix::{decimal_grid, literal_grid, rectangular};
use crate::clear::vector::{decimal_values, PlainVector};
use crate::number::Decimal;
use crate::program::{bootstraps, value_at, values_at, Func, LinearPolicy, Op, Program};
use crate::reg::hessian::{row_total, sum_row};
use crate::reg::trainer::lemma_plain_costs_nothing;
use crate::zqz::cipherfloat::Cipherfloat;
use crate::zqz::keys::{cross_grid, cross_row, crossings, grid_crossings, Crossing};
use vstd::prelude::*;

verus! {

/// A program that classifies examples, and the registers in which a run
/// leaves the class of each.
#[derive(Debug)]
pub struct Classification {
    pub program: Program,
    pub predictions: PlainVector,
}

/// The first `dim` inputs of a run. An input that is not supplied counts as
/// zero.
pub open spec fn model_inputs(inputs: Seq<real>, dim: nat) -> Seq<real> {
    Seq::new(
        dim,
        |j: int|
            if j < inputs.len() {
                inputs[j]
            } else {
                0real
            },
    )
}

/// A row filled up with zeros to `dim` numbers.
pub open spec fn padded(row: Seq<Decimal>, dim: nat) -> Seq<Decimal> {
    Seq::new(
        dim,
        |j: int|
            if j < row.len() {
                row[j]
            } else {
                Decimal { negative: false, digits: 0, scale: 0 }
            },
    )
}

/// The rows of a grid, each filled up with zeros to `dim` numbers.
pub open spec fn padded_grid(x: Seq<Vec<Decimal>>, dim: nat) -> Seq<Seq<real>> {
    Seq::new(x.len(), |i: int| decimal_values(padded(x[i]@, dim)))
}

/// The class of an example with the features `row` under the weights `beta`.
pub open spec fn prediction(row: Seq<real>, beta: Seq<real>) -> real {
    Func::Decide.apply(dot_product(row, beta))
}

/// No row of the grid has more than `dim` numbers.
pub open spec fn rows_fit(x: Seq<Vec<Decimal>>, dim: int) -> bool {
    forall|i: int| 0 <= i < x.len() ==> (#[trigger] x[i])@.len() <= dim
}

/// What a program that classifies under encryption does once the numbers
/// are encrypted: arithmetic on ciphertexts, which decides each score by a
/// bootstrap; the decryption of a class; and the sign of a decrypted class.
pub open spec fn is_scoring(op: Op) -> bool {
    ||| is_arithmetic(op, Domain::Cipher)
    ||| op is Decrypt
    ||| op matches Op::Apply(_, f) && f == Func::Sign
}

/// Register `d` holds a score that was decided by a bootstrap: it is written
/// by the bootstrap through `Decide`, or by the keyswitch of what that
/// bootstrap left.
pub open spec fn decided_at(ops: Seq<Op>, d: int) -> bool {
    &&& 0 <= d < ops.len()
    &&& (ops[d] matches Op::Bootstrap(_, f, _) && f == Func::Decide) || (d >= 1 && ops[d]
        == Op::Keyswitch((d - 1) as usize) && (ops[d - 1] matches Op::Bootstrap(_, f, _) && f
        == Func::Decide))
}

/// Register `class` holds a class that was found under encryption: the sign
/// of the decryption of a decided score.
pub open spec fn is_class(ops: Seq<Op>, class: usize) -> bool {
    &&& 2 <= class < ops.len()
    &&& ops[class as int] == Op::Apply((class - 1) as usize, Func::Sign)
    &&& ops[class - 1] == Op::Decrypt((class - 2) as usize)
    &&& decided_at(ops, class - 2)
}

/// The program `new` follows `old`, and what it adds is arithmetic where
/// the domain is plain, and scoring where the domain is encrypted.
pub open spec fn classifies(new: Program, old: Program, domain: Domain) -> bool {
    &&& new.follows(old)
    &&& forall|r: int|
        old@.len() <= r < new@.len() ==> match domain {
            Domain::Plain => is_arithmetic(#[trigger] new@[r], Domain::Plain),
            Domain::Cipher => is_scoring(new@[r]),
        }
}

/// The rows of a grid, each filled up with zeros to `dim` numbers, or
/// nothing if a row has more.
pub fn pad_rows(x: &Vec<Vec<Decimal>>, dim: usize) -> (rows: Option<Vec<Vec<Decimal>>>)
    ensures
        match rows {
            Some(rows) => {
                &&& rows_fit(x@, dim as int)
                &&& rows@.len() == x@.len()
                &&& rectangular(rows@, dim as int)
                &&& decimal_grid(rows@) == padded_grid(x@, dim as nat)
            },
            None => !rows_fit(x@, dim as int),
        },
{
    let mut rows: Vec<Vec<Decimal>> = Vec::new();
    let mut i: usize = 0;
    while i < x.len()
        invariant
            i <= x@.len(),
            rows@.len() == i,
            forall|k: int| 0 <= k < i ==> (#[trigger] x@[k])@.len() <= dim,
            forall|k: int| 0 <= k < i ==> (#[trigger] rows@[k])@ == padded(x@[k]@, dim as nat),
        decreases x@.len() - i,
    {
        if x[i].len() > dim {
            return None;
        }
        let mut row: Vec<Decimal> = x[i].clone();
        while row.len() < dim
            invariant
                i < x@.len(),
                x@[i as int]@.len() <= row@.len() <= dim,
                forall|j: int|
                    0 <= j < row@.len() ==> #[trigger] row@[j] == padded(x@[i as int]@, dim as nat)[j],
            decreases dim - row@.len(),
        {
            row.push(Decimal::whole(false, 0));
        }
        rows.push(row);
        i = i + 1;
    }
    Some(rows)
}

/// The registers of the weights of a model: one for each of the first `dim`
/// inputs.
pub fn model_registers(program: &mut Program, dim: usize) -> (beta: Vec<usize>)
    requires
        old(program).wf(),
    ensures
        computes(*final(program), *old(program), Domain::Plain),
        beta@.len() == dim,
        all_hold(final(program)@, beta@, Domain::Plain),
        forall|inputs: Seq<real>| #[trigger]
            values_at(final(program)@, inputs, beta@) == model_inputs(inputs, dim as nat),
        bootstraps(final(program)@) == bootstraps(old(program)@),
{
    let ghost start = *program;
    let mut beta: Vec<usize> = Vec::new();
    let mut j: usize = 0;
    while j < dim
        invariant
            j <= dim,
            beta@.len() == j,
            bootstraps(program@) == bootstraps(start@),
            computes(*program, start, Domain::Plain),
            all_hold(program@, beta@, Domain::Plain),
            forall|inputs: Seq<real>, k: int|
                0 <= k < j ==> #[trigger] value_at(program@, inputs, beta@[k] as int)
                    == model_inputs(inputs, dim as nat)[k],
        decreases dim - j,
    {
        let r = program.emit(Op::Input(j));
        beta.push(r);
        j = j + 1;
    }
    beta
}

/// The bootstraps that the class of one example of `dim` features costs:
/// none on plain numbers; under encryption those of the score, and one to
/// decide it.
pub open spec fn score_cost(dim: nat, domain: Domain, program: Program) -> nat {
    match domain {
        Domain::Plain => 0,
        Domain::Cipher => dot_cost(dim, Domain::Cipher, program) + 1,
    }
}

/// The class of one example of plain numbers: its score, decided at once.
fn classify_plain_row(program: &mut Program, row: &Vec<usize>, beta: &Vec<usize>) -> (class: usize)
    requires
        old(program).wf(),
        row@.len() == beta@.len(),
        all_hold(old(program)@, row@, Domain::Plain),
        all_hold(old(program)@, beta@, Domain::Plain),
    ensures
        computes(*final(program), *old(program), Domain::Plain),
        final(program).holds_plain(class),
        forall|inputs: Seq<real>| #[trigger]
            value_at(final(program)@, inputs, class as int) == prediction(
                values_at(old(program)@, inputs, row@),
                values_at(old(program)@, inputs, beta@),
            ),
        bootstraps(final(program)@) == bootstraps(old(program)@),
{
    let zero = program.emit(Op::Literal(Decimal::whole(false, 0)));
    let ghost p1 = *program;
    let score = fold_products(program, row, beta, 0, zero, Domain::Plain);
    let class = program.emit(Op::Apply(score, Func::Decide));
    proof {
        assert(row@.len() * 0 == 0) by (nonlinear_arith);
        assert forall|inputs: Seq<real>| #[trigger]
            value_at(program@, inputs, class as int) == prediction(
                values_at(old(program)@, inputs, row@),
                values_at(old(program)@, inputs, beta@),
            ) by {
            lemma_values_stable(p1@, old(program)@, inputs, row@);
            lemma_values_stable(p1@, old(program)@, inputs, beta@);
        }
    }
    class
}

/// The class of one example of ciphertexts: its score is decided by one
/// bootstrap and decrypted, and the sign of what comes out is the class.
#[verifier::spinoff_prover]
#[verifier::rlimit(50)]
fn classify_cipher_row(program: &mut Program, row: &Vec<usize>, beta: &Vec<usize>) -> (class:
    usize)
    requires
        old(program).wf(),
        row@.len() == beta@.len(),
        row@.len() >= 1,
        all_hold(old(program)@, row@, Domain::Cipher),
        all_hold(old(program)@, beta@, Domain::Cipher),
    ensures
        classifies(*final(program), *old(program), Domain::Cipher),
        final(program).holds_plain(class),
        is_class(final(program)@, class),
        forall|inputs: Seq<real>| #[trigger]
            value_at(final(program)@, inputs, class as int) == prediction(
                values_at(old(program)@, inputs, row@),
                values_at(old(program)@, inputs, beta@),
            ),
        bootstraps(final(program)@) == bootstraps(old(program)@) + score_cost(
            row@.len(),
            Domain::Cipher,
            *old(program),
        ),
{
    let score = dot(program, row, beta, Domain::Cipher);
    let decided = Cipherfloat { register: score }.bs_ks(Func::Decide, program).register;
    let opened = program.emit(Op::Decrypt(decided));
    let class = program.emit(Op::Apply(opened, Func::Sign));
    class
}

/// The class of one example, as a plain number. On plain numbers the score
/// is decided at once. On ciphertexts the score is decided by one bootstrap
/// and decrypted, and the sign of what comes out is the class.
pub fn classify_row(program: &mut Program, row: &Vec<usize>, beta: &Vec<usize>, domain: Domain) -> (class:
    usize)
    requires
        old(program).wf(),
        row@.len() == beta@.len(),
        domain is Cipher ==> row@.len() >= 1,
        all_hold(old(program)@, row@, domain),
        all_hold(old(program)@, beta@, domain),
    ensures
        classifies(*final(program), *old(program), domain),
        final(program).holds_plain(class),
        domain is Cipher ==> is_class(final(program)@, class),
        forall|inputs: Seq<real>| #[trigger]
            value_at(final(program)@, inputs, class as int) == prediction(
                values_at(old(program)@, inputs, row@),
                values_at(old(program)@, inputs, beta@),
            ),
        bootstraps(final(program)@) == bootstraps(old(program)@) + score_cost(
            row@.len(),
            domain,
            *old(program),
        ),
{
    match domain {
        Domain::Plain => classify_plain_row(program, row, beta),
        Domain::Cipher => classify_cipher_row(program, row, beta),
    }
}

/// The class of every example of a grid.
pub fn classify_rows(
    program: &mut Program,
    x: &Vec<Vec<usize>>,
    beta: &Vec<usize>,
    domain: Domain,
) -> (classes: Vec<usize>)
    requires
        old(program).wf(),
        domain is Cipher ==> beta@.len() >= 1,
        grid_holds(old(program)@, x@, beta@.len() as int, domain),
        all_hold(old(program)@, beta@, domain),
    ensures
        classifies(*final(program), *old(program), domain),
        classes@.len() == x@.len(),
        all_hold(final(program)@, classes@, Domain::Plain),
        domain is Cipher ==> forall|i: int|
            0 <= i < classes@.len() ==> is_class(final(program)@, #[trigger] classes@[i]),
        forall|inputs: Seq<real>, i: int|
            0 <= i < x@.len() ==> #[trigger] value_at(final(program)@, inputs, classes@[i] as int)
                == prediction(
                grid_values(old(program)@, inputs, x@)[i],
                values_at(old(program)@, inputs, beta@),
            ),
        bootstraps(final(program)@) == bootstraps(old(program)@) + x@.len() * score_cost(
            beta@.len(),
            domain,
            *old(program),
        ),
{
    let ghost start = *program;
    let ghost width = beta@.len() as int;
    let ghost cost = score_cost(beta@.len(), domain, start);
    let mut classes: Vec<usize> = Vec::new();
    let mut i: usize = 0;
    while i < x.len()
        invariant
            i <= x@.len(),
            classes@.len() == i,
            width == beta@.len(),
            domain is Cipher ==> width >= 1,
            start.wf(),
            cost == score_cost(beta@.len(), domain, start),
            bootstraps(program@) == bootstraps(start@) + i * cost,
            classifies(*program, start, domain),
            grid_holds(start@, x@, width, domain),
            all_hold(start@, beta@, domain),
            all_hold(program@, classes@, Domain::Plain),
            domain is Cipher ==> forall|k: int|
                0 <= k < i ==> is_class(program@, #[trigger] classes@[k]),
            forall|inputs: Seq<real>, k: int|
                0 <= k < i ==> #[trigger] value_at(program@, inputs, classes@[k] as int)
                    == prediction(
                    grid_values(start@, inputs, x@)[k],
                    values_at(start@, inputs, beta@),
                ),
        decreases x@.len() - i,
    {
        let ghost before = *program;
        let class = classify_row(program, &x[i], beta, domain);
        classes.push(class);
        proof {
            assert((i + 1) * cost == i * cost + cost) by (nonlinear_arith);
            assert forall|inputs: Seq<real>, k: int| 0 <= k < i + 1 implies #[trigger] value_at(
                program@,
                inputs,
                classes@[k] as int,
            ) == prediction(
                grid_values(start@, inputs, x@)[k],
                values_at(start@, inputs, beta@),
            ) by {
                if k >= i {
                    lemma_grid_stable(before@, start@, inputs, x@, width, domain);
                    lemma_values_stable(before@, start@, inputs, beta@);
                }
            }
        }
        i = i + 1;
    }
    classes
}

/// Whether examples can be classified, and if not, why: there is at least
/// one, and none has more features than the model has weights.
pub open spec fn classifiable(x: Seq<Vec<Decimal>>, dim: nat) -> Result<(), ShapeError> {
    if x.len() == 0 {
        Err(ShapeError::Empty)
    } else if !rows_fit(x, dim as int) {
        Err(ShapeError::DimensionMismatch)
    } else {
        Ok(())
    }
}

/// The program that classifies the examples `x` on plain numbers, under a
/// model of `model_len` weights. Examples that are not `classifiable` are
/// refused.
pub fn classify_data_plain(x: &Vec<Vec<Decimal>>, model_len: usize) -> (classification: Result<
    Classification,
    ShapeError,
>)
    ensures
        match classification {
            Ok(c) => {
                &&& classifiable(x@, model_len as nat) is Ok
                &&& c.program.wf()
                &&& c.predictions.within(c.program)
                &&& c.predictions.dim == x@.len()
                &&& arithmetic_from(c.program@, 0, Domain::Plain)
                &&& bootstraps(c.program@) == 0
                &&& forall|inputs: Seq<real>, i: int|
                    0 <= i < x@.len() ==> #[trigger] value_at(
                        c.program@,
                        inputs,
                        c.predictions.plainvector@[i] as int,
                    ) == prediction(
                        padded_grid(x@, model_len as nat)[i],
                        model_inputs(inputs, model_len as nat),
                    )
            },
            Err(e) => classifiable(x@, model_len as nat) == Err::<(), ShapeError>(e),
        },
{
    if x.len() == 0 {
        return Err(ShapeError::Empty);
    }
    let rows = match pad_rows(x, model_len) {
        Some(rows) => rows,
        None => {
            return Err(ShapeError::DimensionMismatch);
        },
    };
    let mut program = Program::new(LinearPolicy::Noiseless, false);
    let px = literal_grid(&mut program, &rows, model_len);
    let ghost p1 = program;
    let beta = model_registers(&mut program, model_len);
    let ghost p2 = program;
    let classes = classify_rows(&mut program, &px, &beta, Domain::Plain);
    proof {
        assert forall|inputs: Seq<real>, i: int| 0 <= i < x@.len() implies #[trigger] value_at(
            program@,
            inputs,
            classes@[i] as int,
        ) == prediction(
            padded_grid(x@, model_len as nat)[i],
            model_inputs(inputs, model_len as nat),
        ) by {
            lemma_grid_stable(p2@, p1@, inputs, px@, model_len as int, Domain::Plain);
        }
    }
    proof {
        lemma_plain_costs_nothing(program@);
    }
    let n = x.len();
    Ok(Classification { program, predictions: PlainVector { plainvector: classes, dim: n } })
}

/// Whether examples can be classified under encryption, and if not, why: as
/// `classifiable`, and the model has at least one weight.
pub open spec fn classifiable_fhe(x: Seq<Vec<Decimal>>, dim: nat) -> Result<(), ShapeError> {
    if x.len() == 0 || dim == 0 {
        Err(ShapeError::Empty)
    } else if !rows_fit(x, dim as int) {
        Err(ShapeError::DimensionMismatch)
    } else {
        Ok(())
    }
}

/// The range of the encoding for a model with the weights `beta`: the
/// magnitude of the floor of their sum.
pub open spec fn encoding_limit(beta: Seq<real>) -> real {
    Func::FloorMagnitude.apply(row_total(beta))
}

/// The shape of a program that classifies under encryption. Up to
/// `encrypted_from` everything is arithmetic on plain numbers. Up to
/// `scored_from` the numbers in the registers `examples`, row by row, and
/// then those in the registers `weights` are encrypted, and nothing else,
/// each over the range from minus to plus the `encoding_limit` of the
/// model. What follows scores the ciphertexts.
pub open spec fn encrypts_then_scores(
    ops: Seq<Op>,
    encrypted_from: int,
    scored_from: int,
    how: Crossing,
    dim: nat,
    examples: Seq<Vec<usize>>,
    weights: Seq<usize>,
) -> bool {
    &&& 0 <= encrypted_from <= scored_from <= ops.len()
    &&& how matches Crossing::Encrypt { min, max, .. } && (forall|inputs: Seq<real>| #[trigger]
        value_at(ops, inputs, max as int) == encoding_limit(model_inputs(inputs, dim)))
        && (forall|inputs: Seq<real>| #[trigger]
        value_at(ops, inputs, min as int) == encoding_limit(model_inputs(inputs, dim)) * (
        -1real))
    &&& forall|r: int|
        0 <= r < encrypted_from ==> is_arithmetic(#[trigger] ops[r], Domain::Plain)
    &&& ops.subrange(encrypted_from, scored_from) == grid_crossings(examples, how) + crossings(
        weights,
        how,
    )
    &&& forall|r: int| scored_from <= r < ops.len() ==> is_scoring(#[trigger] ops[r])
}

/// The program that classifies the examples `x` under encryption, under a
/// model of `model_len` weights. The range of the encoding reaches from
/// minus to plus the magnitude of the floor of the sum of the weights. The
/// examples and the weights are encrypted over it with the given bits, each
/// score is decided by one bootstrap, and each class is decrypted. The
/// program is begun with the policy for sums and differences and with or
/// without keyswitching, as asked. Examples that are not `classifiable_fhe`
/// are refused.
pub fn classify_data_fhe(
    x: &Vec<Vec<Decimal>>,
    model_len: usize,
    policy: LinearPolicy,
    with_ks: bool,
    nb_bit_precision: usize,
    nb_bit_padding: usize,
) -> (classification: Result<Classification, ShapeError>)
    ensures
        match classification {
            Ok(c) => {
                &&& classifiable_fhe(x@, model_len as nat) is Ok
                &&& c.program.wf()
                &&& c.program.linear_policy() == policy
                &&& c.program.keyswitching() == with_ks
                &&& bootstraps(c.program@) == x@.len() * score_cost(
                    model_len as nat,
                    Domain::Cipher,
                    c.program,
                )
                &&& c.predictions.within(c.program)
                &&& c.predictions.dim == x@.len()
                &&& exists|
                    encrypted_from: int,
                    scored_from: int,
                    min: usize,
                    max: usize,
                    examples: Seq<Vec<usize>>,
                    weights: Seq<usize>,
                |
                    {
                        &&& #[trigger] encrypts_then_scores(
                            c.program@,
                            encrypted_from,
                            scored_from,
                            Crossing::Encrypt {
                                min,
                                max,
                                precision_bits: nb_bit_precision,
                                padding_bits: nb_bit_padding,
                            },
                            model_len as nat,
                            examples,
                            weights,
                        )
                        &&& forall|inputs: Seq<real>| #[trigger]
                            grid_values(c.program@, inputs, examples) == padded_grid(
                                x@,
                                model_len as nat,
                            )
                        &&& forall|inputs: Seq<real>| #[trigger]
                            values_at(c.program@, inputs, weights) == model_inputs(
                                inputs,
                                model_len as nat,
                            )
                    }
                &&& forall|i: int|
                    0 <= i < x@.len() ==> is_class(
                        c.program@,
                        #[trigger] c.predictions.plainvector@[i],
                    )
                &&& forall|inputs: Seq<real>, i: int|
                    0 <= i < x@.len() ==> #[trigger] value_at(
                        c.program@,
                        inputs,
                        c.predictions.plainvector@[i] as int,
                    ) == prediction(
                        padded_grid(x@, model_len as nat)[i],
                        model_inputs(inputs, model_len as nat),
                    )
            },
            Err(e) => classifiable_fhe(x@, model_len as nat) == Err::<(), ShapeError>(e),
        },
{
    if x.len() == 0 || model_len == 0 {
        return Err(ShapeError::Empty);
    }
    let rows = match pad_rows(x, model_len) {
        Some(rows) => rows,
        None => {
            return Err(ShapeError::DimensionMismatch);
        },
    };
    let mut program = Program::new(policy, with_ks);
    let beta = model_registers(&mut program, model_len);
    let ghost p1 = program;
    let zero = program.emit(Op::Literal(Decimal::whole(false, 0)));
    let ghost p2 = program;
    let total = sum_row(&mut program, &beta, zero);
    let max = program.emit(Op::Apply(total, Func::FloorMagnitude));
    let minus = program.emit(Op::Literal(Decimal::whole(true, 1)));
    let min = program.emit(Op::Mul(max, minus));
    let px = literal_grid(&mut program, &rows, model_len);
    let ghost p4 = program;
    let how = Crossing::Encrypt {
        min,
        max,
        precision_bits: nb_bit_precision,
        padding_bits: nb_bit_padding,
    };
    let e_x = cross_grid(&mut program, &px, model_len, how);
    let ghost p5 = program;
    let e_beta = cross_row(&mut program, &beta, how);
    let ghost p6 = program;
    let classes = classify_rows(&mut program, &e_x, &e_beta, Domain::Cipher);
    proof {
        let limit = |inputs: Seq<real>| encoding_limit(model_inputs(inputs, model_len as nat));
        assert forall|inputs: Seq<real>| #[trigger]
            value_at(program@, inputs, max as int) == limit(inputs) by {
            lemma_values_stable(p2@, p1@, inputs, beta@);
        }
        assert forall|inputs: Seq<real>| #[trigger]
            value_at(program@, inputs, min as int) == limit(inputs) * (-1real) by {
            lemma_values_stable(p2@, p1@, inputs, beta@);
        }
        let from = p4@.len() as int;
        let scored = p6@.len() as int;
        assert(program@.subrange(from, scored) =~= grid_crossings(px@, how) + crossings(
            beta@,
            how,
        ));
        assert(encrypts_then_scores(program@, from, scored, how, model_len as nat, px@, beta@));
        assert forall|inputs: Seq<real>| #[trigger]
            grid_values(program@, inputs, px@) == padded_grid(x@, model_len as nat) by {
            lemma_grid_stable(program@, p4@, inputs, px@, model_len as int, Domain::Plain);
        }
        assert forall|inputs: Seq<real>| #[trigger]
            values_at(program@, inputs, beta@) == model_inputs(inputs, model_len as nat) by {
            lemma_values_stable(program@, p1@, inputs, beta@);
        }
        assert forall|inputs: Seq<real>, i: int| 0 <= i < x@.len() implies #[trigger] value_at(
            program@,
            inputs,
            classes@[i] as int,
        ) == prediction(
            padded_grid(x@, model_len as nat)[i],
            model_inputs(inputs, model_len as nat),
        ) by {
            lemma_grid_stable(p6@, p5@, inputs, e_x@, model_len as int, Domain::Cipher);
            lemma_values_stable(p5@, p1@, inputs, beta@);
        }
    }
    let n = x.len();
    Ok(Classification { program, predictions: PlainVector { plainvector: classes, dim: n } })
}

} // verus!
