use fhe_regression::algebra::ShapeError;
use fhe_regression::clear::matrix::PlainMatrix;
use fhe_regression::clear::vector::PlainVector;
use fhe_regression::number::Decimal;
use fhe_regression::program::{Func, LinearPolicy, Op, Program};
use fhe_regression::reg::classifier::{classify_data_fhe, classify_data_plain};
use fhe_regression::reg::hessian::reciprocal_register;
use fhe_regression::reg::trainer::{train_data_fhe, train_data_plain};
use fhe_regression::reg::utils::parse_data_file;
use fhe_regression::zqz::cipherfloat::Cipherfloat;
use fhe_regression::zqz::keys::EncryptKey;
use fhe_regression::zqz::matrix::CipherMatrix;
use fhe_regression::zqz::vector::CipherVector;

fn float(d: &Decimal) -> f64 {
    let sign = if d.negative { "-" } else { "" };
    format!("{}{}e{}", sign, d.digits, -(d.scale as i64)).parse().unwrap()
}

fn apply(f: Func, x: f64) -> f64 {
    match f {
        Func::Identity => x,
        Func::QuarterSquare => x * x / 4.0,
        Func::Scale(k) => x * float(&k),
        Func::Decide => {
            if 0.5 + 0.25 * x > 0.5 {
                1.0
            } else {
                -1.0
            }
        }
        Func::Seed => {
            if x > 0.0 {
                0.0001
            } else {
                -0.0001
            }
        }
        Func::FloorMagnitude => x.floor().abs(),
        Func::Sign => {
            if x > 0.0 {
                1.0
            } else {
                -1.0
            }
        }
    }
}

/// Runs a program in floating point, every operation as what it stands for.
fn run(program: &Program, inputs: &[f64]) -> Vec<f64> {
    let mut registers: Vec<f64> = Vec::new();
    for r in 0..program.len() {
        let value = match program.op(r) {
            Op::Literal(d) => float(&d),
            Op::Input(k) => inputs.get(k).copied().unwrap_or(0.0),
            Op::Add(a, b) => registers[a] + registers[b],
            Op::Sub(a, b) => registers[a] - registers[b],
            Op::Mul(a, b) => registers[a] * registers[b],
            Op::Apply(a, f) => apply(f, registers[a]),
            Op::Encrypt { source, .. } => registers[source],
            Op::Decrypt(a) => registers[a],
            Op::AddExact(a, b) => registers[a] + registers[b],
            Op::SubExact(a, b) => registers[a] - registers[b],
            Op::AddConstant(a, k) => registers[a] + float(&k),
            Op::Bootstrap(a, f, _) => apply(f, registers[a]),
            Op::Keyswitch(a) => registers[a],
        };
        registers.push(value);
    }
    registers
}

fn keyswitches(program: &Program) -> usize {
    (0..program.len()).filter(|&r| matches!(program.op(r), Op::Keyswitch(_))).count()
}

fn bootstraps(program: &Program) -> usize {
    (0..program.len()).filter(|&r| matches!(program.op(r), Op::Bootstrap(_, _, _))).count()
}

fn plain_products(program: &Program) -> usize {
    (0..program.len()).filter(|&r| matches!(program.op(r), Op::Mul(_, _))).count()
}

fn whole(n: i64) -> Decimal {
    Decimal::whole(n < 0, n.unsigned_abs())
}

fn wholes(row: &[i64]) -> Vec<Decimal> {
    row.iter().map(|&n| whole(n)).collect()
}

fn grid(rows: &[Vec<i64>]) -> Vec<Vec<Decimal>> {
    rows.iter().map(|row| wholes(row)).collect()
}

/// A program with the range of an encoding in its first two registers.
fn begin(policy: LinearPolicy) -> (Program, usize, usize) {
    let mut program = Program::new(policy, false);
    let min = program.emit(Op::Literal(whole(-60)));
    let max = program.emit(Op::Literal(whole(60)));
    (program, min, max)
}

fn cipher(program: &mut Program, n: i64, min: usize, max: usize) -> Cipherfloat {
    let message = program.emit(Op::Literal(whole(n)));
    EncryptKey {}.encrypt_float(message, min, max, 6, 2, program)
}

fn cipher_vector(program: &mut Program, row: &[i64], min: usize, max: usize) -> CipherVector {
    let plain = PlainVector::new(&wholes(row), program);
    EncryptKey {}.encrypt_vector(&plain, min, max, 6, 2, program)
}

fn cipher_matrix(program: &mut Program, rows: &[Vec<i64>], min: usize, max: usize) -> CipherMatrix {
    let plain = PlainMatrix::new(&grid(rows), program).ok().unwrap();
    EncryptKey {}.encrypt_matrix(&plain, min, max, 6, 2, program)
}

fn at(values: &[f64], registers: &[usize]) -> Vec<f64> {
    registers.iter().map(|&r| values[r]).collect()
}

#[test]
fn an_operation_is_added_at_the_end() {
    let mut program = Program::new(LinearPolicy::Noiseless, false);
    assert_eq!(program.len(), 0);
    let a = program.emit(Op::Literal(whole(3)));
    let b = program.emit(Op::Input(0));
    let c = program.emit(Op::Add(a, b));
    assert_eq!((a, b, c), (0, 1, 2));
    assert_eq!(program.len(), 3);
    assert!(matches!(program.op(2), Op::Add(0, 1)));
    assert!(matches!(program.policy(), LinearPolicy::Noiseless));
    assert_eq!(run(&program, &[4.0])[c], 7.0);
    assert_eq!(run(&program, &[])[c], 3.0);
    assert!(program.admits(Op::Mul(a, c)));
    assert!(!program.admits(Op::Mul(a, 3)));
    assert!(!program.admits(Op::Decrypt(a)));
    assert!(!program.admits(Op::AddExact(a, b)));
    assert!(program.is_plain(c));
    assert!(!program.is_plain(3));
}

#[test]
fn registers_know_what_they_hold() {
    let (mut program, min, max) = begin(LinearPolicy::Noiseless);
    let c = cipher(&mut program, 5, min, max);
    assert!(!program.is_cipher(min));
    assert!(program.is_cipher(c.register));
    assert!(!program.is_cipher(program.len()));
    let opened = EncryptKey {}.decrypt_float(&c, &mut program);
    assert!(!program.is_cipher(opened));
    assert!(matches!(
        program.op(c.register),
        Op::Encrypt { source: 2, min: 0, max: 1, precision_bits: 6, padding_bits: 2 }
    ));
    assert_eq!(run(&program, &[])[opened], 5.0);
}

#[test]
fn sums_and_differences_are_exact_without_a_bootstrap() {
    let (mut program, min, max) = begin(LinearPolicy::Noiseless);
    let a = cipher(&mut program, 7, min, max);
    let b = cipher(&mut program, -3, min, max);
    let sum = a.add(&b, &mut program);
    let difference = a.sub(&b, &mut program);
    let shifted = a.add_constant(Decimal::new(false, 5, 1), &mut program);
    let lowered = a.sub_constant(Decimal::new(false, 5, 1), &mut program);
    let values = run(&program, &[]);
    assert_eq!(values[sum.register], 4.0);
    assert_eq!(values[difference.register], 10.0);
    assert_eq!(values[shifted.register], 7.5);
    assert_eq!(values[lowered.register], 6.5);
    assert_eq!(bootstraps(&program), 0);
    assert!(matches!(program.op(sum.register), Op::AddExact(_, _)));
    assert!(matches!(program.op(difference.register), Op::SubExact(_, _)));
}

#[test]
fn refreshed_sums_and_differences_cost_one_bootstrap_each() {
    let (mut program, min, max) = begin(LinearPolicy::BootstrapRefreshed);
    let a = cipher(&mut program, 7, min, max);
    let b = cipher(&mut program, -3, min, max);
    let sum = a.add(&b, &mut program);
    assert_eq!(bootstraps(&program), 1);
    let difference = a.sub(&b, &mut program);
    assert_eq!(bootstraps(&program), 2);
    a.add_constant(whole(1), &mut program);
    assert_eq!(bootstraps(&program), 2);
    let values = run(&program, &[]);
    assert_eq!(values[sum.register], 4.0);
    assert_eq!(values[difference.register], 10.0);
    assert!(matches!(program.op(sum.register), Op::Bootstrap(_, Func::Identity, _)));
    if let Op::Bootstrap(source, _, like) = program.op(sum.register) {
        assert_eq!((source, like), (sum.register - 1, a.register));
    }
    if let Op::Bootstrap(source, _, like) = program.op(difference.register) {
        assert_eq!((source, like), (difference.register - 1, a.register));
    }
    let image = b.bs_ks(Func::QuarterSquare, &mut program);
    if let Op::Bootstrap(source, _, like) = program.op(image.register) {
        assert_eq!((source, like), (b.register, b.register));
    }
    let other = b.bootstrap(Func::QuarterSquare, &sum, &mut program);
    if let Op::Bootstrap(source, _, like) = program.op(other.register) {
        assert_eq!((source, like), (b.register, sum.register));
    }
    assert!(!program.admits(Op::Bootstrap(b.register, Func::Identity, min)));
    assert!(!program.admits(Op::Bootstrap(b.register, Func::Identity, program.len())));
    assert!(program.admits(Op::Bootstrap(b.register, Func::Identity, a.register)));
}

#[test]
fn a_product_is_two_bootstraps_and_no_plain_product() {
    let (mut program, min, max) = begin(LinearPolicy::Noiseless);
    let a = cipher(&mut program, 6, min, max);
    let b = cipher(&mut program, -4, min, max);
    let product = a.mul(&b, &mut program);
    assert_eq!(run(&program, &[])[product.register], -24.0);
    assert_eq!(bootstraps(&program), 2);
    assert_eq!(plain_products(&program), 0);
    let (mut program, min, max) = begin(LinearPolicy::BootstrapRefreshed);
    let a = cipher(&mut program, 6, min, max);
    let b = cipher(&mut program, -4, min, max);
    let product = a.mul(&b, &mut program);
    assert_eq!(run(&program, &[])[product.register], -24.0);
    assert_eq!(bootstraps(&program), 3);
}

#[test]
fn with_keyswitching_every_bootstrap_is_followed_by_a_keyswitch() {
    let mut program = Program::new(LinearPolicy::BootstrapRefreshed, true);
    assert!(program.with_ks());
    let min = program.emit(Op::Literal(whole(-60)));
    let max = program.emit(Op::Literal(whole(60)));
    let a = cipher(&mut program, 6, min, max);
    let b = cipher(&mut program, -4, min, max);
    let first = program.len();
    let product = a.mul(&b, &mut program);
    assert_eq!(program.len(), first + 9);
    assert_eq!(product.register, first + 8);
    assert!(matches!(program.op(first), Op::AddExact(_, _)));
    assert!(matches!(program.op(first + 1), Op::SubExact(_, _)));
    assert!(matches!(program.op(first + 2), Op::Bootstrap(_, Func::QuarterSquare, _)));
    assert!(matches!(program.op(first + 3), Op::Keyswitch(_)));
    assert!(matches!(program.op(first + 4), Op::Bootstrap(_, Func::QuarterSquare, _)));
    assert!(matches!(program.op(first + 5), Op::Keyswitch(_)));
    assert!(matches!(program.op(first + 6), Op::SubExact(_, _)));
    assert!(matches!(program.op(first + 7), Op::Bootstrap(_, Func::Identity, _)));
    assert!(matches!(program.op(first + 8), Op::Keyswitch(_)));
    if let Op::SubExact(x, y) = program.op(first + 6) {
        assert_eq!((x, y), (first + 3, first + 5));
    }
    for (r, read) in [(first + 2, first), (first + 4, first + 1), (first + 7, first + 6)] {
        if let Op::Bootstrap(source, _, like) = program.op(r) {
            assert_eq!((source, like), (read, a.register));
        }
    }
    assert_eq!(run(&program, &[])[product.register], -24.0);
    assert_eq!(bootstraps(&program), 3);
    assert_eq!(keyswitches(&program), 3);
    let scaled = a.mul_constant(whole(2), &mut program);
    assert!(matches!(program.op(scaled.register), Op::Keyswitch(_)));
    assert_eq!(run(&program, &[])[scaled.register], 12.0);
    let (x, y) = scenario();
    let with = train_data_fhe(&x, &y, LinearPolicy::Noiseless, true, 6, 2).ok().unwrap();
    let without = train_data_fhe(&x, &y, LinearPolicy::Noiseless, false, 6, 2).ok().unwrap();
    assert_eq!(keyswitches(&with.program), bootstraps(&with.program));
    assert_eq!(keyswitches(&without.program), 0);
    assert_eq!(bootstraps(&with.program), bootstraps(&without.program));
    assert_eq!(
        at(&run(&with.program, &[]), &with.weights.plainvector),
        at(&run(&without.program, &[]), &without.weights.plainvector)
    );
    let classes = classify_data_fhe(&x, 4, LinearPolicy::Noiseless, true, 6, 2).ok().unwrap();
    assert_eq!(keyswitches(&classes.program), bootstraps(&classes.program));
    for &r in &classes.predictions.plainvector {
        assert!(matches!(classes.program.op(r - 2), Op::Keyswitch(_)));
        assert!(matches!(classes.program.op(r - 3), Op::Bootstrap(_, Func::Decide, _)));
    }
}

#[test]
fn a_product_is_a_difference_of_squares() {
    for a in -12i64..=12 {
        for b in -12i64..=12 {
            let (x, y) = (a as f64, b as f64);
            assert_eq!(((x + y) * (x + y) - (x - y) * (x - y)) / 4.0, x * y);
            let (mut program, min, max) = begin(LinearPolicy::Noiseless);
            let ca = cipher(&mut program, a, min, max);
            let cb = cipher(&mut program, b, min, max);
            let product = ca.mul(&cb, &mut program);
            assert_eq!(run(&program, &[])[product.register], x * y);
        }
    }
}

#[test]
fn a_product_with_a_constant_is_one_bootstrap() {
    let (mut program, min, max) = begin(LinearPolicy::Noiseless);
    let a = cipher(&mut program, 8, min, max);
    let scaled = a.mul_constant(Decimal::new(true, 25, 2), &mut program);
    let squared = a.bs_ks(Func::QuarterSquare, &mut program);
    let values = run(&program, &[]);
    assert_eq!(values[scaled.register], -2.0);
    assert_eq!(values[squared.register], 16.0);
    assert_eq!(bootstraps(&program), 2);
    assert!(matches!(program.op(scaled.register), Op::Bootstrap(_, Func::Scale(_), _)));
}

#[test]
fn functions_are_what_they_say() {
    assert_eq!(apply(Func::Decide, 0.0), -1.0);
    let mut program = Program::new(LinearPolicy::Noiseless, false);
    let x = program.emit(Op::Input(0));
    let decided = program.emit(Op::Apply(x, Func::Decide));
    let seed = program.emit(Op::Apply(x, Func::Seed));
    let limit = program.emit(Op::Apply(x, Func::FloorMagnitude));
    let sign = program.emit(Op::Apply(x, Func::Sign));
    let values = run(&program, &[-2.5]);
    assert_eq!(at(&values, &[decided, seed, limit, sign]), vec![-1.0, -0.0001, 3.0, -1.0]);
    let values = run(&program, &[2.5]);
    assert_eq!(at(&values, &[decided, seed, limit, sign]), vec![1.0, 0.0001, 2.0, 1.0]);
    let values = run(&program, &[0.0]);
    assert_eq!(at(&values, &[decided, seed, limit, sign]), vec![-1.0, -0.0001, 0.0, -1.0]);
}

#[test]
fn encrypted_vectors_add_and_subtract_entry_by_entry() {
    let (mut program, min, max) = begin(LinearPolicy::Noiseless);
    let u = cipher_vector(&mut program, &[1, 2, 3], min, max);
    let v = cipher_vector(&mut program, &[10, 20, 30], min, max);
    let s = cipher(&mut program, 5, min, max);
    let sum = u.add(&v, &mut program).ok().unwrap();
    let difference = u.sub(&v, &mut program).ok().unwrap();
    let raised = u.add_scalar(&s, &mut program);
    let lowered = u.sub_scalar(&s, &mut program);
    let scaled = u.mul_scalar(&s, &mut program);
    let shifted = u.add_constant(whole(1), &mut program);
    let dropped = u.sub_constant(whole(1), &mut program);
    let doubled = u.mul_constant(whole(2), &mut program);
    let values = run(&program, &[]);
    assert_eq!(sum.dim, 3);
    assert_eq!(at(&values, &sum.ciphervector), vec![11.0, 22.0, 33.0]);
    assert_eq!(at(&values, &difference.ciphervector), vec![-9.0, -18.0, -27.0]);
    assert_eq!(at(&values, &raised.ciphervector), vec![6.0, 7.0, 8.0]);
    assert_eq!(at(&values, &lowered.ciphervector), vec![-4.0, -3.0, -2.0]);
    assert_eq!(at(&values, &scaled.ciphervector), vec![5.0, 10.0, 15.0]);
    assert_eq!(at(&values, &shifted.ciphervector), vec![2.0, 3.0, 4.0]);
    assert_eq!(at(&values, &dropped.ciphervector), vec![0.0, 1.0, 2.0]);
    assert_eq!(at(&values, &doubled.ciphervector), vec![2.0, 4.0, 6.0]);
    assert_eq!(bootstraps(&program), 3 * 2 + 3);
    assert_eq!(u.get(1).register, u.ciphervector[1]);
}

#[test]
fn vectors_of_different_dimensions_are_refused() {
    let (mut program, min, max) = begin(LinearPolicy::Noiseless);
    let u = cipher_vector(&mut program, &[1, 2, 3], min, max);
    let v = cipher_vector(&mut program, &[1, 2], min, max);
    let empty = cipher_vector(&mut program, &[], min, max);
    let before = program.len();
    assert_eq!(u.add(&v, &mut program).err(), Some(ShapeError::DimensionMismatch));
    assert_eq!(u.sub(&v, &mut program).err(), Some(ShapeError::DimensionMismatch));
    assert_eq!(u.mul(&v, &mut program).err(), Some(ShapeError::DimensionMismatch));
    assert_eq!(empty.mul(&empty, &mut program).err(), Some(ShapeError::Empty));
    assert_eq!(program.len(), before);
    let p = PlainVector::new(&wholes(&[1, 2, 3]), &mut program);
    let q = PlainVector::new(&wholes(&[1, 2]), &mut program);
    let before = program.len();
    assert_eq!(p.add(&q, &mut program).err(), Some(ShapeError::DimensionMismatch));
    assert_eq!(p.sub(&q, &mut program).err(), Some(ShapeError::DimensionMismatch));
    assert_eq!(p.mul(&q, &mut program).err(), Some(ShapeError::DimensionMismatch));
    assert_eq!(program.len(), before);
}

#[test]
fn encrypted_dot_product_matches_the_plain_one() {
    let (mut program, min, max) = begin(LinearPolicy::Noiseless);
    let u = cipher_vector(&mut program, &[1, -2, 3, 4], min, max);
    let v = cipher_vector(&mut program, &[5, 6, -7, 8], min, max);
    let before = bootstraps(&program);
    let encrypted = u.mul(&v, &mut program).ok().unwrap();
    assert_eq!(bootstraps(&program) - before, 2 * 4);
    assert_eq!(plain_products(&program), 0);
    let opened = EncryptKey {}.decrypt_float(&encrypted, &mut program);
    let p = PlainVector::new(&wholes(&[1, -2, 3, 4]), &mut program);
    let q = PlainVector::new(&wholes(&[5, 6, -7, 8]), &mut program);
    let plain = p.mul(&q, &mut program).ok().unwrap();
    let values = run(&program, &[]);
    assert_eq!(values[plain], 5.0 - 12.0 - 21.0 + 32.0);
    assert_eq!(values[opened], values[plain]);
}

#[test]
fn a_refreshed_dot_product_costs_more() {
    let (mut program, min, max) = begin(LinearPolicy::BootstrapRefreshed);
    let u = cipher_vector(&mut program, &[1, -2, 3, 4], min, max);
    let v = cipher_vector(&mut program, &[5, 6, -7, 8], min, max);
    let product = u.mul(&v, &mut program).ok().unwrap();
    assert_eq!(bootstraps(&program), 3 * 4 + 3);
    assert_eq!(run(&program, &[])[product.register], 4.0);
}

#[test]
fn the_dot_product_of_empty_plain_vectors_is_zero() {
    let mut program = Program::new(LinearPolicy::Noiseless, false);
    let p = PlainVector::new(&Vec::new(), &mut program);
    let r = p.mul(&p, &mut program).ok().unwrap();
    assert_eq!(run(&program, &[])[r], 0.0);
}

#[test]
fn plain_vectors_have_the_same_operations() {
    let mut program = Program::new(LinearPolicy::Noiseless, false);
    let u = PlainVector::new(&wholes(&[1, 2, 3]), &mut program);
    let v = PlainVector::new(&wholes(&[10, 20, 30]), &mut program);
    let sum = u.add(&v, &mut program).ok().unwrap();
    let difference = u.sub(&v, &mut program).ok().unwrap();
    let shifted = u.add_constant(Decimal::new(false, 5, 1), &mut program);
    let dropped = u.sub_constant(Decimal::new(false, 5, 1), &mut program);
    let halved = u.mul_constant(Decimal::new(false, 5, 1), &mut program);
    let scaled = u.mul_scalar(v.get(0), &mut program);
    let values = run(&program, &[]);
    assert_eq!(at(&values, &sum.plainvector), vec![11.0, 22.0, 33.0]);
    assert_eq!(at(&values, &difference.plainvector), vec![-9.0, -18.0, -27.0]);
    assert_eq!(at(&values, &shifted.plainvector), vec![1.5, 2.5, 3.5]);
    assert_eq!(at(&values, &dropped.plainvector), vec![0.5, 1.5, 2.5]);
    assert_eq!(at(&values, &halved.plainvector), vec![0.5, 1.0, 1.5]);
    assert_eq!(at(&values, &scaled.plainvector), vec![10.0, 20.0, 30.0]);
    assert_eq!(bootstraps(&program), 0);
}

#[test]
fn encrypted_matrix_product_matches_the_plain_one() {
    let rows = vec![vec![1, 2, 3], vec![0, -1, 4]];
    let (mut program, min, max) = begin(LinearPolicy::Noiseless);
    let m = cipher_matrix(&mut program, &rows, min, max);
    let v = cipher_vector(&mut program, &[2, 0, -1], min, max);
    let encrypted = m.mul(&v, &mut program).ok().unwrap();
    assert_eq!(bootstraps(&program), 2 * 2 * 3);
    assert_eq!(plain_products(&program), 0);
    let opened = EncryptKey {}.decrypt_vector(&encrypted, &mut program);
    let pm = PlainMatrix::new(&grid(&rows), &mut program).ok().unwrap();
    let pv = PlainVector::new(&wholes(&[2, 0, -1]), &mut program);
    let plain = pm.mul(&pv, &mut program).ok().unwrap();
    let values = run(&program, &[]);
    assert_eq!(encrypted.dim, 2);
    assert_eq!(plain.dim, 2);
    assert_eq!(at(&values, &plain.plainvector), vec![-1.0, -4.0]);
    assert_eq!(at(&values, &opened.plainvector), at(&values, &plain.plainvector));
}

#[test]
fn matrices_add_and_subtract_entry_by_entry() {
    let a = vec![vec![1, 2], vec![3, 4], vec![5, 6]];
    let b = vec![vec![10, 20], vec![30, 40], vec![50, 60]];
    let (mut program, min, max) = begin(LinearPolicy::Noiseless);
    let ca = cipher_matrix(&mut program, &a, min, max);
    let cb = cipher_matrix(&mut program, &b, min, max);
    let sum = ca.add(&cb, &mut program).ok().unwrap();
    let difference = ca.sub(&cb, &mut program).ok().unwrap();
    let pa = PlainMatrix::new(&grid(&a), &mut program).ok().unwrap();
    let pb = PlainMatrix::new(&grid(&b), &mut program).ok().unwrap();
    let plain_sum = pa.add(&pb, &mut program).ok().unwrap();
    let plain_difference = pa.sub(&pb, &mut program).ok().unwrap();
    let opened = EncryptKey {}.decrypt_matrix(&sum, &mut program);
    let values = run(&program, &[]);
    assert_eq!((sum.dim_n, sum.dim_m), (3, 2));
    assert_eq!(at(&values, &sum.ciphermatrix[2]), vec![55.0, 66.0]);
    assert_eq!(at(&values, &difference.ciphermatrix[0]), vec![-9.0, -18.0]);
    assert_eq!(at(&values, &plain_sum.plainmatrix[1]), vec![33.0, 44.0]);
    assert_eq!(at(&values, &plain_difference.plainmatrix[1]), vec![-27.0, -36.0]);
    assert_eq!(at(&values, &opened.plainmatrix[2]), vec![55.0, 66.0]);
    assert_eq!(at(&values, &ca.get_row(1).ciphervector), vec![3.0, 4.0]);
    assert_eq!(at(&values, &pa.get_row(2).plainvector), vec![5.0, 6.0]);
    assert_eq!(ca.get_row(1).dim, 2);
}

#[test]
fn matrices_of_different_shapes_are_refused() {
    let (mut program, min, max) = begin(LinearPolicy::Noiseless);
    let a = cipher_matrix(&mut program, &[vec![1, 2], vec![3, 4]], min, max);
    let b = cipher_matrix(&mut program, &[vec![1, 2, 3], vec![4, 5, 6]], min, max);
    let v = cipher_vector(&mut program, &[1, 2, 3], min, max);
    let before = program.len();
    assert_eq!(a.add(&b, &mut program).err(), Some(ShapeError::DimensionMismatch));
    assert_eq!(a.sub(&b, &mut program).err(), Some(ShapeError::DimensionMismatch));
    assert_eq!(a.mul(&v, &mut program).err(), Some(ShapeError::DimensionMismatch));
    assert_eq!(program.len(), before);
    assert_eq!(
        PlainMatrix::new(&Vec::new(), &mut program).err(),
        Some(ShapeError::Empty)
    );
    assert_eq!(
        PlainMatrix::new(&grid(&[vec![1, 2], vec![3]]), &mut program).err(),
        Some(ShapeError::DimensionMismatch)
    );
    let empty = PlainMatrix::new(&grid(&[vec![], vec![]]), &mut program).ok().unwrap();
    let nothing = PlainVector::new(&Vec::new(), &mut program);
    assert_eq!(empty.mul(&nothing, &mut program).err(), Some(ShapeError::Empty));
    assert_eq!(program.len(), before);
}

fn reciprocal_of(a: f64, rounds: usize) -> f64 {
    let mut program = Program::new(LinearPolicy::Noiseless, false);
    let register = program.emit(Op::Input(0));
    let x = reciprocal_register(&mut program, register, rounds);
    run(&program, &[a])[x]
}

#[test]
fn newton_reciprocal_converges_from_the_right_side() {
    for &a in &[-16.0, -1.0, -0.25, -400.0, -9999.0, 3.0] {
        let mut last = f64::INFINITY;
        for rounds in [0usize, 5, 10, 15, 20, 30] {
            let error = (1.0 - a * reciprocal_of(a, rounds)).abs();
            assert!(error <= last);
            last = error;
        }
        assert!(last < 1e-9);
    }
    assert_eq!(reciprocal_of(-16.0, 0), -0.0001);
    assert_eq!(reciprocal_of(-16.0, 1), -0.0001 * (2.0 - 0.0016));
    assert!((reciprocal_of(-16.0, 20) + 0.0625).abs() < 1e-12);
}

#[test]
fn newton_reciprocal_diverges_from_the_wrong_side() {
    let a = -30000.0;
    let first = (1.0 - a * reciprocal_of(a, 1)).abs();
    let later = (1.0 - a * reciprocal_of(a, 6)).abs();
    assert!(first > 1.0);
    assert!(later > first);
    assert!(!((1.0 - a * reciprocal_of(a, 20)).abs() < 1.0));
}

fn scenario() -> (Vec<Vec<Decimal>>, Vec<Decimal>) {
    let x = grid(&[
        vec![0, 0, 4, 4],
        vec![0, 0, 4, 4],
        vec![0, 0, 4, 4],
        vec![1, 1, 0, 0],
        vec![1, 1, 0, 0],
    ]);
    let y = wholes(&[1, 1, 1, -1, -1]);
    (x, y)
}

#[test]
fn plain_training_then_classification_recovers_the_labels() {
    let (x, y) = scenario();
    let training = train_data_plain(&x, &y).ok().unwrap();
    let values = run(&training.program, &[]);
    let beta = at(&values, &training.weights.plainvector);
    assert_eq!(beta.len(), 4);
    assert_eq!(bootstraps(&training.program), 0);
    let classification = classify_data_plain(&x, 4).ok().unwrap();
    let values = run(&classification.program, &beta);
    let classes = at(&values, &classification.predictions.plainvector);
    assert_eq!(classes, vec![1.0, 1.0, 1.0, -1.0, -1.0]);
}

#[test]
fn one_round_of_training_is_the_formula() {
    let x = grid(&[vec![9, 9], vec![2, 0], vec![0, 1]]);
    let y = wholes(&[1, 1, -1]);
    let training = train_data_plain(&x, &y).ok().unwrap();
    let values = run(&training.program, &[]);
    let mut beta = vec![0.001, 0.001];
    let h = [
        reciprocal_of(-(9.0 * 18.0 + 2.0 * 2.0) / 4.0, 20),
        reciprocal_of(-(9.0 * 18.0 + 1.0 * 1.0) / 4.0, 20),
    ];
    for _ in 0..19 {
        let a1 = (0.5 - 0.25 * 1.0 * (2.0 * beta[0])) * 1.0;
        let a2 = (0.5 - 0.25 * -1.0 * (1.0 * beta[1])) * -1.0;
        let g = [2.0 * a1, 1.0 * a2];
        beta = vec![beta[0] - h[0] * g[0], beta[1] - h[1] * g[1]];
    }
    let trained = at(&values, &training.weights.plainvector);
    assert!((trained[0] - beta[0]).abs() < 1e-9);
    assert!((trained[1] - beta[1]).abs() < 1e-9);
}

#[test]
fn encrypted_training_runs_on_ciphertexts_only() {
    let (x, y) = scenario();
    let training = train_data_fhe(&x, &y, LinearPolicy::Noiseless, false, 6, 2).ok().unwrap();
    let program = &training.program;
    assert_eq!(training.weights.dim, 4);
    for &r in &training.weights.plainvector {
        assert!(matches!(program.op(r), Op::Decrypt(_)));
    }
    let first_cipher = (0..program.len()).find(|&r| program.is_cipher(r)).unwrap();
    let last_cipher = (0..program.len()).rev().find(|&r| program.is_cipher(r)).unwrap();
    for r in first_cipher..=last_cipher {
        assert!(program.is_cipher(r));
    }
    for r in 0..program.len() {
        if let Op::Encrypt { min, max, precision_bits, padding_bits, .. } = program.op(r) {
            assert_eq!(run(program, &[])[min], -60.0);
            assert_eq!(run(program, &[])[max], 60.0);
            assert_eq!((precision_bits, padding_bits), (6, 2));
            break;
        }
    }
    assert!(bootstraps(program) > 0);
    let values = run(program, &[]);
    let beta = at(&values, &training.weights.plainvector);
    assert!(beta.iter().all(|b| b.is_finite()));
}

#[test]
fn encrypted_training_follows_the_policy() {
    let (x, y) = scenario();
    let noiseless = train_data_fhe(&x, &y, LinearPolicy::Noiseless, false, 6, 2).ok().unwrap();
    let refreshed = train_data_fhe(&x, &y, LinearPolicy::BootstrapRefreshed, false, 6, 2).ok().unwrap();
    assert_eq!(bootstraps(&noiseless.program), 9 * (4 * 21 + 4 * 8 + 4));
    assert_eq!(bootstraps(&refreshed.program), 9 * (4 * 38 + 4 * 15 + 4 + 4));
    let a = run(&noiseless.program, &[]);
    let b = run(&refreshed.program, &[]);
    assert_eq!(
        at(&a, &noiseless.weights.plainvector),
        at(&b, &refreshed.weights.plainvector)
    );
}

#[test]
fn data_that_cannot_be_trained_on_are_refused() {
    let (x, y) = scenario();
    assert_eq!(train_data_plain(&Vec::new(), &Vec::new()).err(), Some(ShapeError::Empty));
    assert_eq!(train_data_plain(&grid(&[vec![]]), &wholes(&[1])).err(), Some(ShapeError::Empty));
    assert_eq!(
        train_data_plain(&x, &wholes(&[1, 1])).err(),
        Some(ShapeError::DimensionMismatch)
    );
    assert_eq!(
        train_data_plain(&grid(&[vec![1, 2], vec![3]]), &wholes(&[1, 1])).err(),
        Some(ShapeError::DimensionMismatch)
    );
    assert_eq!(
        train_data_fhe(&Vec::new(), &y, LinearPolicy::Noiseless, false, 6, 2).err(),
        Some(ShapeError::Empty)
    );
    assert_eq!(
        train_data_fhe(&x, &wholes(&[1]), LinearPolicy::Noiseless, false, 6, 2).err(),
        Some(ShapeError::DimensionMismatch)
    );
}

#[test]
fn classification_decides_by_the_sign_of_the_score() {
    let x = grid(&[vec![1, 2], vec![3], vec![], vec![0, -1]]);
    let classification = classify_data_plain(&x, 2).ok().unwrap();
    let values = run(&classification.program, &[0.5, -1.0]);
    let classes = at(&values, &classification.predictions.plainvector);
    assert_eq!(classes, vec![-1.0, 1.0, -1.0, 1.0]);
    assert_eq!(classification.predictions.dim, 4);
}

#[test]
fn encrypted_classification_matches_the_plain_one() {
    let x = grid(&[vec![1, 2], vec![3], vec![], vec![0, -1]]);
    let beta = [0.5, -1.0];
    let plain = classify_data_plain(&x, 2).ok().unwrap();
    let fhe = classify_data_fhe(&x, 2, LinearPolicy::Noiseless, false, 6, 2).ok().unwrap();
    let expected = at(&run(&plain.program, &beta), &plain.predictions.plainvector);
    let values = run(&fhe.program, &beta);
    assert_eq!(at(&values, &fhe.predictions.plainvector), expected);
    assert_eq!(plain_products(&fhe.program), 1);
    assert_eq!(bootstraps(&fhe.program), 4 * (2 * 2 + 1));
    assert_eq!(bootstraps(&plain.program), 0);
    for &r in &fhe.predictions.plainvector {
        assert!(matches!(fhe.program.op(r), Op::Apply(_, Func::Sign)));
        assert!(matches!(fhe.program.op(r - 1), Op::Decrypt(_)));
        assert!(matches!(fhe.program.op(r - 2), Op::Bootstrap(_, Func::Decide, _)));
    }
}

#[test]
fn the_range_of_classification_comes_from_the_weights() {
    let x = grid(&[vec![1, 2]]);
    let fhe = classify_data_fhe(&x, 2, LinearPolicy::Noiseless, false, 6, 2).ok().unwrap();
    let values = run(&fhe.program, &[-3.2, 0.5]);
    let mut seen = false;
    for r in 0..fhe.program.len() {
        if let Op::Encrypt { min, max, precision_bits, padding_bits, .. } = fhe.program.op(r) {
            assert_eq!(values[max], 3.0);
            assert_eq!(values[min], -3.0);
            assert_eq!((precision_bits, padding_bits), (6, 2));
            seen = true;
        }
    }
    assert!(seen);
}

#[test]
fn examples_that_cannot_be_classified_are_refused() {
    let x = grid(&[vec![1, 2, 3]]);
    assert_eq!(classify_data_plain(&x, 2).err(), Some(ShapeError::DimensionMismatch));
    assert_eq!(classify_data_plain(&Vec::new(), 2).err(), Some(ShapeError::Empty));
    assert_eq!(
        classify_data_fhe(&x, 2, LinearPolicy::Noiseless, false, 6, 2).err(),
        Some(ShapeError::DimensionMismatch)
    );
    assert_eq!(
        classify_data_fhe(&x, 0, LinearPolicy::Noiseless, false, 6, 2).err(),
        Some(ShapeError::Empty)
    );
    let flat = classify_data_plain(&grid(&[vec![]]), 0).ok().unwrap();
    assert_eq!(
        at(&run(&flat.program, &[]), &flat.predictions.plainvector),
        vec![-1.0]
    );
}

#[test]
fn a_data_file_is_trained_on_as_it_is_read() {
    let text = b"1 3:4 4:4\n1 3:4 4:4\n1 3:4 4:4\n-1 1:1 2:1\n-1 1:1 2:1\n";
    let (x, y) = parse_data_file(text).ok().unwrap();
    let training = train_data_plain(&x, &y).ok().unwrap();
    let (sx, sy) = scenario();
    let expected = train_data_plain(&sx, &sy).ok().unwrap();
    let a = run(&training.program, &[]);
    let b = run(&expected.program, &[]);
    assert_eq!(
        at(&a, &training.weights.plainvector),
        at(&b, &expected.weights.plainvector)
    );
}

#[test]
fn decrypted_arithmetic_on_encrypted_numbers_is_the_arithmetic() {
    for &policy in &[LinearPolicy::Noiseless, LinearPolicy::BootstrapRefreshed] {
        for &with_ks in &[false, true] {
            for a in -7i64..=7 {
                for b in -7i64..=7 {
                    let mut program = Program::new(policy, with_ks);
                    let min = program.emit(Op::Literal(whole(-60)));
                    let max = program.emit(Op::Literal(whole(60)));
                    let x = cipher(&mut program, a, min, max);
                    let y = cipher(&mut program, b, min, max);
                    let sum = x.add(&y, &mut program);
                    let difference = x.sub(&y, &mut program);
                    let product = x.mul(&y, &mut program);
                    let key = EncryptKey {};
                    let sum = key.decrypt_float(&sum, &mut program);
                    let difference = key.decrypt_float(&difference, &mut program);
                    let product = key.decrypt_float(&product, &mut program);
                    let back = key.decrypt_float(&x, &mut program);
                    let values = run(&program, &[]);
                    assert_eq!(values[sum], (a + b) as f64);
                    assert_eq!(values[difference], (a - b) as f64);
                    assert_eq!(values[product], (a * b) as f64);
                    assert_eq!(values[back], a as f64);
                    for r in 0..program.len() {
                        assert!(!matches!(program.op(r), Op::Mul(_, _)));
                    }
                }
            }
        }
    }
}

#[test]
fn row_zero_takes_part_in_the_hessian_only() {
    let (x, y) = scenario();
    let mut other_y = y.clone();
    other_y[0] = whole(-1);
    let a = train_data_plain(&x, &y).ok().unwrap();
    let b = train_data_plain(&x, &other_y).ok().unwrap();
    let trained = at(&run(&a.program, &[]), &a.weights.plainvector);
    assert_eq!(trained, at(&run(&b.program, &[]), &b.weights.plainvector));
    let mut other_x = x.clone();
    other_x[0] = wholes(&[9, -3, 0, 7]);
    let c = train_data_plain(&other_x, &y).ok().unwrap();
    assert_ne!(trained, at(&run(&c.program, &[]), &c.weights.plainvector));
    let single = train_data_plain(&grid(&[vec![3, 4]]), &wholes(&[1])).ok().unwrap();
    assert_eq!(
        at(&run(&single.program, &[]), &single.weights.plainvector),
        vec![0.001, 0.001]
    );
}

#[test]
fn the_inverse_hessian_is_the_reciprocal_of_its_diagonal() {
    let x = grid(&[vec![5, 5], vec![2, 0], vec![0, 4]]);
    let y = wholes(&[1, 1, -1]);
    let training = train_data_fhe(&x, &y, LinearPolicy::Noiseless, false, 6, 2).ok().unwrap();
    let values = run(&training.program, &[]);
    let encrypted: Vec<f64> = (0..training.program.len())
        .filter_map(|r| match training.program.op(r) {
            Op::Encrypt { source, .. } => Some(values[source]),
            _ => None,
        })
        .collect();
    assert_eq!(encrypted.len(), 4 + 6 + 3 + 2 + 2);
    assert_eq!(encrypted[0], reciprocal_of(-(5.0 * 10.0 + 2.0 * 2.0) / 4.0, 10));
    assert_eq!(encrypted[1], 0.0);
    assert_eq!(encrypted[2], 0.0);
    assert_eq!(encrypted[3], reciprocal_of(-(5.0 * 10.0 + 4.0 * 4.0) / 4.0, 10));
    assert_eq!(&encrypted[4..10], &[5.0, 5.0, 2.0, 0.0, 0.0, 4.0]);
    assert_eq!(&encrypted[10..13], &[1.0, 1.0, -1.0]);
    assert_eq!(&encrypted[13..15], &[0.0, 0.0]);
    assert_eq!(&encrypted[15..17], &[0.001, 0.001]);
}

#[test]
fn the_hessian_sums_over_every_row() {
    let x = grid(&[vec![200], vec![200]]);
    let y = wholes(&[1, 1]);
    let training = train_data_plain(&x, &y).ok().unwrap();
    let values = run(&training.program, &[]);
    assert_eq!(reciprocal_of(-(200.0 * 200.0 + 200.0 * 200.0) / 4.0, 20), 0.0);
    assert_eq!(at(&values, &training.weights.plainvector), vec![0.001]);
}

#[test]
fn encrypted_classification_encrypts_the_examples_and_then_the_weights() {
    let x = grid(&[vec![1, 2], vec![3]]);
    let c = classify_data_fhe(&x, 2, LinearPolicy::Noiseless, false, 6, 2).ok().unwrap();
    let values = run(&c.program, &[0.5, -1.5]);
    let places: Vec<usize> = (0..c.program.len())
        .filter(|&r| matches!(c.program.op(r), Op::Encrypt { .. }))
        .collect();
    let encrypted: Vec<f64> = places
        .iter()
        .map(|&r| match c.program.op(r) {
            Op::Encrypt { source, .. } => values[source],
            _ => f64::NAN,
        })
        .collect();
    assert_eq!(encrypted, vec![1.0, 2.0, 3.0, 0.0, 0.5, -1.5]);
    assert_eq!(places.last().unwrap() - places[0], 5);
    for r in 0..places[0] {
        assert!(c.program.is_plain(r));
    }
}

#[test]
fn encrypted_training_encrypts_what_it_begins_with_in_one_stretch() {
    let (x, y) = scenario();
    let training = train_data_fhe(&x, &y, LinearPolicy::Noiseless, false, 6, 2).ok().unwrap();
    let places: Vec<usize> = (0..training.program.len())
        .filter(|&r| matches!(training.program.op(r), Op::Encrypt { .. }))
        .collect();
    assert_eq!(places.len(), 16 + 20 + 5 + 4 + 4);
    assert_eq!(places.last().unwrap() - places[0] + 1, places.len());
    for r in 0..places[0] {
        assert!(training.program.is_plain(r));
    }
}

#[test]
fn training_tells_the_two_groups_apart_in_either_way() {
    let (x, y) = scenario();
    let plain = train_data_plain(&x, &y).ok().unwrap();
    let fhe = train_data_fhe(&x, &y, LinearPolicy::BootstrapRefreshed, true, 6, 2).ok().unwrap();
    let weights = [
        at(&run(&plain.program, &[]), &plain.weights.plainvector),
        at(&run(&fhe.program, &[]), &fhe.weights.plainvector),
    ];
    for beta in weights.iter() {
        assert_eq!(beta.len(), 4);
        assert!(-1.0 <= beta[0] && beta[0] < 0.0);
        assert_eq!(beta[1], beta[0]);
        assert!(0.0 < beta[2] && beta[2] < 0.25);
        assert_eq!(beta[3], beta[2]);
        let classification = classify_data_plain(&x, 4).ok().unwrap();
        let values = run(&classification.program, beta);
        assert_eq!(
            at(&values, &classification.predictions.plainvector),
            vec![1.0, 1.0, 1.0, -1.0, -1.0]
        );
    }
}
