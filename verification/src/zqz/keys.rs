//! The data owner's key: where numbers enter and leave encryption.
//!
//! The secret key never enters a program. A program only says which plain
//! numbers are encrypted under it, over which range and with how many bits,
//! and which ciphertexts are decrypted; whoever runs the program holds the
//! key. This module also names the files in which a set of keys is kept.
use crate::algebra::{
    all_hold, grid_holds, grid_values, holds, lemma_values_stable, Binary,
    Domain,
};
use crate::clear::matrix::PlainMatrix;
use crate::clear::vector::PlainVector;
use crate::program::{
    bootstraps, cipher_at, lemma_push, plain_at, value_at, values_at, well_formed, LinearPolicy,
    Op, Program,
};
use crate::zqz::cipherfloat::{binary_ops, lemma_binary_value, Cipherfloat};
use crate::zqz::matrix::CipherMatrix;
use crate::zqz::vector::CipherVector;
use vstd::prelude::*;
use vstd::string::StringExecFns;

verus! {

/// The secret key of the data owner, under which numbers are encrypted and
/// decrypted.
#[derive(Clone, Copy, Debug)]
pub struct EncryptKey {}

/// The three files of a set of keys.
#[derive(Clone, Debug)]
pub struct KeyFiles {
    pub secret: String,
    pub bootstrapping: String,
    pub keyswitching: String,
}

/// How a row of numbers crosses between the clear and the encrypted side.
#[derive(Clone, Copy, Debug)]
pub enum Crossing {
    /// encryption over the range from the number in `min` to the number in
    /// `max`, with the given bits of precision and padding
    Encrypt { min: usize, max: usize, precision_bits: usize, padding_bits: usize },
    /// decryption
    Decrypt,
}

impl Crossing {
    /// The operation that takes the number in `source` across.
    pub open spec fn op(self, source: usize) -> Op {
        match self {
            Crossing::Encrypt { min, max, precision_bits, padding_bits } => Op::Encrypt {
                source,
                min,
                max,
                precision_bits,
                padding_bits,
            },
            Crossing::Decrypt => Op::Decrypt(source),
        }
    }

    /// The side that the numbers come from.
    pub open spec fn from(self) -> Domain {
        match self {
            Crossing::Encrypt { .. } => Domain::Plain,
            Crossing::Decrypt => Domain::Cipher,
        }
    }

    /// The side that the numbers arrive on.
    pub open spec fn to(self) -> Domain {
        match self {
            Crossing::Encrypt { .. } => Domain::Cipher,
            Crossing::Decrypt => Domain::Plain,
        }
    }

    /// Whether `op` is this crossing, of whatever number.
    pub open spec fn makes(self, op: Op) -> bool {
        match (self, op) {
            (
                Crossing::Encrypt { min, max, precision_bits, padding_bits },
                Op::Encrypt { source: _, min: m, max: x, precision_bits: p, padding_bits: q },
            ) => min == m && max == x && precision_bits == p && padding_bits == q,
            (Crossing::Decrypt, Op::Decrypt(_)) => true,
            _ => false,
        }
    }

    /// Whether the number in register `source` lies within the range that
    /// an encryption declares, in a run of `ops` on `inputs`. Decryption
    /// admits every number.
    pub open spec fn admits(self, ops: Seq<Op>, inputs: Seq<real>, source: usize) -> bool {
        match self {
            Crossing::Encrypt { min, max, .. } => value_at(ops, inputs, min as int) <= value_at(
                ops,
                inputs,
                source as int,
            ) <= value_at(ops, inputs, max as int),
            Crossing::Decrypt => true,
        }
    }

    /// The registers that give the range of an encryption hold plain numbers
    /// among `ops`.
    pub open spec fn ready(self, ops: Seq<Op>) -> bool {
        match self {
            Crossing::Encrypt { min, max, .. } => holds(ops, min, Domain::Plain) && holds(
                ops,
                max,
                Domain::Plain,
            ),
            Crossing::Decrypt => true,
        }
    }
}

/// The registers `w` are written, one for one, by the crossing of the
/// registers `u`.
pub open spec fn crossed(ops: Seq<Op>, w: Seq<usize>, u: Seq<usize>, how: Crossing) -> bool {
    &&& w.len() == u.len()
    &&& forall|i: int|
        0 <= i < u.len() ==> (#[trigger] w[i]) < ops.len() && ops[w[i] as int] == how.op(u[i])
}

/// The operations that take the registers `u` across, one after the other.
pub open spec fn crossings(u: Seq<usize>, how: Crossing) -> Seq<Op> {
    Seq::new(u.len(), |i: int| how.op(u[i]))
}

/// The operations that take the registers of a grid across, row by row.
pub open spec fn grid_crossings(m: Seq<Vec<usize>>, how: Crossing) -> Seq<Op>
    decreases m.len(),
{
    if m.len() == 0 {
        Seq::empty()
    } else {
        grid_crossings(m.drop_last(), how) + crossings(m.last()@, how)
    }
}

/// Every operation of `ops` from number `from` on is the crossing `how`.
pub open spec fn crossings_from(ops: Seq<Op>, from: int, how: Crossing) -> bool {
    forall|r: int| from <= r < ops.len() ==> how.makes(#[trigger] ops[r])
}

/// Takes one number across.
pub fn cross(program: &mut Program, source: usize, how: Crossing) -> (r: usize)
    requires
        old(program).wf(),
        how.ready(old(program)@),
        holds(old(program)@, source, how.from()),
    ensures
        final(program).follows(*old(program)),
        final(program)@ == old(program)@.push(how.op(source)),
        crossings_from(final(program)@, old(program)@.len() as int, how),
        r == old(program)@.len(),
        holds(final(program)@, r, how.to()),
        forall|inputs: Seq<real>| #[trigger]
            value_at(final(program)@, inputs, r as int) == value_at(
                old(program)@,
                inputs,
                source as int,
            ),
        bootstraps(final(program)@) == bootstraps(old(program)@),
{
    match how {
        Crossing::Encrypt { min, max, precision_bits, padding_bits } => program.emit(
            Op::Encrypt { source, min, max, precision_bits, padding_bits },
        ),
        Crossing::Decrypt => program.emit(Op::Decrypt(source)),
    }
}

/// Takes a row of numbers across, one after the other.
pub fn cross_row(program: &mut Program, u: &Vec<usize>, how: Crossing) -> (w: Vec<usize>)
    requires
        old(program).wf(),
        how.ready(old(program)@),
        all_hold(old(program)@, u@, how.from()),
    ensures
        final(program).follows(*old(program)),
        final(program)@ == old(program)@ + crossings(u@, how),
        all_hold(final(program)@, w@, how.to()),
        crossed(final(program)@, w@, u@, how),
        crossings_from(final(program)@, old(program)@.len() as int, how),
        forall|inputs: Seq<real>| #[trigger]
            values_at(final(program)@, inputs, w@) == values_at(old(program)@, inputs, u@),
        bootstraps(final(program)@) == bootstraps(old(program)@),
{
    let ghost start = *program;
    let mut w: Vec<usize> = Vec::new();
    let mut i: usize = 0;
    proof {
        assert(program@ =~= start@ + crossings(u@.take(0), how));
    }
    while i < u.len()
        invariant
            i <= u@.len(),
            w@.len() == i,
            start.wf(),
            program.follows(start),
            how.ready(start@),
            program@ == start@ + crossings(u@.take(i as int), how),
            crossings_from(program@, start@.len() as int, how),
            all_hold(start@, u@, how.from()),
            all_hold(program@, w@, how.to()),
            forall|j: int|
                0 <= j < i ==> (#[trigger] w@[j]) < program@.len() && program@[w@[j] as int]
                    == how.op(u@[j]),
            forall|inputs: Seq<real>, j: int|
                0 <= j < i ==> #[trigger] value_at(program@, inputs, w@[j] as int) == value_at(
                    start@,
                    inputs,
                    u@[j] as int,
                ),
            bootstraps(program@) == bootstraps(start@),
        decreases u@.len() - i,
    {
        let ghost before = program@;
        let r = cross(program, u[i], how);
        proof {
            assert(before.push(how.op(u@[i as int])) =~= start@ + crossings(
                u@.take(i + 1),
                how,
            ));
        }
        w.push(r);
        i = i + 1;
    }
    proof {
        assert(u@.take(u@.len() as int) =~= u@);
    }
    w
}

/// Takes a grid of numbers across, row by row.
pub fn cross_grid(program: &mut Program, m: &Vec<Vec<usize>>, width: usize, how: Crossing) -> (c:
    Vec<Vec<usize>>)
    requires
        old(program).wf(),
        how.ready(old(program)@),
        grid_holds(old(program)@, m@, width as int, how.from()),
    ensures
        final(program).follows(*old(program)),
        final(program)@ == old(program)@ + grid_crossings(m@, how),
        c@.len() == m@.len(),
        grid_holds(final(program)@, c@, width as int, how.to()),
        crossings_from(final(program)@, old(program)@.len() as int, how),
        forall|i: int|
            0 <= i < m@.len() ==> crossed(final(program)@, (#[trigger] c@[i])@, m@[i]@, how),
        forall|inputs: Seq<real>| #[trigger]
            grid_values(final(program)@, inputs, c@) == grid_values(old(program)@, inputs, m@),
        bootstraps(final(program)@) == bootstraps(old(program)@),
{
    let ghost start = *program;
    let mut c: Vec<Vec<usize>> = Vec::new();
    let mut i: usize = 0;
    proof {
        assert(program@ =~= start@ + grid_crossings(m@.take(0), how));
    }
    while i < m.len()
        invariant
            i <= m@.len(),
            c@.len() == i,
            start.wf(),
            program.follows(start),
            how.ready(start@),
            program@ == start@ + grid_crossings(m@.take(i as int), how),
            crossings_from(program@, start@.len() as int, how),
            grid_holds(start@, m@, width as int, how.from()),
            grid_holds(program@, c@, width as int, how.to()),
            forall|j: int| 0 <= j < i ==> crossed(program@, (#[trigger] c@[j])@, m@[j]@, how),
            forall|inputs: Seq<real>, j: int|
                0 <= j < i ==> #[trigger] values_at(program@, inputs, c@[j]@) == values_at(
                    start@,
                    inputs,
                    m@[j]@,
                ),
            bootstraps(program@) == bootstraps(start@),
        decreases m@.len() - i,
    {
        let ghost before = *program;
        let ghost done = c@;
        let row = cross_row(program, &m[i], how);
        c.push(row);
        proof {
            assert(m@.take(i + 1).drop_last() =~= m@.take(i as int));
            assert(before@ + crossings(m@[i as int]@, how) =~= start@ + grid_crossings(
                m@.take(i + 1),
                how,
            ));
            assert forall|inputs: Seq<real>, j: int| 0 <= j < i + 1 implies #[trigger] values_at(
                program@,
                inputs,
                c@[j]@,
            ) == values_at(start@, inputs, m@[j]@) by {
                if j < i {
                    lemma_values_stable(program@, before@, inputs, done[j]@);
                }
            }
        }
        i = i + 1;
    }
    proof {
        assert(m@.take(m@.len() as int) =~= m@);
    }
    c
}

/// The operations that encrypt the plain numbers in `a` and `b`, take the
/// sum, difference or product of the two ciphertexts, and decrypt it.
pub open spec fn encrypted_binary(
    start: Seq<Op>,
    a: usize,
    b: usize,
    how: Crossing,
    op: Binary,
    policy: LinearPolicy,
    with_ks: bool,
) -> Seq<Op> {
    let n = start.len() as int;
    let encrypted = start.push(how.op(a)).push(how.op(b));
    let computed = encrypted + binary_ops(
        op,
        n as usize,
        (n + 1) as usize,
        n + 2,
        policy,
        with_ks,
    );
    computed.push(Op::Decrypt((computed.len() - 1) as usize))
}

/// Two plain numbers encrypted, one after the other.
proof fn lemma_two_encryptions(start: Seq<Op>, a: usize, b: usize, how: Crossing)
    requires
        well_formed(start),
        plain_at(start, a),
        plain_at(start, b),
        how is Encrypt,
        how.ready(start),
        start.len() + 1 <= usize::MAX,
    ensures
        ({
            let ops = start.push(how.op(a)).push(how.op(b));
            &&& well_formed(ops)
            &&& cipher_at(ops, start.len() as usize)
            &&& cipher_at(ops, (start.len() + 1) as usize)
            &&& forall|inputs: Seq<real>| #[trigger]
                value_at(ops, inputs, start.len() as int) == value_at(start, inputs, a as int)
            &&& forall|inputs: Seq<real>| #[trigger]
                value_at(ops, inputs, start.len() as int + 1) == value_at(
                    start,
                    inputs,
                    b as int,
                )
        }),
{
    let e1 = start.push(how.op(a));
    lemma_push(start, how.op(a));
    lemma_push(e1, how.op(b));
}

/// The sum, difference or product of two encrypted numbers, decrypted, is in
/// exact terms the sum, difference or product of the numbers, where both
/// numbers lie within the range declared for the encryption: encryption,
/// the arithmetic of ciphertexts and decryption lose nothing. Of numbers
/// outside the range nothing is said.
#[verifier::spinoff_prover]
#[verifier::rlimit(50)]
pub proof fn lemma_encrypted_arithmetic(
    start: Seq<Op>,
    a: usize,
    b: usize,
    how: Crossing,
    op: Binary,
    policy: LinearPolicy,
    with_ks: bool,
)
    requires
        well_formed(start),
        plain_at(start, a),
        plain_at(start, b),
        how is Encrypt,
        how.ready(start),
        start.len() + 12 <= usize::MAX,
    ensures
        ({
            let ops = encrypted_binary(start, a, b, how, op, policy, with_ks);
            &&& well_formed(ops)
            &&& forall|inputs: Seq<real>|
                how.admits(start, inputs, a) && how.admits(start, inputs, b) ==> #[trigger] value_at(
                    ops,
                    inputs,
                    ops.len() - 1,
                ) == op.apply(value_at(start, inputs, a as int), value_at(start, inputs, b as int))
        }),
{
    let n = start.len() as int;
    let e2 = start.push(how.op(a)).push(how.op(b));
    let computed = e2 + binary_ops(op, n as usize, (n + 1) as usize, n + 2, policy, with_ks);
    let last = Op::Decrypt((computed.len() - 1) as usize);
    let ops = computed.push(last);
    assert(well_formed(computed) && cipher_at(computed, (computed.len() - 1) as usize)
        && computed.len() <= n + 11) by {
        lemma_binary_value(e2, n as usize, (n + 1) as usize, op, policy, with_ks);
    }
    assert forall|inputs: Seq<real>| #[trigger]
        value_at(ops, inputs, ops.len() - 1) == op.apply(
            value_at(start, inputs, a as int),
            value_at(start, inputs, b as int),
        ) by {
        let x = value_at(start, inputs, a as int);
        let y = value_at(start, inputs, b as int);
        assert(value_at(e2, inputs, n) == x && value_at(e2, inputs, n + 1) == y) by {
            lemma_two_encryptions(start, a, b, how);
        }
        assert(value_at(computed, inputs, computed.len() - 1) == op.apply(x, y)) by {
            lemma_binary_value(e2, n as usize, (n + 1) as usize, op, policy, with_ks);
        }
        assert(value_at(ops, inputs, ops.len() - 1) == value_at(
            computed,
            inputs,
            computed.len() - 1,
        )) by {
            lemma_push(computed, last);
        }
    }
}

impl EncryptKey {
    /// The names of the three files of the keys kept under `prefix`: the
    /// prefix, an underscore, and the name of the part.
    pub fn key_files(prefix: &str) -> (files: KeyFiles)
        ensures
            files.secret@ == prefix@ + "_secret_key.json"@,
            files.bootstrapping@ == prefix@ + "_bootstrapping_key.txt"@,
            files.keyswitching@ == prefix@ + "_keyswitching_key.txt"@,
    {
        let secret = String::from_str(prefix).concat("_secret_key.json");
        let bootstrapping = String::from_str(prefix).concat("_bootstrapping_key.txt");
        let keyswitching = String::from_str(prefix).concat("_keyswitching_key.txt");
        KeyFiles { secret, bootstrapping, keyswitching }
    }

    /// Whether a set of keys is there to be loaded, given which of its three
    /// files exist: it is only if all three do. Otherwise new keys are made.
    pub fn keys_exist(secret: bool, bootstrapping: bool, keyswitching: bool) -> (exist: bool)
        ensures
            exist == (secret && bootstrapping && keyswitching),
    {
        secret && bootstrapping && keyswitching
    }

    /// Encrypts the plain number in `message`, encoded over the range from
    /// the number in `min` to the number in `max`. The ciphertext stands
    /// for the number; a backend keeps it only where the number lies within
    /// the range (`Crossing::admits`).
    pub fn encrypt_float(
        &self,
        message: usize,
        min: usize,
        max: usize,
        nb_bit_precision: usize,
        nb_bit_padding: usize,
        program: &mut Program,
    ) -> (ct: Cipherfloat)
        requires
            old(program).wf(),
            old(program).holds_plain(message),
            old(program).holds_plain(min),
            old(program).holds_plain(max),
        ensures
            final(program).follows(*old(program)),
            final(program)@ == old(program)@.push(
                Op::Encrypt {
                    source: message,
                    min,
                    max,
                    precision_bits: nb_bit_precision,
                    padding_bits: nb_bit_padding,
                },
            ),
            ct.register == old(program)@.len(),
            ct.within(*final(program)),
            forall|inputs: Seq<real>| #[trigger]
                value_at(final(program)@, inputs, ct.register as int) == value_at(
                    old(program)@,
                    inputs,
                    message as int,
                ),
            bootstraps(final(program)@) == bootstraps(old(program)@),
    {
        let how = Crossing::Encrypt {
            min,
            max,
            precision_bits: nb_bit_precision,
            padding_bits: nb_bit_padding,
        };
        Cipherfloat { register: cross(program, message, how) }
    }

    /// Encrypts every entry of a vector over the same range.
    pub fn encrypt_vector(
        &self,
        v: &PlainVector,
        min: usize,
        max: usize,
        nb_bit_precision: usize,
        nb_bit_padding: usize,
        program: &mut Program,
    ) -> (cv: CipherVector)
        requires
            old(program).wf(),
            v.within(*old(program)),
            old(program).holds_plain(min),
            old(program).holds_plain(max),
        ensures
            final(program).follows(*old(program)),
            cv.dim == v.dim,
            cv.within(*final(program)),
            crossed(
                final(program)@,
                cv.ciphervector@,
                v.plainvector@,
                Crossing::Encrypt {
                    min,
                    max,
                    precision_bits: nb_bit_precision,
                    padding_bits: nb_bit_padding,
                },
            ),
            forall|inputs: Seq<real>| #[trigger]
                cv.values(*final(program), inputs) == v.values(*old(program), inputs),
            bootstraps(final(program)@) == bootstraps(old(program)@),
    {
        let how = Crossing::Encrypt {
            min,
            max,
            precision_bits: nb_bit_precision,
            padding_bits: nb_bit_padding,
        };
        let ciphervector = cross_row(program, &v.plainvector, how);
        CipherVector { ciphervector, dim: v.dim }
    }

    /// Encrypts every entry of a matrix over the same range.
    pub fn encrypt_matrix(
        &self,
        matrix: &PlainMatrix,
        min: usize,
        max: usize,
        nb_bit_precision: usize,
        nb_bit_padding: usize,
        program: &mut Program,
    ) -> (cm: CipherMatrix)
        requires
            old(program).wf(),
            matrix.within(*old(program)),
            old(program).holds_plain(min),
            old(program).holds_plain(max),
        ensures
            final(program).follows(*old(program)),
            cm.dim_n == matrix.dim_n,
            cm.dim_m == matrix.dim_m,
            cm.within(*final(program)),
            forall|i: int|
                0 <= i < matrix.dim_n ==> crossed(
                    final(program)@,
                    (#[trigger] cm.ciphermatrix@[i])@,
                    matrix.plainmatrix@[i]@,
                    Crossing::Encrypt {
                        min,
                        max,
                        precision_bits: nb_bit_precision,
                        padding_bits: nb_bit_padding,
                    },
                ),
            forall|inputs: Seq<real>| #[trigger]
                cm.values(*final(program), inputs) == matrix.values(*old(program), inputs),
            bootstraps(final(program)@) == bootstraps(old(program)@),
    {
        let how = Crossing::Encrypt {
            min,
            max,
            precision_bits: nb_bit_precision,
            padding_bits: nb_bit_padding,
        };
        let ciphermatrix = cross_grid(program, &matrix.plainmatrix, matrix.dim_m, how);
        CipherMatrix { ciphermatrix, dim_n: matrix.dim_n, dim_m: matrix.dim_m }
    }

    /// Decrypts every entry of a vector.
    pub fn decrypt_vector(&self, cv: &CipherVector, program: &mut Program) -> (v: PlainVector)
        requires
            old(program).wf(),
            cv.within(*old(program)),
        ensures
            final(program).follows(*old(program)),
            v.dim == cv.dim,
            v.within(*final(program)),
            crossed(final(program)@, v.plainvector@, cv.ciphervector@, Crossing::Decrypt),
            forall|inputs: Seq<real>| #[trigger]
                v.values(*final(program), inputs) == cv.values(*old(program), inputs),
            bootstraps(final(program)@) == bootstraps(old(program)@),
    {
        let plainvector = cross_row(program, &cv.ciphervector, Crossing::Decrypt);
        PlainVector { plainvector, dim: cv.dim }
    }

    /// Decrypts every entry of a matrix.
    pub fn decrypt_matrix(&self, cm: &CipherMatrix, program: &mut Program) -> (m: PlainMatrix)
        requires
            old(program).wf(),
            cm.within(*old(program)),
        ensures
            final(program).follows(*old(program)),
            m.dim_n == cm.dim_n,
            m.dim_m == cm.dim_m,
            m.within(*final(program)),
            forall|i: int|
                0 <= i < cm.dim_n ==> crossed(
                    final(program)@,
                    (#[trigger] m.plainmatrix@[i])@,
                    cm.ciphermatrix@[i]@,
                    Crossing::Decrypt,
                ),
            forall|inputs: Seq<real>| #[trigger]
                m.values(*final(program), inputs) == cm.values(*old(program), inputs),
            bootstraps(final(program)@) == bootstraps(old(program)@),
    {
        let plainmatrix = cross_grid(program, &cm.ciphermatrix, cm.dim_m, Crossing::Decrypt);
        PlainMatrix { plainmatrix, dim_n: cm.dim_n, dim_m: cm.dim_m }
    }

    /// Decrypts one encrypted number into a plain register.
    pub fn decrypt_float(&self, ct: &Cipherfloat, program: &mut Program) -> (r: usize)
        requires
            old(program).wf(),
            ct.within(*old(program)),
        ensures
            final(program).follows(*old(program)),
            final(program)@ == old(program)@.push(Op::Decrypt(ct.register)),
            r == old(program)@.len(),
            final(program).holds_plain(r),
            forall|inputs: Seq<real>| #[trigger]
                value_at(final(program)@, inputs, r as int) == value_at(
                    old(program)@,
                    inputs,
                    ct.register as int,
                ),
            bootstraps(final(program)@) == bootstraps(old(program)@),
    {
        cross(program, ct.register, Crossing::Decrypt)
    }
}

} // verus!
