//! Programs for an encryption backend.
//!
//! A program is a list of operations. Operation number `r` writes register
//! `r` and reads only registers before it. A register holds either a plain
//! number or a ciphertext, as its operation says. What a register holds after
//! a run is given here as a real number, `value_at`: the exact result that a
//! backend approximates, in floating point or under encryption.
use crate::number::Decimal;
use vstd::prelude::*;

verus! {

/// A function of one number. On a ciphertext it is evaluated by a bootstrap.
#[derive(Clone, Copy, Debug)]
pub enum Func {
    /// `x`
    Identity,
    /// `x * x / 4`
    QuarterSquare,
    /// `x * k`
    Scale(Decimal),
    /// `+1` where `1/2 + x/4` is above the threshold `1/2`, else `-1`
    Decide,
    /// the first guess at `1 / x`: `0.0001` with the sign of `x`, negative for `0`
    Seed,
    /// the magnitude of the largest whole number not above `x`
    FloorMagnitude,
    /// `+1` for a positive `x`, else `-1`
    Sign,
}

/// One operation of a program. The numbers in it name registers.
#[derive(Clone, Copy, Debug)]
pub enum Op {
    /// a plain constant
    Literal(Decimal),
    /// a plain number supplied when the program is run, by its position
    Input(usize),
    /// the sum of two plain numbers
    Add(usize, usize),
    /// the difference of two plain numbers
    Sub(usize, usize),
    /// the product of two plain numbers
    Mul(usize, usize),
    /// a function of a plain number
    Apply(usize, Func),
    /// the ciphertext of a plain number, encoded over the range from `min` to
    /// `max` with the given bits of precision and padding
    Encrypt { source: usize, min: usize, max: usize, precision_bits: usize, padding_bits: usize },
    /// the plain number in a ciphertext
    Decrypt(usize),
    /// the exact sum of two ciphertexts
    AddExact(usize, usize),
    /// the exact difference of two ciphertexts
    SubExact(usize, usize),
    /// a ciphertext plus a plain constant
    AddConstant(usize, Decimal),
    /// a function of the ciphertext in the first register, evaluated by a
    /// bootstrap, which also refreshes the noise; the result is encoded as
    /// the ciphertext in the last register is
    Bootstrap(usize, Func, usize),
    /// the ciphertext that a bootstrap left, switched back to the key that
    /// the other ciphertexts are under
    Keyswitch(usize),
}

/// How sums and differences of ciphertexts are kept decryptable.
#[derive(Clone, Copy, Debug, PartialEq, Eq, Structural)]
pub enum LinearPolicy {
    /// a sum or difference is the exact operation alone
    Noiseless,
    /// every sum or difference is bootstrapped through the identity
    BootstrapRefreshed,
}

impl Func {
    /// The function on real numbers.
    pub open spec fn apply(self, x: real) -> real {
        match self {
            Func::Identity => x,
            Func::QuarterSquare => x * x / 4real,
            Func::Scale(k) => x * k.value(),
            Func::Decide => if 1real / 2real + (1real / 4real) * x > 1real / 2real {
                1real
            } else {
                -1real
            },
            Func::Seed => if x > 0real {
                1real / 10000real
            } else {
                -1real / 10000real
            },
            Func::FloorMagnitude => if x.floor() >= 0 {
                x.floor() as real
            } else {
                -(x.floor() as real)
            },
            Func::Sign => if x > 0real {
                1real
            } else {
                -1real
            },
        }
    }
}

impl Op {
    /// Whether the register that the operation writes holds a ciphertext.
    pub open spec fn is_cipher(self) -> bool {
        match self {
            Op::Encrypt { .. } => true,
            Op::AddExact(_, _) => true,
            Op::SubExact(_, _) => true,
            Op::AddConstant(_, _) => true,
            Op::Bootstrap(_, _, _) => true,
            Op::Keyswitch(_) => true,
            _ => false,
        }
    }

    /// Whether the operation may follow the operations `before`: each register
    /// it reads exists and holds what the operation works on.
    pub open spec fn fits(self, before: Seq<Op>) -> bool {
        match self {
            Op::Literal(_) => true,
            Op::Input(_) => true,
            Op::Add(a, b) => plain_at(before, a) && plain_at(before, b),
            Op::Sub(a, b) => plain_at(before, a) && plain_at(before, b),
            Op::Mul(a, b) => plain_at(before, a) && plain_at(before, b),
            Op::Apply(a, _) => plain_at(before, a),
            Op::Encrypt { source, min, max, .. } => plain_at(before, source) && plain_at(
                before,
                min,
            ) && plain_at(before, max),
            Op::Decrypt(a) => cipher_at(before, a),
            Op::AddExact(a, b) => cipher_at(before, a) && cipher_at(before, b),
            Op::SubExact(a, b) => cipher_at(before, a) && cipher_at(before, b),
            Op::AddConstant(a, _) => cipher_at(before, a),
            Op::Bootstrap(a, _, like) => cipher_at(before, a) && cipher_at(before, like),
            Op::Keyswitch(a) => cipher_at(before, a),
        }
    }

    /// The number of bootstraps that the operation costs.
    pub open spec fn bootstrap_cost(self) -> nat {
        match self {
            Op::Bootstrap(_, _, _) => 1,
            _ => 0,
        }
    }
}

/// Register `r` exists among `ops` and holds a plain number.
pub open spec fn plain_at(ops: Seq<Op>, r: usize) -> bool {
    r < ops.len() && !ops[r as int].is_cipher()
}

/// Register `r` exists among `ops` and holds a ciphertext.
pub open spec fn cipher_at(ops: Seq<Op>, r: usize) -> bool {
    r < ops.len() && ops[r as int].is_cipher()
}

/// Every operation reads only registers before it, of the kind it works on.
/// In particular no plain product is ever taken of a ciphertext.
pub open spec fn well_formed(ops: Seq<Op>) -> bool {
    forall|i: int| 0 <= i < ops.len() ==> (#[trigger] ops[i]).fits(ops.take(i))
}

/// The exact number in register `r` after a run of `ops` on `inputs`.
/// Encryption, decryption and a keyswitch leave the number as it is. A register that does
/// not exist counts as zero. For a ciphertext this is the number that the
/// operations stand for: a backend holds it only where every number that is
/// encrypted lies within the range declared for it (`in_range`), and what
/// is computed from it within what the bits of the encoding can hold.
pub open spec fn value_at(ops: Seq<Op>, inputs: Seq<real>, r: int) -> real
    decreases ops.len(),
{
    if 0 <= r < ops.len() {
        let before = ops.take(r);
        match ops[r] {
            Op::Literal(d) => d.value(),
            Op::Input(k) => if k < inputs.len() {
                inputs[k as int]
            } else {
                0real
            },
            Op::Add(a, b) => value_at(before, inputs, a as int) + value_at(
                before,
                inputs,
                b as int,
            ),
            Op::Sub(a, b) => value_at(before, inputs, a as int) - value_at(
                before,
                inputs,
                b as int,
            ),
            Op::Mul(a, b) => value_at(before, inputs, a as int) * value_at(
                before,
                inputs,
                b as int,
            ),
            Op::Apply(a, f) => f.apply(value_at(before, inputs, a as int)),
            Op::Encrypt { source, .. } => value_at(before, inputs, source as int),
            Op::Decrypt(a) => value_at(before, inputs, a as int),
            Op::AddExact(a, b) => value_at(before, inputs, a as int) + value_at(
                before,
                inputs,
                b as int,
            ),
            Op::SubExact(a, b) => value_at(before, inputs, a as int) - value_at(
                before,
                inputs,
                b as int,
            ),
            Op::AddConstant(a, k) => value_at(before, inputs, a as int) + k.value(),
            Op::Bootstrap(a, f, _) => f.apply(value_at(before, inputs, a as int)),
            Op::Keyswitch(a) => value_at(before, inputs, a as int),
        }
    } else {
        0real
    }
}

/// The exact number that `op` writes when it follows the operations `before`.
pub open spec fn outcome(op: Op, before: Seq<Op>, inputs: Seq<real>) -> real {
    match op {
        Op::Literal(d) => d.value(),
        Op::Input(k) => if k < inputs.len() {
            inputs[k as int]
        } else {
            0real
        },
        Op::Add(a, b) => value_at(before, inputs, a as int) + value_at(before, inputs, b as int),
        Op::Sub(a, b) => value_at(before, inputs, a as int) - value_at(before, inputs, b as int),
        Op::Mul(a, b) => value_at(before, inputs, a as int) * value_at(before, inputs, b as int),
        Op::Apply(a, f) => f.apply(value_at(before, inputs, a as int)),
        Op::Encrypt { source, .. } => value_at(before, inputs, source as int),
        Op::Decrypt(a) => value_at(before, inputs, a as int),
        Op::AddExact(a, b) => value_at(before, inputs, a as int) + value_at(
            before,
            inputs,
            b as int,
        ),
        Op::SubExact(a, b) => value_at(before, inputs, a as int) - value_at(
            before,
            inputs,
            b as int,
        ),
        Op::AddConstant(a, k) => value_at(before, inputs, a as int) + k.value(),
        Op::Bootstrap(a, f, _) => f.apply(value_at(before, inputs, a as int)),
        Op::Keyswitch(a) => value_at(before, inputs, a as int),
    }
}

/// The number of bootstraps in a run of `ops`.
pub open spec fn bootstraps(ops: Seq<Op>) -> nat
    decreases ops.len(),
{
    if ops.len() == 0 {
        0
    } else {
        bootstraps(ops.drop_last()) + ops.last().bootstrap_cost()
    }
}

/// `new` is `old` with operations added at its end: every register of `old`
/// is still written by the same operation and holds the same number.
pub open spec fn continues(new: Seq<Op>, old: Seq<Op>) -> bool {
    &&& old.len() <= new.len()
    &&& forall|i: int| 0 <= i < old.len() ==> #[trigger] new[i] == old[i]
    &&& forall|inputs: Seq<real>, r: int|
        0 <= r < old.len() ==> #[trigger] value_at(new, inputs, r) == value_at(old, inputs, r)
}

/// A register keeps its number when operations are added after it.
pub proof fn lemma_value_stable(new: Seq<Op>, old: Seq<Op>, inputs: Seq<real>, r: int)
    requires
        old.len() <= new.len(),
        forall|i: int| 0 <= i < old.len() ==> #[trigger] new[i] == old[i],
        0 <= r < old.len(),
    ensures
        value_at(new, inputs, r) == value_at(old, inputs, r),
{
    assert(new.take(r) =~= old.take(r));
}

/// An operation that fits a well-formed program may be added to it: the
/// program stays well formed, every register keeps its number, and the new
/// register holds what the operation makes of the registers that it reads.
pub proof fn lemma_push(ops: Seq<Op>, op: Op)
    requires
        well_formed(ops),
        op.fits(ops),
    ensures
        well_formed(ops.push(op)),
        continues(ops.push(op), ops),
        forall|inputs: Seq<real>| #[trigger]
            value_at(ops.push(op), inputs, ops.len() as int) == outcome(op, ops, inputs),
        bootstraps(ops.push(op)) == bootstraps(ops) + op.bootstrap_cost(),
{
    let new = ops.push(op);
    assert(new.drop_last() =~= ops);
    assert forall|inputs: Seq<real>, q: int| 0 <= q < ops.len() implies #[trigger] value_at(
        new,
        inputs,
        q,
    ) == value_at(ops, inputs, q) by {
        lemma_value_stable(new, ops, inputs, q);
    }
}

/// In a well-formed program a register holds what its operation makes of
/// the registers that it reads.
pub proof fn lemma_value_reads(ops: Seq<Op>, inputs: Seq<real>, r: int)
    requires
        well_formed(ops),
        0 <= r < ops.len(),
    ensures
        value_at(ops, inputs, r) == outcome(ops[r], ops, inputs),
{
    let before = ops.take(r);
    assert forall|q: int| 0 <= q < r implies value_at(before, inputs, q) == value_at(
        ops,
        inputs,
        q,
    ) by {
        lemma_value_stable(ops, before, inputs, q);
    }
}

/// Whether the encryption in register `r`, if there is one, takes a number
/// within the range that it declares: from the number in its register `min`
/// to the number in its register `max`.
pub open spec fn encrypts_in_range(ops: Seq<Op>, inputs: Seq<real>, r: int) -> bool {
    ops[r] matches Op::Encrypt { source, min, max, .. } ==> value_at(ops, inputs, min as int)
        <= value_at(ops, inputs, source as int) <= value_at(ops, inputs, max as int)
}

/// Whether every encryption of a run of `ops` on `inputs` takes a number
/// within the range that it declares. `value_at` is the number that the
/// operations stand for; a ciphertext holds it only in such a run.
pub open spec fn in_range(ops: Seq<Op>, inputs: Seq<real>) -> bool {
    forall|r: int| 0 <= r < ops.len() ==> encrypts_in_range(ops, inputs, r)
}

/// A number within the declared range that is encrypted and then decrypted
/// is the number that it was: in exact terms, encryption and decryption
/// lose nothing. Of a number outside the range nothing is said.
pub proof fn lemma_round_trip(ops: Seq<Op>, inputs: Seq<real>, r: int)
    requires
        well_formed(ops),
        0 <= r < ops.len(),
        ops[r] matches Op::Decrypt(c) && ops[c as int] is Encrypt && encrypts_in_range(
            ops,
            inputs,
            c as int,
        ),
    ensures
        ops[r] matches Op::Decrypt(c) && ops[c as int] matches Op::Encrypt { source, .. }
            && value_at(ops, inputs, r) == value_at(ops, inputs, source as int),
{
    lemma_value_reads(ops, inputs, r);
    let c = ops[r]->Decrypt_0;
    lemma_value_reads(ops, inputs, c as int);
}

/// The numbers in the registers `registers`, in their order.
pub open spec fn values_at(ops: Seq<Op>, inputs: Seq<real>, registers: Seq<usize>) -> Seq<real> {
    Seq::new(registers.len(), |i: int| value_at(ops, inputs, registers[i] as int))
}

/// A list of operations in the making.
#[derive(Debug)]
pub struct Program {
    ops: Vec<Op>,
    policy: LinearPolicy,
    with_ks: bool,
}

impl View for Program {
    type V = Seq<Op>;

    /// The operations of the program, in their order.
    closed spec fn view(&self) -> Seq<Op> {
        self.ops@
    }
}

impl Program {
    /// The policy that the program was begun with.
    pub closed spec fn linear_policy(&self) -> LinearPolicy {
        self.policy
    }

    /// Whether the program was begun with keyswitching: whether every
    /// bootstrap is followed by a keyswitch.
    pub closed spec fn keyswitching(&self) -> bool {
        self.with_ks
    }

    /// The program is well formed: see `well_formed`.
    pub open spec fn wf(&self) -> bool {
        well_formed(self@)
    }

    /// Register `r` of the program holds a plain number.
    pub open spec fn holds_plain(&self, r: usize) -> bool {
        plain_at(self@, r)
    }

    /// Register `r` of the program holds a ciphertext.
    pub open spec fn holds_cipher(&self, r: usize) -> bool {
        cipher_at(self@, r)
    }

    /// The program is well formed, and is `before` with operations added at
    /// its end, under the same policy and with or without keyswitching as
    /// before.
    pub open spec fn follows(&self, before: Program) -> bool {
        &&& self.wf()
        &&& continues(self@, before@)
        &&& self.linear_policy() == before.linear_policy()
        &&& self.keyswitching() == before.keyswitching()
    }

    /// The number of bootstraps that sums and differences of ciphertexts cost
    /// under the program's policy.
    pub open spec fn refresh_cost(&self) -> nat {
        match self.linear_policy() {
            LinearPolicy::Noiseless => 0,
            LinearPolicy::BootstrapRefreshed => 1,
        }
    }

    /// The empty program, with the policy for sums and differences of
    /// ciphertexts, and with or without a keyswitch after every bootstrap.
    pub fn new(policy: LinearPolicy, with_ks: bool) -> (program: Program)
        ensures
            program@ == Seq::<Op>::empty(),
            program.wf(),
            program.linear_policy() == policy,
            program.keyswitching() == with_ks,
    {
        Program { ops: Vec::new(), policy, with_ks }
    }

    /// The number of operations, which is also the number of registers.
    pub fn len(&self) -> (n: usize)
        ensures
            n == self@.len(),
    {
        self.ops.len()
    }

    /// Operation number `r`.
    pub fn op(&self, r: usize) -> (op: Op)
        requires
            r < self@.len(),
        ensures
            op == self@[r as int],
    {
        self.ops[r]
    }

    /// The program's policy for sums and differences of ciphertexts.
    pub fn policy(&self) -> (policy: LinearPolicy)
        ensures
            policy == self.linear_policy(),
    {
        self.policy
    }

    /// Whether every bootstrap of the program is followed by a keyswitch.
    pub fn with_ks(&self) -> (with_ks: bool)
        ensures
            with_ks == self.keyswitching(),
    {
        self.with_ks
    }

    /// Whether register `r` exists and holds a ciphertext.
    pub fn is_cipher(&self, r: usize) -> (cipher: bool)
        ensures
            cipher == self.holds_cipher(r),
    {
        if r >= self.ops.len() {
            return false;
        }
        match self.ops[r] {
            Op::Encrypt { .. } => true,
            Op::AddExact(_, _) => true,
            Op::SubExact(_, _) => true,
            Op::AddConstant(_, _) => true,
            Op::Bootstrap(_, _, _) => true,
            Op::Keyswitch(_) => true,
            _ => false,
        }
    }

    /// Whether register `r` exists and holds a plain number.
    pub fn is_plain(&self, r: usize) -> (plain: bool)
        ensures
            plain == self.holds_plain(r),
    {
        r < self.ops.len() && !self.is_cipher(r)
    }

    /// Whether `op` may be added to the program: whether each register that
    /// it reads exists and holds what the operation works on.
    pub fn admits(&self, op: Op) -> (fits: bool)
        ensures
            fits == op.fits(self@),
    {
        match op {
            Op::Literal(_) => true,
            Op::Input(_) => true,
            Op::Add(a, b) => self.is_plain(a) && self.is_plain(b),
            Op::Sub(a, b) => self.is_plain(a) && self.is_plain(b),
            Op::Mul(a, b) => self.is_plain(a) && self.is_plain(b),
            Op::Apply(a, _) => self.is_plain(a),
            Op::Encrypt { source, min, max, .. } => self.is_plain(source) && self.is_plain(min)
                && self.is_plain(max),
            Op::Decrypt(a) => self.is_cipher(a),
            Op::AddExact(a, b) => self.is_cipher(a) && self.is_cipher(b),
            Op::SubExact(a, b) => self.is_cipher(a) && self.is_cipher(b),
            Op::AddConstant(a, _) => self.is_cipher(a),
            Op::Bootstrap(a, _, like) => self.is_cipher(a) && self.is_cipher(like),
            Op::Keyswitch(a) => self.is_cipher(a),
        }
    }

    /// Adds `op` at the end of the program and returns the register that it
    /// writes.
    pub fn emit(&mut self, op: Op) -> (r: usize)
        requires
            old(self).wf(),
            op.fits(old(self)@),
        ensures
            final(self).wf(),
            final(self)@ == old(self)@.push(op),
            r == old(self)@.len(),
            continues(final(self)@, old(self)@),
            final(self).linear_policy() == old(self).linear_policy(),
            final(self).keyswitching() == old(self).keyswitching(),
            forall|inputs: Seq<real>| #[trigger]
                value_at(final(self)@, inputs, r as int) == outcome(op, old(self)@, inputs),
            bootstraps(final(self)@) == bootstraps(old(self)@) + op.bootstrap_cost(),
    {
        let r = self.ops.len();
        self.ops.push(op);
        proof {
            lemma_push(old(self)@, op);
        }
        r
    }
}

} // verus!
