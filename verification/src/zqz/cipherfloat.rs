//! One encrypted number.
use crate::algebra::{computes, Binary, Domain};
use crate::number::Decimal;
use crate::program::{
    bootstraps, cipher_at, continues, lemma_push, value_at, well_formed,
    Func, LinearPolicy, Op, Program,
};
use vstd::prelude::*;

verus! {

/// An encrypted number: the register of a program that holds its ciphertext.
/// An operation on it adds to the program and returns a new number; the
/// operands stay as they are.
#[derive(Clone, Copy, Debug)]
pub struct Cipherfloat {
    pub register: usize,
}

/// A product is a difference of two squares: `(a+b)²/4 − (a−b)²/4 = a·b`.
pub proof fn lemma_product_by_squares(a: real, b: real)
    ensures
        (a + b) * (a + b) / 4real - (a - b) * (a - b) / 4real == a * b,
{
    assert((a + b) * (a + b) / 4real - (a - b) * (a - b) / 4real == a * b) by (nonlinear_arith);
}

/// The number of operations of a bootstrap: two with keyswitching, one
/// without.
pub open spec fn bootstrap_len(with_ks: bool) -> int {
    if with_ks {
        2
    } else {
        1
    }
}

/// The operations of the bootstrap of the ciphertext in `a` through `func`,
/// written from register `at` on: the bootstrap, whose result is encoded as
/// the ciphertext in `like` is, and with keyswitching the keyswitch of what
/// it left.
pub open spec fn bootstrap_ops(a: usize, func: Func, like: usize, at: int, with_ks: bool) -> Seq<
    Op,
> {
    if with_ks {
        seq![Op::Bootstrap(a, func, like), Op::Keyswitch(at as usize)]
    } else {
        seq![Op::Bootstrap(a, func, like)]
    }
}

/// Register `d` holds what the bootstrap of the ciphertext in `a` through
/// `func` left, encoded as the ciphertext in `like` is: it is written by
/// that bootstrap, or by the keyswitch of what that bootstrap left.
pub open spec fn bootstrapped_at(ops: Seq<Op>, d: int, a: usize, func: Func, like: usize) -> bool {
    &&& 0 <= d < ops.len()
    &&& ops[d] == Op::Bootstrap(a, func, like) || (d >= 1 && ops[d] == Op::Keyswitch(
        (d - 1) as usize,
    ) && ops[d - 1] == Op::Bootstrap(a, func, like))
}

/// What follows a sum or difference in register `r`, the last register so
/// far: under the refreshing policy its bootstrap through the identity,
/// encoded as the ciphertext in `like` is, else nothing.
pub open spec fn refresh_ops(r: int, like: usize, policy: LinearPolicy, with_ks: bool) -> Seq<Op> {
    match policy {
        LinearPolicy::Noiseless => Seq::empty(),
        LinearPolicy::BootstrapRefreshed => bootstrap_ops(
            r as usize,
            Func::Identity,
            like,
            r + 1,
            with_ks,
        ),
    }
}

/// The operations of the product of the ciphertexts in `a` and `b`, written
/// from register `at` on: their sum, their difference, the bootstrap of each
/// through `x²/4`, and the difference of the two results, refreshed where
/// the policy asks for it. Every bootstrap encodes its result as the
/// ciphertext in `a` is.
pub open spec fn product_ops(
    a: usize,
    b: usize,
    at: int,
    policy: LinearPolicy,
    with_ks: bool,
) -> Seq<Op> {
    let k = bootstrap_len(with_ks);
    seq![Op::AddExact(a, b), Op::SubExact(a, b)] + bootstrap_ops(
        at as usize,
        Func::QuarterSquare,
        a,
        at + 2,
        with_ks,
    ) + bootstrap_ops((at + 1) as usize, Func::QuarterSquare, a, at + 2 + k, with_ks) + seq![
        Op::SubExact((at + 1 + k) as usize, (at + 1 + 2 * k) as usize),
    ] + refresh_ops(at + 2 + 2 * k, a, policy, with_ks)
}

/// The operations of a product, added group by group, are `product_ops`.
proof fn lemma_product_ops(
    start: Seq<Op>,
    summed: Seq<Op>,
    first: Seq<Op>,
    second: Seq<Op>,
    subtracted: Seq<Op>,
    end: Seq<Op>,
    a: usize,
    b: usize,
    policy: LinearPolicy,
    with_ks: bool,
)
    requires
        end.len() - 1 <= usize::MAX,
        summed == start.push(Op::AddExact(a, b)).push(Op::SubExact(a, b)),
        first == summed + bootstrap_ops(
            start.len() as usize,
            Func::QuarterSquare,
            a,
            summed.len() as int,
            with_ks,
        ),
        second == first + bootstrap_ops(
            (start.len() + 1) as usize,
            Func::QuarterSquare,
            a,
            first.len() as int,
            with_ks,
        ),
        subtracted == second.push(
            Op::SubExact((first.len() - 1) as usize, (second.len() - 1) as usize),
        ),
        end == subtracted + refresh_ops(subtracted.len() - 1, a, policy, with_ks),
    ensures
        end == start + product_ops(a, b, start.len() as int, policy, with_ks),
{
    let at = start.len() as int;
    let k = bootstrap_len(with_ks);
    assert(first.len() == at + 2 + k);
    assert(end =~= start + product_ops(a, b, at, policy, with_ks));
}

/// What the operations of a bootstrap leave, in exact terms: added to a
/// well-formed program they leave it well formed, and the last register
/// holds the function of the number.
pub proof fn lemma_bootstrap_value(
    start: Seq<Op>,
    a: usize,
    func: Func,
    like: usize,
    with_ks: bool,
)
    requires
        well_formed(start),
        cipher_at(start, a),
        cipher_at(start, like),
        start.len() + 1 <= usize::MAX,
    ensures
        ({
            let ops = start + bootstrap_ops(a, func, like, start.len() as int, with_ks);
            &&& well_formed(ops)
            &&& continues(ops, start)
            &&& cipher_at(ops, (ops.len() - 1) as usize)
            &&& forall|inputs: Seq<real>| #[trigger]
                value_at(ops, inputs, ops.len() - 1) == func.apply(
                    value_at(start, inputs, a as int),
                )
        }),
{
    let ops = start + bootstrap_ops(a, func, like, start.len() as int, with_ks);
    let first = start.push(Op::Bootstrap(a, func, like));
    lemma_push(start, Op::Bootstrap(a, func, like));
    if with_ks {
        let switch = Op::Keyswitch(start.len() as usize);
        lemma_push(first, switch);
        assert(first.push(switch) =~= ops);
    } else {
        assert(first =~= ops);
    }
}

/// What the operations after a sum or difference leave, in exact terms:
/// refreshed or not, the last register holds the number that the last
/// register held.
pub proof fn lemma_refresh_value(start: Seq<Op>, like: usize, policy: LinearPolicy, with_ks: bool)
    requires
        well_formed(start),
        start.len() >= 1,
        cipher_at(start, (start.len() - 1) as usize),
        cipher_at(start, like),
        start.len() + 1 <= usize::MAX,
    ensures
        ({
            let ops = start + refresh_ops(start.len() - 1, like, policy, with_ks);
            &&& well_formed(ops)
            &&& continues(ops, start)
            &&& cipher_at(ops, (ops.len() - 1) as usize)
            &&& forall|inputs: Seq<real>| #[trigger]
                value_at(ops, inputs, ops.len() - 1) == value_at(start, inputs, start.len() - 1)
        }),
{
    if policy is BootstrapRefreshed {
        lemma_bootstrap_value(start, (start.len() - 1) as usize, Func::Identity, like, with_ks);
    }
}

/// The sum and the difference of two ciphertexts, one after the other.
proof fn lemma_sum_and_difference(start: Seq<Op>, a: usize, b: usize)
    requires
        well_formed(start),
        cipher_at(start, a),
        cipher_at(start, b),
        start.len() + 1 <= usize::MAX,
    ensures
        ({
            let ops = start.push(Op::AddExact(a, b)).push(Op::SubExact(a, b));
            &&& well_formed(ops)
            &&& continues(ops, start)
            &&& cipher_at(ops, start.len() as usize)
            &&& cipher_at(ops, (start.len() + 1) as usize)
            &&& forall|inputs: Seq<real>| #[trigger]
                value_at(ops, inputs, start.len() as int) == value_at(start, inputs, a as int)
                    + value_at(start, inputs, b as int)
            &&& forall|inputs: Seq<real>| #[trigger]
                value_at(ops, inputs, start.len() as int + 1) == value_at(start, inputs, a as int)
                    - value_at(start, inputs, b as int)
        }),
{
    let s1 = start.push(Op::AddExact(a, b));
    lemma_push(start, Op::AddExact(a, b));
    lemma_push(s1, Op::SubExact(a, b));
    let ops = s1.push(Op::SubExact(a, b));
    assert forall|inputs: Seq<real>| #[trigger]
        value_at(ops, inputs, start.len() as int) == value_at(start, inputs, a as int)
            + value_at(start, inputs, b as int) by {
    }
}

/// The bootstraps of two ciphertexts through one function, one after the
/// other.
proof fn lemma_two_bootstraps(
    start: Seq<Op>,
    p: usize,
    q: usize,
    func: Func,
    like: usize,
    with_ks: bool,
)
    requires
        well_formed(start),
        cipher_at(start, p),
        cipher_at(start, q),
        cipher_at(start, like),
        start.len() + 3 <= usize::MAX,
    ensures
        ({
            let first = start + bootstrap_ops(p, func, like, start.len() as int, with_ks);
            let ops = first + bootstrap_ops(q, func, like, first.len() as int, with_ks);
            &&& well_formed(ops)
            &&& continues(ops, start)
            &&& cipher_at(ops, (first.len() - 1) as usize)
            &&& cipher_at(ops, (ops.len() - 1) as usize)
            &&& forall|inputs: Seq<real>| #[trigger]
                value_at(ops, inputs, first.len() - 1) == func.apply(
                    value_at(start, inputs, p as int),
                )
            &&& forall|inputs: Seq<real>| #[trigger]
                value_at(ops, inputs, ops.len() - 1) == func.apply(
                    value_at(start, inputs, q as int),
                )
        }),
{
    let first = start + bootstrap_ops(p, func, like, start.len() as int, with_ks);
    lemma_bootstrap_value(start, p, func, like, with_ks);
    let ops = first + bootstrap_ops(q, func, like, first.len() as int, with_ks);
    lemma_bootstrap_value(first, q, func, like, with_ks);
    assert forall|inputs: Seq<real>| #[trigger]
        value_at(ops, inputs, first.len() - 1) == func.apply(
            value_at(start, inputs, p as int),
        ) by {
    }
}

/// The difference of two ciphertexts, refreshed where the policy asks for
/// it.
proof fn lemma_refreshed_difference(
    start: Seq<Op>,
    p: usize,
    q: usize,
    like: usize,
    policy: LinearPolicy,
    with_ks: bool,
)
    requires
        well_formed(start),
        cipher_at(start, p),
        cipher_at(start, q),
        cipher_at(start, like),
        start.len() + 2 <= usize::MAX,
    ensures
        ({
            let ops = start.push(Op::SubExact(p, q)) + refresh_ops(
                start.len() as int,
                like,
                policy,
                with_ks,
            );
            &&& well_formed(ops)
            &&& continues(ops, start)
            &&& cipher_at(ops, (ops.len() - 1) as usize)
            &&& forall|inputs: Seq<real>| #[trigger]
                value_at(ops, inputs, ops.len() - 1) == value_at(start, inputs, p as int)
                    - value_at(start, inputs, q as int)
        }),
{
    let s1 = start.push(Op::SubExact(p, q));
    lemma_push(start, Op::SubExact(p, q));
    lemma_refresh_value(s1, like, policy, with_ks);
}

/// What the operations of a product leave, in exact terms: added to a
/// well-formed program they leave it well formed, and the last register
/// holds the product of the two numbers.
#[verifier::spinoff_prover]
#[verifier::rlimit(50)]
pub proof fn lemma_product_value(
    start: Seq<Op>,
    a: usize,
    b: usize,
    policy: LinearPolicy,
    with_ks: bool,
)
    requires
        well_formed(start),
        cipher_at(start, a),
        cipher_at(start, b),
        start.len() + 9 <= usize::MAX,
    ensures
        ({
            let ops = start + product_ops(a, b, start.len() as int, policy, with_ks);
            &&& well_formed(ops)
            &&& continues(ops, start)
            &&& cipher_at(ops, (ops.len() - 1) as usize)
            &&& forall|inputs: Seq<real>| #[trigger]
                value_at(ops, inputs, ops.len() - 1) == value_at(start, inputs, a as int)
                    * value_at(start, inputs, b as int)
        }),
{
    let n = start.len() as int;
    let s2 = start.push(Op::AddExact(a, b)).push(Op::SubExact(a, b));
    let s3 = s2 + bootstrap_ops(n as usize, Func::QuarterSquare, a, s2.len() as int, with_ks);
    let s4 = s3 + bootstrap_ops(
        (n + 1) as usize,
        Func::QuarterSquare,
        a,
        s3.len() as int,
        with_ks,
    );
    let p = (s3.len() - 1) as usize;
    let q = (s4.len() - 1) as usize;
    let s5 = s4.push(Op::SubExact(p, q));
    let s6 = s5 + refresh_ops(s4.len() as int, a, policy, with_ks);
    assert(s6 == start + product_ops(a, b, n, policy, with_ks)) by {
        let k = bootstrap_len(with_ks);
        assert(s2.len() == n + 2);
        assert(s4.len() == n + 2 + 2 * k);
        assert(s5.len() - 1 == s4.len());
        assert(s6.len() <= n + 5 + 2 * k);
    }
    assert(well_formed(s2) && cipher_at(s2, n as usize) && cipher_at(s2, (n + 1) as usize)
        && cipher_at(s2, a) && continues(s2, start)) by {
        lemma_sum_and_difference(start, a, b);
    }
    assert(well_formed(s4) && cipher_at(s4, p) && cipher_at(s4, q) && cipher_at(s4, a)
        && continues(s4, s2)) by {
        lemma_two_bootstraps(s2, n as usize, (n + 1) as usize, Func::QuarterSquare, a, with_ks);
    }
    assert(well_formed(s6) && cipher_at(s6, (s6.len() - 1) as usize) && continues(s6, s4)) by {
        lemma_refreshed_difference(s4, p, q, a, policy, with_ks);
    }
    assert forall|inputs: Seq<real>| #[trigger]
        value_at(s6, inputs, s6.len() - 1) == value_at(start, inputs, a as int) * value_at(
            start,
            inputs,
            b as int,
        ) by {
        let x = value_at(start, inputs, a as int);
        let y = value_at(start, inputs, b as int);
        assert(value_at(s2, inputs, n) == x + y && value_at(s2, inputs, n + 1) == x - y) by {
            lemma_sum_and_difference(start, a, b);
        }
        assert(value_at(s4, inputs, p as int) == (x + y) * (x + y) / 4real && value_at(
            s4,
            inputs,
            q as int,
        ) == (x - y) * (x - y) / 4real) by {
            lemma_two_bootstraps(
                s2,
                n as usize,
                (n + 1) as usize,
                Func::QuarterSquare,
                a,
                with_ks,
            );
        }
        assert(value_at(s6, inputs, s6.len() - 1) == (x + y) * (x + y) / 4real - (x - y) * (x
            - y) / 4real) by {
            lemma_refreshed_difference(s4, p, q, a, policy, with_ks);
        }
        lemma_product_by_squares(x, y);
    }
}

/// The operations of the sum, difference or product of the ciphertexts in
/// `a` and `b`, written from register `at` on.
#[verifier::opaque]
pub open spec fn binary_ops(
    op: Binary,
    a: usize,
    b: usize,
    at: int,
    policy: LinearPolicy,
    with_ks: bool,
) -> Seq<Op> {
    match op {
        Binary::Add => seq![Op::AddExact(a, b)] + refresh_ops(at, a, policy, with_ks),
        Binary::Sub => seq![Op::SubExact(a, b)] + refresh_ops(at, a, policy, with_ks),
        Binary::Mul => product_ops(a, b, at, policy, with_ks),
    }
}

/// What the operations of a sum, difference or product leave, in exact
/// terms: added to a well-formed program they leave it well formed, and the
/// last register holds the sum, difference or product of the two numbers.
pub proof fn lemma_binary_value(
    start: Seq<Op>,
    a: usize,
    b: usize,
    op: Binary,
    policy: LinearPolicy,
    with_ks: bool,
)
    requires
        well_formed(start),
        cipher_at(start, a),
        cipher_at(start, b),
        start.len() + 9 <= usize::MAX,
    ensures
        ({
            let ops = start + binary_ops(op, a, b, start.len() as int, policy, with_ks);
            &&& well_formed(ops)
            &&& start.len() < ops.len() <= start.len() + 9
            &&& continues(ops, start)
            &&& cipher_at(ops, (ops.len() - 1) as usize)
            &&& forall|inputs: Seq<real>| #[trigger]
                value_at(ops, inputs, ops.len() - 1) == op.apply(
                    value_at(start, inputs, a as int),
                    value_at(start, inputs, b as int),
                )
        }),
{
    reveal(binary_ops);
    let n = start.len() as int;
    match op {
        Binary::Add => {
            let s1 = start.push(Op::AddExact(a, b));
            let ops = s1 + refresh_ops(n, a, policy, with_ks);
            assert(ops =~= start + binary_ops(op, a, b, n, policy, with_ks));
            lemma_push(start, Op::AddExact(a, b));
            lemma_refresh_value(s1, a, policy, with_ks);
        },
        Binary::Sub => {
            let ops = start.push(Op::SubExact(a, b)) + refresh_ops(n, a, policy, with_ks);
            assert(ops =~= start + binary_ops(op, a, b, n, policy, with_ks));
            lemma_refreshed_difference(start, a, b, a, policy, with_ks);
        },
        Binary::Mul => {
            lemma_product_value(start, a, b, policy, with_ks);
        },
    }
}

impl Cipherfloat {
    /// The number is a ciphertext of `program`.
    pub open spec fn within(&self, program: Program) -> bool {
        program.holds_cipher(self.register)
    }

    /// Bootstraps the sum or difference in the last register through the
    /// identity where the program's policy asks for it, to the encoding of
    /// `like`.
    fn refresh(&self, like: &Cipherfloat, program: &mut Program) -> (fresh: Cipherfloat)
        requires
            old(program).wf(),
            self.within(*old(program)),
            like.within(*old(program)),
            self.register == old(program)@.len() - 1,
        ensures
            computes(*final(program), *old(program), Domain::Cipher),
            final(program)@ == old(program)@ + refresh_ops(
                self.register as int,
                like.register,
                old(program).linear_policy(),
                old(program).keyswitching(),
            ),
            fresh.within(*final(program)),
            fresh.register == final(program)@.len() - 1,
            forall|inputs: Seq<real>| #[trigger]
                value_at(final(program)@, inputs, fresh.register as int) == value_at(
                    old(program)@,
                    inputs,
                    self.register as int,
                ),
            bootstraps(final(program)@) == bootstraps(old(program)@) + old(
                program,
            ).refresh_cost(),
    {
        match program.policy() {
            LinearPolicy::Noiseless => *self,
            LinearPolicy::BootstrapRefreshed => self.bootstrap(Func::Identity, like, program),
        }
    }

    /// The function `func` of the number, by one bootstrap, followed by a
    /// keyswitch where the program was begun with keyswitching. The result
    /// is encoded as `like` is.
    pub fn bootstrap(&self, func: Func, like: &Cipherfloat, program: &mut Program) -> (image:
        Cipherfloat)
        requires
            old(program).wf(),
            self.within(*old(program)),
            like.within(*old(program)),
        ensures
            computes(*final(program), *old(program), Domain::Cipher),
            final(program)@ == old(program)@ + bootstrap_ops(
                self.register,
                func,
                like.register,
                old(program)@.len() as int,
                old(program).keyswitching(),
            ),
            image.within(*final(program)),
            image.register == final(program)@.len() - 1,
            bootstrapped_at(
                final(program)@,
                image.register as int,
                self.register,
                func,
                like.register,
            ),
            forall|inputs: Seq<real>| #[trigger]
                value_at(final(program)@, inputs, image.register as int) == func.apply(
                    value_at(old(program)@, inputs, self.register as int),
                ),
            bootstraps(final(program)@) == bootstraps(old(program)@) + 1,
    {
        let res = program.emit(Op::Bootstrap(self.register, func, like.register));
        if program.with_ks() {
            let res_ks = program.emit(Op::Keyswitch(res));
            Cipherfloat { register: res_ks }
        } else {
            Cipherfloat { register: res }
        }
    }

    /// The function `func` of the number, by one bootstrap, followed by a
    /// keyswitch where the program was begun with keyswitching. The result
    /// is encoded as the number itself is.
    pub fn bs_ks(&self, func: Func, program: &mut Program) -> (image: Cipherfloat)
        requires
            old(program).wf(),
            self.within(*old(program)),
        ensures
            computes(*final(program), *old(program), Domain::Cipher),
            final(program)@ == old(program)@ + bootstrap_ops(
                self.register,
                func,
                self.register,
                old(program)@.len() as int,
                old(program).keyswitching(),
            ),
            image.within(*final(program)),
            image.register == final(program)@.len() - 1,
            bootstrapped_at(
                final(program)@,
                image.register as int,
                self.register,
                func,
                self.register,
            ),
            forall|inputs: Seq<real>| #[trigger]
                value_at(final(program)@, inputs, image.register as int) == func.apply(
                    value_at(old(program)@, inputs, self.register as int),
                ),
            bootstraps(final(program)@) == bootstraps(old(program)@) + 1,
    {
        self.bootstrap(func, self, program)
    }

    /// The sum of two encrypted numbers: the exact sum, refreshed where the
    /// policy asks for it.
    pub fn add(&self, other: &Cipherfloat, program: &mut Program) -> (sum: Cipherfloat)
        requires
            old(program).wf(),
            self.within(*old(program)),
            other.within(*old(program)),
        ensures
            computes(*final(program), *old(program), Domain::Cipher),
            final(program)@ == old(program)@.push(Op::AddExact(self.register, other.register))
                + refresh_ops(
                old(program)@.len() as int,
                self.register,
                old(program).linear_policy(),
                old(program).keyswitching(),
            ),
            sum.within(*final(program)),
            sum.register == final(program)@.len() - 1,
            forall|inputs: Seq<real>| #[trigger]
                value_at(final(program)@, inputs, sum.register as int) == value_at(
                    old(program)@,
                    inputs,
                    self.register as int,
                ) + value_at(old(program)@, inputs, other.register as int),
            bootstraps(final(program)@) == bootstraps(old(program)@) + old(
                program,
            ).refresh_cost(),
    {
        let register = program.emit(Op::AddExact(self.register, other.register));
        Cipherfloat { register }.refresh(self, program)
    }

    /// The encrypted number plus the plain constant `k`: exact, without a
    /// bootstrap under either policy.
    pub fn add_constant(&self, k: Decimal, program: &mut Program) -> (sum: Cipherfloat)
        requires
            old(program).wf(),
            self.within(*old(program)),
        ensures
            computes(*final(program), *old(program), Domain::Cipher),
            final(program)@ == old(program)@.push(Op::AddConstant(self.register, k)),
            sum.within(*final(program)),
            sum.register == old(program)@.len(),
            forall|inputs: Seq<real>| #[trigger]
                value_at(final(program)@, inputs, sum.register as int) == value_at(
                    old(program)@,
                    inputs,
                    self.register as int,
                ) + k.value(),
            bootstraps(final(program)@) == bootstraps(old(program)@),
    {
        let register = program.emit(Op::AddConstant(self.register, k));
        Cipherfloat { register }
    }

    /// The difference of two encrypted numbers: the exact difference,
    /// refreshed where the policy asks for it.
    pub fn sub(&self, other: &Cipherfloat, program: &mut Program) -> (difference: Cipherfloat)
        requires
            old(program).wf(),
            self.within(*old(program)),
            other.within(*old(program)),
        ensures
            computes(*final(program), *old(program), Domain::Cipher),
            final(program)@ == old(program)@.push(Op::SubExact(self.register, other.register))
                + refresh_ops(
                old(program)@.len() as int,
                self.register,
                old(program).linear_policy(),
                old(program).keyswitching(),
            ),
            difference.within(*final(program)),
            difference.register == final(program)@.len() - 1,
            forall|inputs: Seq<real>| #[trigger]
                value_at(final(program)@, inputs, difference.register as int) == value_at(
                    old(program)@,
                    inputs,
                    self.register as int,
                ) - value_at(old(program)@, inputs, other.register as int),
            bootstraps(final(program)@) == bootstraps(old(program)@) + old(
                program,
            ).refresh_cost(),
    {
        let register = program.emit(Op::SubExact(self.register, other.register));
        Cipherfloat { register }.refresh(self, program)
    }

    /// The encrypted number minus the plain constant `k`: the sum with `-k`.
    pub fn sub_constant(&self, k: Decimal, program: &mut Program) -> (difference: Cipherfloat)
        requires
            old(program).wf(),
            self.within(*old(program)),
        ensures
            computes(*final(program), *old(program), Domain::Cipher),
            final(program)@ == old(program)@.push(
                Op::AddConstant(
                    self.register,
                    Decimal { negative: !k.negative, digits: k.digits, scale: k.scale },
                ),
            ),
            difference.within(*final(program)),
            difference.register == old(program)@.len(),
            forall|inputs: Seq<real>| #[trigger]
                value_at(final(program)@, inputs, difference.register as int) == value_at(
                    old(program)@,
                    inputs,
                    self.register as int,
                ) - k.value(),
            bootstraps(final(program)@) == bootstraps(old(program)@),
    {
        self.add_constant(k.negated(), program)
    }

    /// The product of two encrypted numbers. The backend cannot multiply two
    /// ciphertexts, so the product is made of their sum and their difference,
    /// each bootstrapped through `x²/4`, and the difference of the two
    /// results: two bootstraps, and the refresh of that last difference where
    /// the policy asks for it.
    #[verifier::spinoff_prover]
    #[verifier::rlimit(50)]
    pub fn mul(&self, other: &Cipherfloat, program: &mut Program) -> (product: Cipherfloat)
        requires
            old(program).wf(),
            self.within(*old(program)),
            other.within(*old(program)),
        ensures
            computes(*final(program), *old(program), Domain::Cipher),
            final(program)@ == old(program)@ + product_ops(
                self.register,
                other.register,
                old(program)@.len() as int,
                old(program).linear_policy(),
                old(program).keyswitching(),
            ),
            product.within(*final(program)),
            product.register == final(program)@.len() - 1,
            forall|inputs: Seq<real>| #[trigger]
                value_at(final(program)@, inputs, product.register as int) == value_at(
                    old(program)@,
                    inputs,
                    self.register as int,
                ) * value_at(old(program)@, inputs, other.register as int),
            bootstraps(final(program)@) == bootstraps(old(program)@) + 2 + old(
                program,
            ).refresh_cost(),
    {
        let ghost start = *program;
        let posi = program.emit(Op::AddExact(self.register, other.register));
        let nega = program.emit(Op::SubExact(self.register, other.register));
        let ghost p2 = *program;
        let res_posi = Cipherfloat { register: posi }.bootstrap(
            Func::QuarterSquare,
            self,
            program,
        );
        let ghost p3 = *program;
        let res_nega = Cipherfloat { register: nega }.bootstrap(
            Func::QuarterSquare,
            self,
            program,
        );
        let ghost p4 = *program;
        let register = program.emit(Op::SubExact(res_posi.register, res_nega.register));
        let ghost p5 = *program;
        let product = Cipherfloat { register }.refresh(self, program);
        proof {
            lemma_product_ops(
                start@,
                p2@,
                p3@,
                p4@,
                p5@,
                program@,
                self.register,
                other.register,
                start.linear_policy(),
                start.keyswitching(),
            );
        }
        proof {
            assert forall|inputs: Seq<real>| #[trigger]
                value_at(program@, inputs, product.register as int) == value_at(
                    old(program)@,
                    inputs,
                    self.register as int,
                ) * value_at(old(program)@, inputs, other.register as int) by {
                let a = value_at(old(program)@, inputs, self.register as int);
                let b = value_at(old(program)@, inputs, other.register as int);
                lemma_product_by_squares(a, b);
                assert(value_at(p2@, inputs, posi as int) == a + b);
                assert(value_at(p3@, inputs, res_posi.register as int) == (a + b) * (a + b)
                    / 4real);
            }
        }
        product
    }

    /// The encrypted number times the plain constant `k`, by one bootstrap,
    /// which scales and refreshes at once.
    pub fn mul_constant(&self, k: Decimal, program: &mut Program) -> (product: Cipherfloat)
        requires
            old(program).wf(),
            self.within(*old(program)),
        ensures
            computes(*final(program), *old(program), Domain::Cipher),
            final(program)@ == old(program)@ + bootstrap_ops(
                self.register,
                Func::Scale(k),
                self.register,
                old(program)@.len() as int,
                old(program).keyswitching(),
            ),
            product.within(*final(program)),
            product.register == final(program)@.len() - 1,
            forall|inputs: Seq<real>| #[trigger]
                value_at(final(program)@, inputs, product.register as int) == value_at(
                    old(program)@,
                    inputs,
                    self.register as int,
                ) * k.value(),
            bootstraps(final(program)@) == bootstraps(old(program)@) + 1,
    {
        self.bs_ks(Func::Scale(k), program)
    }
}

} // verus!
