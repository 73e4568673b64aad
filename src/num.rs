//! Exact decimal numbers.
//!
//! Scene files write their numbers in decimal text. A `Dec` keeps such a
//! number exactly, as a mantissa and a count of fractional digits, so that
//! sums and products of scene values are exact and transform composition is
//! associative.
use vstd::prelude::*;

verus! {

/// Largest number of fractional digits a `Dec` carries.
pub const MAX_EXP: u32 = 18;

/// Largest magnitude of a `Dec` mantissa.
pub const MAX_MANT: i64 = 9223372036854775807;

/// `10^n`.
pub open spec fn pow10(n: nat) -> int
    decreases n,
{
    if n == 0 {
        1
    } else {
        10 * pow10((n - 1) as nat)
    }
}

/// The exact value `m / 10^e`, with no bound on either part.
pub struct Q {
    pub m: int,
    pub e: nat,
}

pub open spec fn max_nat(a: nat, b: nat) -> nat {
    if a >= b {
        a
    } else {
        b
    }
}

/// Sum as written: both operands brought to the larger digit count, then
/// added.
pub open spec fn raw_add(a: Q, b: Q) -> Q {
    let e = max_nat(a.e, b.e);
    Q { m: a.m * pow10((e - a.e) as nat) + b.m * pow10((e - b.e) as nat), e }
}

/// Product as written: mantissas and digit counts multiplied and added.
pub open spec fn raw_mul(a: Q, b: Q) -> Q {
    Q { m: a.m * b.m, e: a.e + b.e }
}

/// `a` with its trailing zero fractional digits dropped.
pub open spec fn q_norm(a: Q) -> Q
    decreases a.e,
{
    if a.e > 0 && a.m % 10 == 0 {
        q_norm(Q { m: a.m / 10, e: (a.e - 1) as nat })
    } else {
        a
    }
}

/// Whether `a` has no trailing zero fractional digit.
pub open spec fn is_norm(a: Q) -> bool {
    a.e == 0 || a.m % 10 != 0
}

/// Whether `a` and `b` are the same number.
pub open spec fn q_eqv(a: Q, b: Q) -> bool {
    a.m * pow10(b.e) == b.m * pow10(a.e)
}

/// `a` written with `k` fractional digits (for `k >= a.e`), as an integer.
pub open spec fn scaled(a: Q, k: nat) -> int {
    a.m * pow10((k - a.e) as nat)
}

/// Sum, in normal form.
pub open spec fn q_add(a: Q, b: Q) -> Q {
    q_norm(raw_add(a, b))
}

/// Product, in normal form.
pub open spec fn q_mul(a: Q, b: Q) -> Q {
    q_norm(raw_mul(a, b))
}

pub open spec fn q_neg(a: Q) -> Q {
    Q { m: -a.m, e: a.e }
}

/// Half of `a`: `a * 0.5`, in normal form.
pub open spec fn q_half(a: Q) -> Q {
    q_norm(Q { m: a.m * 5, e: a.e + 1 })
}

pub open spec fn q_sub(a: Q, b: Q) -> Q {
    q_add(a, q_neg(b))
}

pub open spec fn q_int(n: int) -> Q {
    Q { m: n, e: 0 }
}

/// Whether a `Dec` can hold `a` as it is written.
pub open spec fn q_fits(a: Q) -> bool {
    -MAX_MANT <= a.m <= MAX_MANT && a.e <= MAX_EXP
}

pub proof fn lemma_pow10_pos(n: nat)
    ensures
        pow10(n) >= 1,
    decreases n,
{
    if n > 0 {
        lemma_pow10_pos((n - 1) as nat);
    }
}

pub proof fn lemma_pow10_add(a: nat, b: nat)
    ensures
        pow10(a) * pow10(b) == pow10(a + b),
    decreases b,
{
    if b > 0 {
        lemma_pow10_add(a, (b - 1) as nat);
        assert(pow10(a + b) == 10 * pow10((a + b - 1) as nat));
        assert(pow10(a) * pow10(b) == pow10(a) * (10 * pow10((b - 1) as nat)));
        assert(pow10(a) * (10 * pow10((b - 1) as nat)) == 10 * (pow10(a) * pow10((b - 1) as nat)))
            by (nonlinear_arith);
    }
}

proof fn lemma_pow10_le(a: nat, b: nat)
    requires
        a <= b,
    ensures
        pow10(a) <= pow10(b),
    decreases b,
{
    if a < b {
        lemma_pow10_le(a, (b - 1) as nat);
        lemma_pow10_pos((b - 1) as nat);
    }
}

pub proof fn lemma_pow10_le_pub(a: nat, b: nat)
    requires
        a <= b,
    ensures
        pow10(a) <= pow10(b),
{
    lemma_pow10_le(a, b);
}

proof fn lemma_pow10_18()
    ensures
        pow10(18) == 1000000000000000000,
{
    reveal_with_fuel(pow10, 19);
}

/// Two numbers are equal exactly when they agree written with any common
/// number of digits.
proof fn lemma_scaled_eqv(a: Q, b: Q, k: nat)
    requires
        k >= a.e,
        k >= b.e,
    ensures
        q_eqv(a, b) <==> scaled(a, k) == scaled(b, k),
{
    let x = scaled(a, k);
    let y = scaled(b, k);
    let pa = pow10(a.e);
    let pb = pow10(b.e);
    let pk = pow10(k);
    lemma_pow10_add((k - a.e) as nat, a.e);
    lemma_pow10_add((k - b.e) as nat, b.e);
    lemma_pow10_pos(a.e);
    lemma_pow10_pos(b.e);
    lemma_pow10_pos(k);
    assert(pa * pb > 0) by (nonlinear_arith)
        requires
            pa >= 1,
            pb >= 1,
    ;
    assert(x * pa == a.m * pk) by (nonlinear_arith)
        requires
            x == a.m * pow10((k - a.e) as nat),
            pow10((k - a.e) as nat) * pa == pk,
    ;
    assert(y * pb == b.m * pk) by (nonlinear_arith)
        requires
            y == b.m * pow10((k - b.e) as nat),
            pow10((k - b.e) as nat) * pb == pk,
    ;
    if x == y {
        assert(a.m * pb * pk == b.m * pa * pk) by (nonlinear_arith)
            requires
                x * pa == a.m * pk,
                y * pb == b.m * pk,
                x == y,
        ;
        assert(a.m * pb == b.m * pa) by (nonlinear_arith)
            requires
                a.m * pb * pk == b.m * pa * pk,
                pk > 0,
        ;
    }
    if q_eqv(a, b) {
        assert(x * (pa * pb) == y * (pa * pb)) by (nonlinear_arith)
            requires
                x * pa == a.m * pk,
                y * pb == b.m * pk,
                a.m * pb == b.m * pa,
        ;
        assert(x == y) by (nonlinear_arith)
            requires
                x * (pa * pb) == y * (pa * pb),
                pa * pb > 0,
        ;
    }
}

proof fn lemma_scaled_self(a: Q)
    ensures
        scaled(a, a.e) == a.m,
{
    assert(((a.e - a.e) as nat) == 0nat);
    assert(pow10(0) == 1);
    assert(a.m * 1 == a.m);
}

proof fn lemma_scaled_up(a: Q, k: nat, d: nat)
    requires
        k >= a.e,
    ensures
        scaled(a, k + d) == scaled(a, k) * pow10(d),
{
    lemma_pow10_add((k - a.e) as nat, d);
    assert(a.m * pow10((k - a.e) as nat) * pow10(d) == a.m * (pow10((k - a.e) as nat) * pow10(d)))
        by (nonlinear_arith);
}

proof fn lemma_scaled_add(a: Q, b: Q, k: nat)
    requires
        k >= a.e,
        k >= b.e,
    ensures
        scaled(raw_add(a, b), k) == scaled(a, k) + scaled(b, k),
{
    let e = max_nat(a.e, b.e);
    let d = (k - e) as nat;
    lemma_pow10_add((e - a.e) as nat, d);
    lemma_pow10_add((e - b.e) as nat, d);
    let pa = pow10((e - a.e) as nat);
    let pb = pow10((e - b.e) as nat);
    let pd = pow10(d);
    assert((a.m * pa + b.m * pb) * pd == a.m * (pa * pd) + b.m * (pb * pd)) by (nonlinear_arith);
}

proof fn lemma_scaled_mul(a: Q, b: Q, ka: nat, kb: nat)
    requires
        ka >= a.e,
        kb >= b.e,
    ensures
        scaled(raw_mul(a, b), ka + kb) == scaled(a, ka) * scaled(b, kb),
{
    let da = (ka - a.e) as nat;
    let db = (kb - b.e) as nat;
    lemma_pow10_add(da, db);
    assert((ka + kb - (a.e + b.e)) as nat == da + db);
    assert((a.m * b.m) * (pow10(da) * pow10(db)) == (a.m * pow10(da)) * (b.m * pow10(db)))
        by (nonlinear_arith);
}

proof fn lemma_eqv_trans(a: Q, b: Q, c: Q)
    requires
        q_eqv(a, b),
        q_eqv(b, c),
    ensures
        q_eqv(a, c),
{
    let k = max_nat(max_nat(a.e, b.e), c.e);
    lemma_scaled_eqv(a, b, k);
    lemma_scaled_eqv(b, c, k);
    lemma_scaled_eqv(a, c, k);
}

proof fn lemma_norm_eqv(a: Q)
    ensures
        q_eqv(q_norm(a), a),
        is_norm(q_norm(a)),
    decreases a.e,
{
    if a.e > 0 && a.m % 10 == 0 {
        let b = Q { m: a.m / 10, e: (a.e - 1) as nat };
        lemma_norm_eqv(b);
        assert(b.m * 10 == a.m);
        lemma_scaled_up(b, b.e, 1);
        assert(pow10(1) == 10) by {
            reveal_with_fuel(pow10, 2);
        }
        lemma_scaled_self(a);
        lemma_scaled_self(b);
        lemma_scaled_eqv(b, a, a.e);
        lemma_eqv_trans(q_norm(b), b, a);
    } else {
        assert(a.m * pow10(a.e) == a.m * pow10(a.e));
    }
}

/// Two numbers in normal form are equal only when written alike.
proof fn lemma_norm_unique(a: Q, b: Q)
    requires
        is_norm(a),
        is_norm(b),
        q_eqv(a, b),
    ensures
        a == b,
{
    if a.e <= b.e {
        lemma_norm_unique_ordered(a, b);
    } else {
        lemma_norm_unique_ordered(b, a);
    }
}

proof fn lemma_norm_unique_ordered(a: Q, b: Q)
    requires
        is_norm(a),
        is_norm(b),
        q_eqv(a, b),
        a.e <= b.e,
    ensures
        a == b,
{
    lemma_scaled_eqv(a, b, b.e);
    lemma_scaled_self(b);
    if a.e == b.e {
        lemma_scaled_self(a);
    }
    let d = (b.e - a.e) as nat;
    if d > 0 {
        let r = a.m * pow10((d - 1) as nat);
        assert(pow10(d) == 10 * pow10((d - 1) as nat));
        assert(b.m == r * 10) by (nonlinear_arith)
            requires
                b.m == a.m * pow10(d),
                pow10(d) == 10 * pow10((d - 1) as nat),
                r == a.m * pow10((d - 1) as nat),
        ;
        vstd::arithmetic::div_mod::lemma_mod_multiples_basic(r, 10);
        assert(false);
    }
}

/// Numbers that are equal have one normal form.
pub proof fn lemma_norm_congr(a: Q, b: Q)
    requires
        q_eqv(a, b),
    ensures
        q_norm(a) == q_norm(b),
{
    lemma_norm_eqv(a);
    lemma_norm_eqv(b);
    lemma_eqv_trans(q_norm(a), a, b);
    assert(q_eqv(b, q_norm(b)));
    lemma_eqv_trans(q_norm(a), b, q_norm(b));
    lemma_norm_unique(q_norm(a), q_norm(b));
}

proof fn lemma_add_respects(a: Q, a2: Q, b: Q, b2: Q)
    requires
        q_eqv(a, a2),
        q_eqv(b, b2),
    ensures
        q_eqv(raw_add(a, b), raw_add(a2, b2)),
{
    let k = max_nat(max_nat(a.e, a2.e), max_nat(b.e, b2.e));
    lemma_scaled_eqv(a, a2, k);
    lemma_scaled_eqv(b, b2, k);
    lemma_scaled_add(a, b, k);
    lemma_scaled_add(a2, b2, k);
    lemma_scaled_eqv(raw_add(a, b), raw_add(a2, b2), k);
}

proof fn lemma_mul_respects(a: Q, a2: Q, b: Q, b2: Q)
    requires
        q_eqv(a, a2),
        q_eqv(b, b2),
    ensures
        q_eqv(raw_mul(a, b), raw_mul(a2, b2)),
{
    let ka = max_nat(a.e, a2.e);
    let kb = max_nat(b.e, b2.e);
    lemma_scaled_eqv(a, a2, ka);
    lemma_scaled_eqv(b, b2, kb);
    lemma_scaled_mul(a, b, ka, kb);
    lemma_scaled_mul(a2, b2, ka, kb);
    lemma_scaled_eqv(raw_mul(a, b), raw_mul(a2, b2), ka + kb);
}

proof fn lemma_eqv_refl(a: Q)
    ensures
        q_eqv(a, a),
{
}

proof fn lemma_raw_add_assoc(a: Q, b: Q, c: Q)
    ensures
        raw_add(raw_add(a, b), c) == raw_add(a, raw_add(b, c)),
{
    let e = max_nat(max_nat(a.e, b.e), c.e);
    let eab = max_nat(a.e, b.e);
    let ebc = max_nat(b.e, c.e);
    assert(e == max_nat(a.e, ebc));
    lemma_pow10_add((eab - a.e) as nat, (e - eab) as nat);
    lemma_pow10_add((eab - b.e) as nat, (e - eab) as nat);
    lemma_pow10_add((ebc - b.e) as nat, (e - ebc) as nat);
    lemma_pow10_add((ebc - c.e) as nat, (e - ebc) as nat);
    let pa = pow10((eab - a.e) as nat);
    let pb = pow10((eab - b.e) as nat);
    let p1 = pow10((e - eab) as nat);
    let qb = pow10((ebc - b.e) as nat);
    let qc = pow10((ebc - c.e) as nat);
    let p2 = pow10((e - ebc) as nat);
    assert((a.m * pa + b.m * pb) * p1 == a.m * (pa * p1) + b.m * (pb * p1)) by (nonlinear_arith);
    assert((b.m * qb + c.m * qc) * p2 == b.m * (qb * p2) + c.m * (qc * p2)) by (nonlinear_arith);
}

/// Addition of exact decimals is associative.
pub proof fn lemma_q_add_assoc(a: Q, b: Q, c: Q)
    ensures
        q_add(q_add(a, b), c) == q_add(a, q_add(b, c)),
{
    lemma_norm_eqv(raw_add(a, b));
    lemma_norm_eqv(raw_add(b, c));
    lemma_eqv_refl(a);
    lemma_eqv_refl(c);
    lemma_add_respects(q_norm(raw_add(a, b)), raw_add(a, b), c, c);
    lemma_add_respects(a, a, q_norm(raw_add(b, c)), raw_add(b, c));
    lemma_norm_congr(raw_add(q_norm(raw_add(a, b)), c), raw_add(raw_add(a, b), c));
    lemma_norm_congr(raw_add(a, q_norm(raw_add(b, c))), raw_add(a, raw_add(b, c)));
    lemma_raw_add_assoc(a, b, c);
}

/// Multiplication of exact decimals is associative.
pub proof fn lemma_q_mul_assoc(a: Q, b: Q, c: Q)
    ensures
        q_mul(q_mul(a, b), c) == q_mul(a, q_mul(b, c)),
{
    lemma_norm_eqv(raw_mul(a, b));
    lemma_norm_eqv(raw_mul(b, c));
    lemma_eqv_refl(a);
    lemma_eqv_refl(c);
    lemma_mul_respects(q_norm(raw_mul(a, b)), raw_mul(a, b), c, c);
    lemma_mul_respects(a, a, q_norm(raw_mul(b, c)), raw_mul(b, c));
    lemma_norm_congr(raw_mul(q_norm(raw_mul(a, b)), c), raw_mul(raw_mul(a, b), c));
    lemma_norm_congr(raw_mul(a, q_norm(raw_mul(b, c))), raw_mul(a, raw_mul(b, c)));
    assert((a.m * b.m) * c.m == a.m * (b.m * c.m)) by (nonlinear_arith);
}

proof fn lemma_raw_distrib(a: Q, b: Q, c: Q)
    ensures
        raw_mul(raw_add(a, b), c) == raw_add(raw_mul(a, c), raw_mul(b, c)),
{
    let e = max_nat(a.e, b.e);
    let pa = pow10((e - a.e) as nat);
    let pb = pow10((e - b.e) as nat);
    assert((a.m * pa + b.m * pb) * c.m == (a.m * c.m) * pa + (b.m * c.m) * pb)
        by (nonlinear_arith);
}

/// Multiplication distributes over addition from the right, exactly.
pub proof fn lemma_q_distrib(a: Q, b: Q, c: Q)
    ensures
        q_mul(q_add(a, b), c) == q_add(q_mul(a, c), q_mul(b, c)),
{
    lemma_norm_eqv(raw_add(a, b));
    lemma_norm_eqv(raw_mul(a, c));
    lemma_norm_eqv(raw_mul(b, c));
    lemma_eqv_refl(c);
    lemma_mul_respects(q_norm(raw_add(a, b)), raw_add(a, b), c, c);
    lemma_norm_congr(raw_mul(q_norm(raw_add(a, b)), c), raw_mul(raw_add(a, b), c));
    lemma_add_respects(q_norm(raw_mul(a, c)), raw_mul(a, c), q_norm(raw_mul(b, c)), raw_mul(b, c));
    lemma_norm_congr(
        raw_add(q_norm(raw_mul(a, c)), q_norm(raw_mul(b, c))),
        raw_add(raw_mul(a, c), raw_mul(b, c)),
    );
    lemma_raw_distrib(a, b, c);
}

/// An exact decimal number `mantissa / 10^exponent` in normal form (no
/// trailing zero fractional digit) that fits the bounds
/// `|mantissa| <= MAX_MANT` and `exponent <= MAX_EXP`.
#[derive(Clone, Copy, Debug)]
pub struct Dec {
    mant: i64,
    exp: u32,
}

impl View for Dec {
    type V = Q;

    closed spec fn view(&self) -> Q {
        Q { m: self.mant as int, e: self.exp as nat }
    }
}

/// `10^n` for a digit count a `Dec` can carry.
fn pow10_exec(n: u32) -> (r: i128)
    requires
        n <= MAX_EXP,
    ensures
        r == pow10(n as nat),
        1 <= r <= 1000000000000000000,
{
    let mut r: i128 = 1;
    let mut i: u32 = 0;
    proof {
        lemma_pow10_18();
        lemma_pow10_le(n as nat, 18);
    }
    while i < n
        invariant
            i <= n <= MAX_EXP,
            r == pow10(i as nat),
            pow10(n as nat) <= 1000000000000000000,
        decreases n - i,
    {
        proof {
            lemma_pow10_le((i + 1) as nat, n as nat);
            assert(pow10((i + 1) as nat) == 10 * pow10(i as nat));
            lemma_pow10_pos(i as nat);
        }
        r = r * 10;
        i = i + 1;
    }
    proof {
        lemma_pow10_pos(n as nat);
    }
    r
}

impl Dec {
    #[verifier::type_invariant]
    closed spec fn inv(self) -> bool {
        q_fits(self@) && is_norm(self@)
    }

    /// The number `mant / 10^exp` in normal form, when that fits.
    pub fn new(mant: i128, exp: u128) -> (r: Option<Dec>)
        ensures
            r is Some <==> q_fits(q_norm(Q { m: mant as int, e: exp as nat })),
            r matches Some(d) ==> d@ == q_norm(Q { m: mant as int, e: exp as nat }),
    {
        Dec::from_wide(mant, exp)
    }

    pub fn from_int(n: i32) -> (r: Dec)
        ensures
            r@ == q_int(n as int),
    {
        Dec { mant: n as i64, exp: 0 }
    }

    pub fn zero() -> (r: Dec)
        ensures
            r@ == q_int(0),
    {
        Dec { mant: 0, exp: 0 }
    }

    pub fn one() -> (r: Dec)
        ensures
            r@ == q_int(1),
    {
        Dec { mant: 1, exp: 0 }
    }

    pub fn mantissa(&self) -> (r: i64)
        ensures
            r as int == self@.m,
    {
        self.mant
    }

    pub fn exponent(&self) -> (r: u32)
        ensures
            r as nat == self@.e,
    {
        self.exp
    }

    /// Whether the two numbers are written alike (same mantissa, same digit count).
    pub fn same(&self, o: &Dec) -> (r: bool)
        ensures
            r == (self@ == o@),
    {
        self.mant == o.mant && self.exp == o.exp
    }

    fn from_wide(m0: i128, e0: u128) -> (r: Option<Dec>)
        ensures
            r is Some <==> q_fits(q_norm(Q { m: m0 as int, e: e0 as nat })),
            r matches Some(d) ==> d@ == q_norm(Q { m: m0 as int, e: e0 as nat }),
    {
        let mut m = m0;
        let mut e = e0;
        while e > 0 && m % 10 == 0
            invariant
                q_norm(Q { m: m as int, e: e as nat }) == q_norm(Q { m: m0 as int, e: e0 as nat }),
            decreases e,
        {
            m = m / 10;
            e = e - 1;
        }
        proof {
            lemma_norm_eqv(Q { m: m as int, e: e as nat });
        }
        if -(MAX_MANT as i128) <= m && m <= MAX_MANT as i128 && e <= MAX_EXP as u128 {
            Some(Dec { mant: m as i64, exp: e as u32 })
        } else {
            None
        }
    }

    pub fn add(&self, o: &Dec) -> (r: Option<Dec>)
        ensures
            r is Some <==> q_fits(q_add(self@, o@)),
            r matches Some(d) ==> d@ == q_add(self@, o@),
    {
        proof {
            use_type_invariant(self);
            use_type_invariant(o);
        }
        let e = if self.exp >= o.exp {
            self.exp
        } else {
            o.exp
        };
        let pa = pow10_exec(e - self.exp);
        let pb = pow10_exec(e - o.exp);
        let a = self.mant as i128;
        let b = o.mant as i128;
        assert(-9223372036854775807000000000000000000 <= a * pa <= 9223372036854775807000000000000000000)
            by (nonlinear_arith)
            requires
                -9223372036854775807 <= a <= 9223372036854775807,
                1 <= pa <= 1000000000000000000,
        ;
        assert(-9223372036854775807000000000000000000 <= b * pb <= 9223372036854775807000000000000000000)
            by (nonlinear_arith)
            requires
                -9223372036854775807 <= b <= 9223372036854775807,
                1 <= pb <= 1000000000000000000,
        ;
        Dec::from_wide(a * pa + b * pb, e as u128)
    }

    pub fn neg(&self) -> (r: Dec)
        ensures
            r@ == q_neg(self@),
    {
        proof {
            use_type_invariant(self);
            let m = self.mant as int;
            if self.exp > 0 {
                assert((-m) % 10 != 0) by {
                    if (-m) % 10 == 0 {
                        let k = (-m) / 10;
                        assert(m == (-k) * 10);
                        vstd::arithmetic::div_mod::lemma_mod_multiples_basic(-k, 10);
                    }
                }
            }
        }
        Dec { mant: -self.mant, exp: self.exp }
    }

    pub fn sub(&self, o: &Dec) -> (r: Option<Dec>)
        ensures
            r is Some <==> q_fits(q_sub(self@, o@)),
            r matches Some(d) ==> d@ == q_sub(self@, o@),
    {
        self.add(&o.neg())
    }

    pub fn mul(&self, o: &Dec) -> (r: Option<Dec>)
        ensures
            r is Some <==> q_fits(q_mul(self@, o@)),
            r matches Some(d) ==> d@ == q_mul(self@, o@),
    {
        proof {
            use_type_invariant(self);
            use_type_invariant(o);
        }
        let a = self.mant as i128;
        let b = o.mant as i128;
        assert(-85070591730234615847396907784232501249 <= a * b <= 85070591730234615847396907784232501249)
            by (nonlinear_arith)
            requires
                -9223372036854775807 <= a <= 9223372036854775807,
                -9223372036854775807 <= b <= 9223372036854775807,
        ;
        Dec::from_wide(a * b, self.exp as u128 + o.exp as u128)
    }

    pub fn half(&self) -> (r: Option<Dec>)
        ensures
            r is Some <==> q_fits(q_half(self@)),
            r matches Some(d) ==> d@ == q_half(self@),
    {
        proof {
            use_type_invariant(self);
        }
        Dec::from_wide(self.mant as i128 * 5, self.exp as u128 + 1)
    }
}

} // verus!
