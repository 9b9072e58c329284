use vstd::prelude::*;
use crate::liquidity_math::MathError;
use ethers::types::U256 as Wide;
use ethers::types::U512 as Wider;

verus! {

/// 2^128, the weight of the high limb.
pub open spec fn limb() -> nat {
    0x1_0000_0000_0000_0000_0000_0000_0000_0000nat
}

/// 2^256, one past the largest value of a `U256`.
pub open spec fn word() -> nat {
    limb() * limb()
}

/// An unsigned 256-bit integer held as two 128-bit limbs.
#[derive(Debug, Clone, Copy, PartialEq, Eq, Structural)]
pub struct U256 {
    pub hi: u128,
    pub lo: u128,
}

impl View for U256 {
    type V = nat;

    open spec fn view(&self) -> nat {
        self.hi as nat * limb() + self.lo as nat
    }
}

pub(crate) proof fn lemma_view_bound(a: U256)
    ensures
        a@ < word(),
{
    let h = a.hi as nat;
    let l = a.lo as nat;
    assert(h * limb() + l < limb() * limb()) by (nonlinear_arith)
        requires
            h < limb(),
            l < limb(),
    ;
}

proof fn lemma_view_order(a: U256, b: U256)
    ensures
        a@ < b@ <==> (a.hi < b.hi || (a.hi == b.hi && a.lo < b.lo)),
        a@ == b@ <==> a == b,
{
    let (ah, al, bh, bl) = (a.hi as int, a.lo as int, b.hi as int, b.lo as int);
    let m = limb() as int;
    if ah < bh {
        assert(ah * m + al < bh * m + bl) by (nonlinear_arith)
            requires
                ah < bh,
                0 <= al < m,
                0 <= bl < m,
        ;
    } else if ah > bh {
        assert(ah * m + al > bh * m + bl) by (nonlinear_arith)
            requires
                ah > bh,
                0 <= al < m,
                0 <= bl < m,
        ;
    }
}

impl U256 {
    pub open spec fn max_value() -> nat {
        (word() - 1) as nat
    }

    pub fn zero() -> (r: U256)
        ensures
            r@ == 0,
    {
        U256 { hi: 0, lo: 0 }
    }

    pub fn from_u128(x: u128) -> (r: U256)
        ensures
            r@ == x,
    {
        U256 { hi: 0, lo: x }
    }

    pub fn max() -> (r: U256)
        ensures
            r@ == U256::max_value(),
    {
        U256 { hi: u128::MAX, lo: u128::MAX }
    }

    pub fn is_zero(&self) -> (r: bool)
        ensures
            r == (self@ == 0),
    {
        self.hi == 0 && self.lo == 0
    }

    pub fn lt(&self, o: &U256) -> (r: bool)
        ensures
            r == (self@ < o@),
    {
        proof {
            lemma_view_order(*self, *o);
        }
        self.hi < o.hi || (self.hi == o.hi && self.lo < o.lo)
    }

    pub fn le(&self, o: &U256) -> (r: bool)
        ensures
            r == (self@ <= o@),
    {
        proof {
            lemma_view_order(*self, *o);
        }
        !o.lt(self)
    }

    pub fn eq(&self, o: &U256) -> (r: bool)
        ensures
            r == (self@ == o@),
    {
        proof {
            lemma_view_order(*self, *o);
        }
        self.hi == o.hi && self.lo == o.lo
    }

    /// Sum of two values; `Overflow` when it does not fit 256 bits.
    pub fn checked_add(&self, o: &U256) -> (r: Result<U256, MathError>)
        ensures
            self@ + o@ < word() ==> r == Ok::<U256, MathError>(r->Ok_0) && r->Ok_0@ == self@ + o@,
            self@ + o@ >= word() ==> r == Err::<U256, MathError>(MathError::Overflow),
            view_res(r) == add_res(self@, o@),
    {
        let carry: u128 = if self.lo > u128::MAX - o.lo { 1 } else { 0 };
        let lo: u128 = if carry == 1 { self.lo - (u128::MAX - o.lo) - 1 } else { self.lo + o.lo };
        if self.hi > u128::MAX - o.hi || self.hi + o.hi > u128::MAX - carry {
            proof {
                assert(self@ + o@ >= word()) by (nonlinear_arith)
                    requires
                        self.hi + o.hi + carry > u128::MAX,
                        self.lo + o.lo >= carry * limb(),
                        self@ == self.hi * limb() + self.lo,
                        o@ == o.hi * limb() + o.lo,
                        word() == limb() * limb(),
                        limb() == u128::MAX + 1,
                ;
            }
            Err(MathError::Overflow)
        } else {
            let r = U256 { hi: self.hi + o.hi + carry, lo };
            proof {
                assert(r@ == self@ + o@) by (nonlinear_arith)
                    requires
                        r.hi == self.hi + o.hi + carry,
                        r.lo + carry * limb() == self.lo + o.lo,
                        r@ == r.hi * limb() + r.lo,
                        self@ == self.hi * limb() + self.lo,
                        o@ == o.hi * limb() + o.lo,
                ;
                lemma_view_bound(r);
            }
            Ok(r)
        }
    }

    /// Difference of two values; requires no underflow.
    pub fn sub(&self, o: &U256) -> (r: U256)
        requires
            o@ <= self@,
        ensures
            r@ == self@ - o@,
    {
        proof {
            lemma_view_order(*self, *o);
        }
        let borrow: u128 = if self.lo < o.lo { 1 } else { 0 };
        let lo: u128 = if borrow == 1 { u128::MAX - (o.lo - self.lo) + 1 } else { self.lo - o.lo };
        proof {
            if borrow == 1 {
                assert(self.hi > o.hi);
            }
        }
        let r = U256 { hi: self.hi - o.hi - borrow, lo };
        proof {
            assert(r@ == self@ - o@) by (nonlinear_arith)
                requires
                    r.hi == self.hi - o.hi - borrow,
                    r.lo == self.lo + borrow * limb() - o.lo,
                    r@ == r.hi * limb() + r.lo,
                    self@ == self.hi * limb() + self.lo,
                    o@ == o.hi * limb() + o.lo,
            ;
        }
        r
    }
}

pub(crate) proof fn lemma_ceil_div_le(x: nat, d: nat)
    requires
        d > 0,
    ensures
        mul_div_spec(x, 1, d, true) <= x,
        mul_div_spec(x, 1, d, false) <= x,
{
    assert(x * 1 == x);
    vstd::arithmetic::div_mod::lemma_div_is_ordered_by_denominator((x + d - 1) as int, 1, d as int);
    vstd::arithmetic::div_mod::lemma_div_is_ordered_by_denominator(x as int, 1, d as int);
    if x == 0 {
        vstd::arithmetic::div_mod::lemma_basic_div((d - 1) as int, d as int);
    } else {
        vstd::arithmetic::div_mod::lemma_fundamental_div_mod((x + d - 1) as int, d as int);
        let q = (x + d - 1) as int / d as int;
        let r = (x + d - 1) as int % d as int;
        assert(q <= x) by (nonlinear_arith)
            requires
                x + d - 1 == d * q + r,
                0 <= r < d,
                x >= 1,
                d >= 1,
        ;
    }
}

/// The outcome of `mul_div` on values: the quotient, or why there is none.
pub open spec fn mul_div_res(a: nat, b: nat, d: nat, round_up: bool) -> Result<nat, MathError> {
    if d == 0 {
        Err(MathError::DivideByZero)
    } else if mul_div_spec(a, b, d, round_up) >= word() {
        Err(MathError::Overflow)
    } else {
        Ok(mul_div_spec(a, b, d, round_up))
    }
}

/// The outcome of a 256-bit sum on values.
pub open spec fn add_res(a: nat, b: nat) -> Result<nat, MathError> {
    if a + b >= word() { Err(MathError::Overflow) } else { Ok(a + b) }
}

/// A result over `U256` seen as a result over its value.
pub open spec fn view_res(r: Result<U256, MathError>) -> Result<nat, MathError> {
    match r {
        Ok(v) => Ok(v@),
        Err(e) => Err(e),
    }
}

/// The floor or the ceiling of `a * b / d`.
pub open spec fn mul_div_spec(a: nat, b: nat, d: nat, round_up: bool) -> nat
    recommends
        d > 0,
{
    if round_up {
        (a * b + (d - 1) as nat) / d
    } else {
        (a * b) / d
    }
}

/// The value of four little-endian 64-bit limbs.
pub open spec fn limbs_value(p: Seq<u64>) -> nat {
    p[0] as nat + p[1] as nat * 0x1_0000_0000_0000_0000nat + (p[2] as nat + p[3] as nat * 0x1_0000_0000_0000_0000nat) * limb()
}

/// Joins four little-endian 64-bit limbs into a `U256`.
fn from_limbs(p: &[u64]) -> (r: U256)
    requires
        p@.len() == 4,
    ensures
        r@ == limbs_value(p@),
{
    let lo = ((p[1] as u128) << 64u128) | (p[0] as u128);
    let hi = ((p[3] as u128) << 64u128) | (p[2] as u128);
    proof {
        let (a, b, c, d) = (p[0], p[1], p[2], p[3]);
        assert(lo == a as u128 + b as u128 * 0x1_0000_0000_0000_0000u128) by (bit_vector)
            requires lo == ((b as u128) << 64u128) | (a as u128);
        assert(hi == c as u128 + d as u128 * 0x1_0000_0000_0000_0000u128) by (bit_vector)
            requires hi == ((d as u128) << 64u128) | (c as u128);
    }
    U256 { hi, lo }
}

/// Relies on primitive-types' `U256::full_mul`: the exact 512-bit product,
/// returned as its high and low 256-bit halves.
#[verifier::external_body]
fn full_mul(a: &U256, b: &U256) -> (r: (U256, U256))
    ensures
        r.0@ * word() + r.1@ == a@ * b@,
{
    let e = |v: &U256| (Wide::from(v.hi) << 128) | Wide::from(v.lo);
    let p = e(a).full_mul(e(b)).0;
    (from_limbs(&p[4..]), from_limbs(&p[..4]))
}

/// Relies on uint's `div_mod` on primitive-types' `U512`: the quotient (as
/// high and low halves) and the remainder of a 512-bit value by a non-zero
/// divisor.
#[verifier::external_body]
fn div_mod_wide(n_hi: &U256, n_lo: &U256, d: &U256) -> (r: (U256, U256, U256))
    requires
        d@ > 0,
    ensures
        r.0@ * word() + r.1@ == (n_hi@ * word() + n_lo@) / d@,
        r.2@ == (n_hi@ * word() + n_lo@) % d@,
{
    let e = |v: &U256| Wider::from((Wide::from(v.hi) << 128) | Wide::from(v.lo));
    let (q, m) = ((e(n_hi) << 256) | e(n_lo)).div_mod(e(d));
    (from_limbs(&q.0[4..]), from_limbs(&q.0[..4]), from_limbs(&m.0[..4]))
}

/// `a * b / d` with full intermediate precision, rounded down or up.
/// Fails with `DivideByZero` when `d` is zero and with `Overflow` when the
/// result does not fit 256 bits.
pub fn mul_div(a: &U256, b: &U256, d: &U256, round_up: bool) -> (r: Result<U256, MathError>)
    ensures
        d@ == 0 <==> r == Err::<U256, MathError>(MathError::DivideByZero),
        d@ > 0 && mul_div_spec(a@, b@, d@, round_up) < word() ==> r == Ok::<U256, MathError>(r->Ok_0)
            && r->Ok_0@ == mul_div_spec(a@, b@, d@, round_up),
        d@ > 0 && mul_div_spec(a@, b@, d@, round_up) >= word() ==> r == Err::<U256, MathError>(MathError::Overflow),
        view_res(r) == mul_div_res(a@, b@, d@, round_up),
{
    if d.is_zero() {
        return Err(MathError::DivideByZero);
    }
    let (ph, pl) = full_mul(a, b);
    let (qh, ql, rem) = div_mod_wide(&ph, &pl, d);
    let ghost p: int = (a@ * b@) as int;
    let ghost dd: int = d@ as int;
    proof {
        lemma_view_bound(ql);
        lemma_view_bound(rem);
        vstd::arithmetic::div_mod::lemma_fundamental_div_mod(p, dd);
        assert(0 <= rem@ < dd);
        assert(p / dd >= 0) by (nonlinear_arith) requires p >= 0, dd > 0;
    }
    if !qh.is_zero() {
        proof {
            assert(qh@ * word() + ql@ >= word()) by (nonlinear_arith) requires qh@ >= 1;
            if round_up {
                assert((p + dd - 1) / dd >= p / dd) by {
                    vstd::arithmetic::div_mod::lemma_div_is_ordered(p, p + dd - 1, dd);
                }
            }
        }
        return Err(MathError::Overflow);
    }
    proof {
        assert(ql@ == p / dd);
        if rem@ > 0 {
            assert((p + dd - 1) / dd == p / dd + 1) by {
                assert(p + dd - 1 == (p / dd + 1) * dd + (rem@ - 1)) by (nonlinear_arith)
                    requires p == dd * (p / dd) + rem@;
                vstd::arithmetic::div_mod::lemma_fundamental_div_mod_converse(p + dd - 1, dd, p / dd + 1, rem@ - 1);
            }
        } else {
            assert((p + dd - 1) / dd == p / dd) by {
                assert(p + dd - 1 == (p / dd) * dd + (dd - 1)) by (nonlinear_arith)
                    requires p == dd * (p / dd) + rem@, rem@ == 0;
                vstd::arithmetic::div_mod::lemma_fundamental_div_mod_converse(p + dd - 1, dd, p / dd, dd - 1);
            }
        }
    }
    if round_up && !rem.is_zero() {
        ql.checked_add(&U256::from_u128(1))
    } else {
        Ok(ql)
    }
}

/// A signed amount: a sign and a 256-bit magnitude. Zero is never negative.
#[derive(Debug, Clone, Copy, PartialEq, Eq, Structural)]
pub struct I256 {
    pub negative: bool,
    pub magnitude: U256,
}

impl View for I256 {
    type V = int;

    open spec fn view(&self) -> int {
        if self.negative {
            -(self.magnitude@ as int)
        } else {
            self.magnitude@ as int
        }
    }
}

impl I256 {
    pub open spec fn wf(&self) -> bool {
        self.negative ==> self.magnitude@ > 0
    }

    pub fn zero() -> (r: I256)
        ensures
            r@ == 0,
            r.wf(),
    {
        I256 { negative: false, magnitude: U256::zero() }
    }

    /// The value `magnitude` with the given sign (zero stays non-negative).
    pub fn from_parts(negative: bool, magnitude: U256) -> (r: I256)
        ensures
            r.wf(),
            r@ == if negative { -(magnitude@ as int) } else { magnitude@ as int },
    {
        I256 { negative: negative && !magnitude.is_zero(), magnitude }
    }

    pub fn is_positive(&self) -> (r: bool)
        requires
            self.wf(),
        ensures
            r == (self@ > 0),
    {
        !self.negative && !self.magnitude.is_zero()
    }

    pub fn is_zero(&self) -> (r: bool)
        ensures
            r == (self.magnitude@ == 0),
    {
        self.magnitude.is_zero()
    }
}

} // verus!
