//! Single-precision rounding, carried out on integers.
//!
//! A single-precision number has a significand of 24 bits. Every result of an
//! operation is the representable number nearest to the exact result, and of
//! two equally near the one with the even significand. All numbers here are
//! non-negative and far from the ends of the exponent range, so a number is
//! a significand and an exponent without further cases.

use vstd::arithmetic::div_mod::{lemma_div_denominator, lemma_fundamental_div_mod_converse};
use vstd::arithmetic::power2::{
    lemma2_to64,
    lemma_pow2_adds,
    lemma_pow2_pos,
    lemma_pow2_strictly_increases,
    lemma_pow2_unfold,
    pow2,
};
use vstd::prelude::*;

verus! {

/// The number `m * 2^e`.
pub struct Dyadic {
    pub m: nat,
    pub e: int,
}

impl Dyadic {
    /// The number times `2^k`.
    pub open spec fn scale(self, k: int) -> Dyadic {
        Dyadic { m: self.m, e: self.e + k }
    }

    /// The largest whole number that is not above `m * 2^e`.
    pub open spec fn floor(self) -> nat
        decreases
                (if self.e >= 0 {
                    self.e
                } else {
                    -self.e
                }),
    {
        if self.e > 0 {
            Dyadic { m: 2 * self.m, e: self.e - 1 }.floor()
        } else if self.e < 0 {
            Dyadic { m: self.m / 2, e: self.e + 1 }.floor()
        } else {
            self.m
        }
    }

    /// The quotient `self / b`, rounded to single precision.
    pub open spec fn over(self, b: Dyadic) -> Dyadic {
        nearest(self.m, b.m).scale(self.e - b.e)
    }

    /// The product `k * self`, rounded to single precision.
    pub open spec fn times(self, k: nat) -> Dyadic {
        nearest(k * self.m, 1).scale(self.e)
    }
}

/// The whole number nearest to `num / den`; of two equally near, the even one.
pub open spec fn round_half_even(num: nat, den: nat) -> nat
    recommends
        den > 0,
{
    let q = num / den;
    let r = num % den;
    if 2 * r > den || (2 * r == den && q % 2 == 1) {
        q + 1
    } else {
        q
    }
}

/// The single-precision number nearest to `num / den`: the quotient is
/// brought between `2^23` and `2^24` by a power of two, rounded there to a
/// whole number, and the power of two is kept as the exponent.
pub open spec fn nearest(num: nat, den: nat) -> Dyadic
    recommends
        den > 0,
    decreases
            (if num >= den * 0x100_0000 {
                num - den * 0x100_0000 + 1
            } else if num < den * 0x80_0000 {
                den * 0x80_0000 - num
            } else {
                0
            }),
{
    if num == 0 || den == 0 {
        Dyadic { m: 0, e: 0 }
    } else if num >= den * 0x100_0000 {
        nearest(num, 2 * den).scale(1)
    } else if num < den * 0x80_0000 {
        nearest(2 * num, den).scale(-1)
    } else {
        Dyadic { m: round_half_even(num, den), e: 0 }
    }
}

/// The single-precision number nearest to the whole number `x`.
pub open spec fn rounded(x: nat) -> Dyadic {
    nearest(x, 1)
}

/// A rounded number other than zero has a significand of 24 bits: it lies
/// between `2^23` and `2^24`, the upper end being reached only by rounding up.
pub proof fn lemma_nearest_significand(num: nat, den: nat)
    requires
        num > 0,
        den > 0,
    ensures
        0x80_0000 <= nearest(num, den).m <= 0x100_0000,
    decreases
            (if num >= den * 0x100_0000 {
                num - den * 0x100_0000 + 1
            } else if num < den * 0x80_0000 {
                den * 0x80_0000 - num
            } else {
                0
            }),
{
    if num >= den * 0x100_0000 {
        lemma_nearest_significand(num, 2 * den);
    } else if num < den * 0x80_0000 {
        lemma_nearest_significand(2 * num, den);
    } else {
        assert(0x80_0000 <= num / den < 0x100_0000) by (nonlinear_arith)
            requires
                den > 0,
                den * 0x80_0000 <= num < den * 0x100_0000,
        ;
    }
}

/// `m` is the whole number nearest to `n / d`, which lies between `2^23`
/// and `2^24`: it is off by at most one half, and where it is off by
/// exactly one half it is even.
pub open spec fn near(n: int, d: int, m: int) -> bool {
    &&& d * 0x80_0000 <= n < d * 0x100_0000
    &&& -d <= 2 * (n - m * d) <= d
    &&& (2 * (n - m * d) == d || 2 * (n - m * d) == -d) ==> m % 2 == 0
}

/// `r` is the single-precision number nearest to `num / den`: with the
/// power of two of its exponent moved to the other side, `num / den` lies
/// between `2^23` and `2^24` and `r.m` is the whole number nearest to it,
/// the even one of two.
pub open spec fn is_nearest(num: nat, den: nat, r: Dyadic) -> bool {
    let up: nat = if r.e < 0 {
        (-r.e) as nat
    } else {
        0
    };
    let down: nat = if r.e > 0 {
        r.e as nat
    } else {
        0
    };
    near((num * pow2(up)) as int, (den * pow2(down)) as int, r.m as int)
}

proof fn lemma_near_doubles(n: int, d: int, m: int)
    ensures
        near(2 * n, 2 * d, m) == near(n, d, m),
{
    assert(m * (2 * d) == 2 * (m * d)) by (nonlinear_arith);
}

proof fn lemma_near_round_half_even(num: nat, den: nat)
    requires
        den > 0,
        den * 0x80_0000 <= num < den * 0x100_0000,
    ensures
        near(num as int, den as int, round_half_even(num, den) as int),
{
    let q = num / den;
    let r = num % den;
    assert(num == den * q + r && 0 <= r < den) by (nonlinear_arith)
        requires
            den > 0,
            q == num / den,
            r == num % den,
    ;
    assert((q + 1) * den == den * q + den && q * den == den * q) by (nonlinear_arith);
}

/// What `nearest` gives is the nearest single-precision number, and of two
/// equally near the one with the even significand.
pub proof fn lemma_nearest_is_nearest(num: nat, den: nat)
    requires
        num > 0,
        den > 0,
    ensures
        is_nearest(num, den, nearest(num, den)),
    decreases
            (if num >= den * 0x100_0000 {
                num - den * 0x100_0000 + 1
            } else if num < den * 0x80_0000 {
                den * 0x80_0000 - num
            } else {
                0
            }),
{
    lemma2_to64();
    if num >= den * 0x100_0000 {
        let r = nearest(num, 2 * den);
        lemma_nearest_is_nearest(num, 2 * den);
        if r.e >= 0 {
            let p = pow2(r.e as nat);
            lemma_pow2_unfold((r.e + 1) as nat);
            assert(den * (2 * p) == (2 * den) * p) by (nonlinear_arith);
        } else {
            let p = pow2((-r.e - 1) as nat);
            lemma_pow2_unfold((-r.e) as nat);
            assert(num * (2 * p) == 2 * (num * p)) by (nonlinear_arith);
            assert((2 * den) * pow2(0) == 2 * (den * pow2(0))) by (nonlinear_arith);
            lemma_near_doubles((num * p) as int, (den * pow2(0)) as int, r.m as int);
        }
    } else if num < den * 0x80_0000 {
        let r = nearest(2 * num, den);
        lemma_nearest_is_nearest(2 * num, den);
        if r.e <= 0 {
            let p = pow2((-r.e) as nat);
            lemma_pow2_unfold((-r.e + 1) as nat);
            assert(num * (2 * p) == (2 * num) * p) by (nonlinear_arith);
        } else {
            let p = pow2((r.e - 1) as nat);
            lemma_pow2_unfold(r.e as nat);
            assert(den * (2 * p) == 2 * (den * p)) by (nonlinear_arith);
            assert((2 * num) * pow2(0) == 2 * (num * pow2(0))) by (nonlinear_arith);
            lemma_near_doubles((num * pow2(0)) as int, (den * p) as int, r.m as int);
        }
    } else {
        assert(num * pow2(0) == num && den * pow2(0) == den) by (nonlinear_arith)
            requires
                pow2(0) == 1,
        ;
        lemma_near_round_half_even(num, den);
    }
}

/// A factor of two common to both sides does not change the quotient, nor
/// what it rounds to.
pub proof fn lemma_nearest_common_factor(num: nat, den: nat)
    requires
        den > 0,
    ensures
        nearest(2 * num, 2 * den) == nearest(num, den),
    decreases
            (if num >= den * 0x100_0000 {
                num - den * 0x100_0000 + 1
            } else if num < den * 0x80_0000 {
                den * 0x80_0000 - num
            } else {
                0
            }),
{
    if num == 0 {
    } else if num >= den * 0x100_0000 {
        lemma_nearest_common_factor(num, 2 * den);
    } else if num < den * 0x80_0000 {
        lemma_nearest_common_factor(2 * num, den);
    } else {
        let q = num / den;
        let r = num % den;
        assert(num == q * den + r && 0 <= r < den) by (nonlinear_arith)
            requires
                den > 0,
                q == num / den,
                r == num % den,
        ;
        assert(2 * num == q * (2 * den) + 2 * r) by (nonlinear_arith)
            requires
                num == q * den + r,
        ;
        lemma_fundamental_div_mod_converse((2 * num) as int, (2 * den) as int, q as int, (2 * r) as int);
    }
}

/// Rounding commutes with doubling: twice a number rounds to twice what
/// the number rounds to, and half a number to half of it.
pub proof fn lemma_nearest_doubles(num: nat, den: nat)
    requires
        num > 0,
        den > 0,
    ensures
        nearest(2 * num, den) == nearest(num, den).scale(1),
        nearest(num, 2 * den) == nearest(num, den).scale(-1),
{
    lemma_nearest_common_factor(num, den);
    lemma_nearest_common_factor(num, 2 * den);
}

/// Rounding commutes with every power of two. This is why the quotient of
/// two numbers is the rounded quotient of their significands, with the
/// difference of their exponents for its exponent.
pub proof fn lemma_nearest_scales(num: nat, den: nat, j: nat, k: nat)
    requires
        num > 0,
        den > 0,
    ensures
        nearest(num * pow2(j), den * pow2(k)) == nearest(num, den).scale(j - k),
    decreases j + k,
{
    lemma2_to64();
    if j > 0 {
        let p = pow2((j - 1) as nat);
        lemma_pow2_unfold(j);
        lemma_pow2_pos((j - 1) as nat);
        lemma_pow2_pos(k);
        assert(num * (2 * p) == 2 * (num * p) && num * p > 0 && den * pow2(k) > 0)
            by (nonlinear_arith)
            requires
                num > 0,
                den > 0,
                p > 0,
                pow2(k) > 0,
        ;
        lemma_nearest_scales(num, den, (j - 1) as nat, k);
        lemma_nearest_doubles(num * p, den * pow2(k));
    } else if k > 0 {
        let p = pow2((k - 1) as nat);
        lemma_pow2_unfold(k);
        lemma_pow2_pos((k - 1) as nat);
        assert(den * (2 * p) == 2 * (den * p) && den * p > 0 && num * pow2(0) == num)
            by (nonlinear_arith)
            requires
                den > 0,
                p > 0,
                pow2(0) == 1,
        ;
        lemma_nearest_scales(num, den, 0, (k - 1) as nat);
        lemma_nearest_doubles(num, den * p);
    } else {
        assert(num * pow2(0) == num && den * pow2(0) == den) by (nonlinear_arith)
            requires
                pow2(0) == 1,
        ;
    }
}

/// Zero rounds to zero.
pub proof fn lemma_nearest_of_zero(den: nat)
    ensures
        nearest(0, den) == (Dyadic { m: 0, e: 0 }),
{
}

/// A number that is `2^j` times another, divided by that other, is `2^j`.
pub proof fn lemma_nearest_of_multiple(x: nat, m: nat, j: nat)
    requires
        m > 0,
        j <= 23,
        x == m * pow2(j),
    ensures
        nearest(x, m) == (Dyadic { m: 0x80_0000, e: j - 23 }),
    decreases 23 - j,
{
    lemma2_to64();
    if j < 23 {
        lemma_pow2_strictly_increases(j, 23);
        lemma_pow2_unfold(j + 1);
        assert(0 < m * pow2(j) < m * 0x80_0000) by (nonlinear_arith)
            requires
                m > 0,
                0 < pow2(j) < 0x80_0000,
        ;
        assert(m * (2 * pow2(j)) == 2 * (m * pow2(j))) by (nonlinear_arith);
        lemma_nearest_of_multiple(2 * x, m, j + 1);
    } else {
        assert((m * 0x80_0000) / m == 0x80_0000 && (m * 0x80_0000) % m == 0) by (nonlinear_arith)
            requires
                m > 0,
        ;
    }
}

/// A number divided by itself is one: `2^23 * 2^-23`.
pub proof fn lemma_nearest_of_equal(m: nat)
    requires
        m > 0,
    ensures
        nearest(m, m) == (Dyadic { m: 0x80_0000, e: -23 }),
{
    lemma2_to64();
    assert(m * pow2(0) == m) by (nonlinear_arith)
        requires
            pow2(0) == 1,
    ;
    lemma_nearest_of_multiple(m, m, 0);
}

/// What `floor` gives is the floor: the product with the power of two
/// where the exponent is not negative, and else the quotient by it, rounded
/// down.
pub proof fn lemma_floor_is_floor(m: nat, e: int)
    ensures
        e >= 0 ==> (Dyadic { m, e }).floor() == m * pow2(e as nat),
        e < 0 ==> (Dyadic { m, e }).floor() == m / pow2((-e) as nat),
    decreases
            (if e >= 0 {
                e
            } else {
                -e
            }),
{
    lemma2_to64();
    if e > 0 {
        let p = pow2((e - 1) as nat);
        lemma_floor_is_floor(2 * m, e - 1);
        lemma_pow2_unfold(e as nat);
        assert((2 * m) * p == m * (2 * p)) by (nonlinear_arith);
    } else if e < 0 {
        let p = pow2((-e - 1) as nat);
        lemma_floor_is_floor(m / 2, e + 1);
        lemma_pow2_unfold((-e) as nat);
        lemma_pow2_pos((-e - 1) as nat);
        lemma_div_denominator(m as int, 2, p as int);
        if e + 1 == 0 {
            assert((m / 2) * pow2(0) == m / 2) by (nonlinear_arith)
                requires
                    pow2(0) == 1,
            ;
        }
    } else {
        assert(m * pow2(0) == m) by (nonlinear_arith)
            requires
                pow2(0) == 1,
        ;
    }
}

/// Nothing, however scaled, has floor zero.
pub proof fn lemma_floor_of_zero(e: int)
    ensures
        (Dyadic { m: 0, e }).floor() == 0,
    decreases
            (if e >= 0 {
                e
            } else {
                -e
            }),
{
    if e > 0 {
        lemma_floor_of_zero(e - 1);
    } else if e < 0 {
        lemma_floor_of_zero(e + 1);
    }
}

/// Only the low eight bits of a significand reach the low eight bits of the
/// floor, where the exponent is not negative.
pub proof fn lemma_floor_low_byte(m: nat, e: int)
    requires
        e >= 0,
    ensures
        (Dyadic { m, e }).floor() % 256 == (Dyadic { m: m % 256, e }).floor() % 256,
    decreases e,
{
    if e > 0 {
        lemma_floor_low_byte(2 * m, e - 1);
        lemma_floor_low_byte(2 * (m % 256), e - 1);
        assert((2 * m) % 256 == (2 * (m % 256)) % 256);
    }
}

/// A single-precision number as the machine holds it here: the number
/// `sig * 2^exp`.
#[derive(Clone, Copy, Debug, PartialEq, Eq, Structural)]
pub struct Single {
    pub sig: u32,
    pub exp: i32,
}

impl View for Single {
    type V = Dyadic;

    open spec fn view(&self) -> Dyadic {
        Dyadic { m: self.sig as nat, e: self.exp as int }
    }
}

/// Computes `nearest(num, den)`. A result other than zero has its
/// significand between `2^23` and `2^24`, both included.
pub fn nearest_to(num: u64, den: u64) -> (r: Single)
    requires
        den > 0,
    ensures
        r@ == nearest(num as nat, den as nat),
        num == 0 ==> r.sig == 0 && r.exp == 0,
        num > 0 ==> 0x80_0000 <= r.sig <= 0x100_0000,
        -88 <= r.exp <= 64,
{
    if num == 0 {
        return Single { sig: 0, exp: 0 };
    }
    let mut n: u128 = num as u128;
    let mut d: u128 = den as u128;
    let mut e: i32 = 0;
    proof {
        lemma2_to64();
        assert(den * pow2(0) == den);
    }
    while n >= d * 0x100_0000
        invariant
            den > 0,
            n == num,
            n > 0,
            0 < d <= u64::MAX,
            0 <= e < 64,
            d == den * pow2(e as nat),
            nearest(num as nat, den as nat) == nearest(n as nat, d as nat).scale(e as int),
        decreases n - d,
    {
        proof {
            lemma2_to64();
            lemma_pow2_unfold((e + 1) as nat);
            assert(den * (2 * pow2(e as nat)) == 2 * (den * pow2(e as nat))) by (nonlinear_arith);
            if e + 1 >= 64 {
                assert(den * pow2(64) >= pow2(64)) by (nonlinear_arith)
                    requires
                        den >= 1,
                ;
            }
        }
        d = 2 * d;
        e = e + 1;
    }
    let ghost n1: nat = n as nat;
    let ghost e1: int = e as int;
    let ghost k: nat = 0;
    while n < d * 0x80_0000
        invariant
            den > 0,
            0 < n < d * 0x100_0000,
            0 < d <= u64::MAX,
            n1 > 0,
            n == n1 * pow2(k),
            e == e1 - k,
            0 <= e1 < 64,
            k <= 87,
            nearest(num as nat, den as nat) == nearest(n as nat, d as nat).scale(e as int),
        decreases
                (if n < d * 0x80_0000 {
                    d * 0x80_0000 - n
                } else {
                    0
                }),
    {
        proof {
            lemma2_to64();
            lemma_pow2_adds(64, 23);
            lemma_pow2_unfold(k + 1);
            assert(n1 * (2 * pow2(k)) == 2 * (n1 * pow2(k))) by (nonlinear_arith);
            if k + 1 > 87 {
                assert(n1 * pow2(87) >= pow2(87)) by (nonlinear_arith)
                    requires
                        n1 >= 1,
                ;
            }
            k = k + 1;
        }
        n = 2 * n;
        e = e - 1;
    }
    let q: u128 = n / d;
    let r: u128 = n % d;
    assert(0x80_0000 <= q < 0x100_0000) by (nonlinear_arith)
        requires
            d > 0,
            q == n / d,
            d * 0x80_0000 <= n < d * 0x100_0000,
    ;
    let up: bool = 2 * r > d || (2 * r == d && q % 2 == 1);
    let sig: u32 = if up {
        (q + 1) as u32
    } else {
        q as u32
    };
    Single { sig, exp: e }
}

/// The low eight bits of the floor of `sig * 2^exp`.
pub fn floor_byte(sig: u32, exp: i32) -> (b: u8)
    ensures
        b == (Dyadic { m: sig as nat, e: exp as int }).floor() % 256,
{
    if exp >= 0 {
        let mut acc: u32 = sig % 256;
        let mut left: i32 = exp;
        proof {
            lemma_floor_low_byte(sig as nat, exp as int);
        }
        while left > 0
            invariant
                0 <= left,
                acc < 256,
                (Dyadic { m: sig as nat, e: exp as int }).floor() % 256 == (Dyadic {
                    m: acc as nat,
                    e: left as int,
                }).floor() % 256,
            decreases left,
        {
            proof {
                lemma_floor_low_byte(2 * acc as nat, left - 1);
            }
            acc = (2 * acc) % 256;
            left = left - 1;
        }
        acc as u8
    } else {
        let mut acc: u32 = sig;
        let mut left: i32 = exp;
        while left < 0
            invariant
                left <= 0,
                (Dyadic { m: sig as nat, e: exp as int }).floor() == (Dyadic {
                    m: acc as nat,
                    e: left as int,
                }).floor(),
            decreases -left,
        {
            acc = acc / 2;
            left = left + 1;
        }
        (acc % 256) as u8
    }
}

} // verus!
