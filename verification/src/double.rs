//! Double-precision arithmetic on non-negative numbers, carried out in integers.
//!
//! A number is a mantissa times a power of two. Every operation yields the number of 53
//! significant bits that is nearest to the exact result, the even one of two equally near,
//! which is what the machine's double-precision operations yield.

use vstd::prelude::*;

verus! {

/// A non-negative number: `mantissa` times two to the power `exponent`.
#[derive(Clone, Copy, PartialEq, Eq, Structural)]
pub struct Double {
    pub mantissa: u64,
    pub exponent: i32,
}

/// The least mantissa of 53 significant bits.
pub const LEAST: u64 = 0x10_0000_0000_0000;

/// Two to the power `k`.
pub open spec fn two_to(k: nat) -> nat
    decreases k,
{
    if k == 0 {
        1
    } else {
        2 * two_to((k - 1) as nat)
    }
}

/// The integer nearest to `n / d`, the even one of two equally near.
pub open spec fn round_even(n: nat, d: nat) -> nat {
    let q = n / d;
    let r = n % d;
    if 2 * r < d || (2 * r == d && q % 2 == 0) {
        q
    } else {
        q + 1
    }
}

/// A number of 53 significant bits, with unbounded exponent.
pub struct Number {
    pub mantissa: nat,
    pub exponent: int,
}

impl Number {
    /// The number times two to the power `by`.
    pub open spec fn shifted(self, by: int) -> Number {
        Number { mantissa: self.mantissa, exponent: self.exponent + by }
    }
}

/// The number of 53 significant bits that is nearest to `n / d`: the quotient is scaled by two
/// until its integer part has 53 bits, and rounded.
pub open spec fn nearest(n: nat, d: nat) -> Number
    decreases
            (if n < d * LEAST {
                d * LEAST - n
            } else if n >= 2 * d * LEAST {
                n - 2 * d * LEAST + 1
            } else {
                0
            }),
{
    if n == 0 || d == 0 {
        Number { mantissa: 0, exponent: 0 }
    } else if n < d * LEAST {
        nearest(2 * n, d).shifted(-1)
    } else if n >= 2 * d * LEAST {
        nearest(n, 2 * d).shifted(1)
    } else {
        Number { mantissa: round_even(n, d), exponent: 0 }
    }
}

/// The nearest number to the quotient of two numbers.
pub open spec fn quotient(a: Number, b: Number) -> Number {
    if a.mantissa == 0 {
        a
    } else {
        nearest(a.mantissa, b.mantissa).shifted(a.exponent - b.exponent)
    }
}

/// The nearest number to `a` times the integer `k`.
pub open spec fn multiple(a: Number, k: nat) -> Number {
    if a.mantissa == 0 {
        a
    } else {
        nearest(a.mantissa * k, 1).shifted(a.exponent)
    }
}

/// The nearest number to the sum of two numbers.
pub open spec fn sum(a: Number, b: Number) -> Number {
    if a.mantissa == 0 {
        b
    } else if b.mantissa == 0 {
        a
    } else if a.exponent >= b.exponent {
        nearest(a.mantissa * two_to((a.exponent - b.exponent) as nat) + b.mantissa, 1).shifted(
            b.exponent,
        )
    } else {
        nearest(b.mantissa * two_to((b.exponent - a.exponent) as nat) + a.mantissa, 1).shifted(
            a.exponent,
        )
    }
}

/// Whether `a` is at least `n / d`.
pub open spec fn at_least(a: Number, n: nat, d: nat) -> bool {
    if a.exponent >= 0 {
        a.mantissa * two_to(a.exponent as nat) * d >= n
    } else {
        a.mantissa * d >= n * two_to((-a.exponent) as nat)
    }
}

/// Whether `a` is greater than `n / d`.
pub open spec fn exceeds(a: Number, n: nat, d: nat) -> bool {
    if a.exponent >= 0 {
        a.mantissa * two_to(a.exponent as nat) * d > n
    } else {
        a.mantissa * d > n * two_to((-a.exponent) as nat)
    }
}

/// The integer part of `a`.
pub open spec fn whole(a: Number) -> nat {
    if a.exponent >= 0 {
        a.mantissa * two_to(a.exponent as nat)
    } else {
        a.mantissa / two_to((-a.exponent) as nat)
    }
}

/// The integer nearest to `a`, the greater of two equally near.
pub open spec fn rounded(a: Number) -> nat {
    if a.exponent >= 0 {
        a.mantissa * two_to(a.exponent as nat)
    } else {
        (2 * a.mantissa + two_to((-a.exponent) as nat)) / (2 * two_to((-a.exponent) as nat))
    }
}

/// The integer nearest to `k` times `a`, the even one of two equally near.
pub open spec fn rounded_multiple(a: Number, k: nat) -> nat {
    if a.exponent >= 0 {
        a.mantissa * two_to(a.exponent as nat) * k
    } else {
        round_even(a.mantissa * k, two_to((-a.exponent) as nat))
    }
}

impl View for Double {
    type V = Number;

    open spec fn view(&self) -> Number {
        Number { mantissa: self.mantissa as nat, exponent: self.exponent as int }
    }
}

pub proof fn lemma_two_to_positive(k: nat)
    ensures
        two_to(k) >= 1,
    decreases k,
{
    if k > 0 {
        lemma_two_to_positive((k - 1) as nat);
    }
}

pub proof fn lemma_two_to_monotone(j: nat, k: nat)
    requires
        j <= k,
    ensures
        two_to(j) <= two_to(k),
    decreases k,
{
    if j < k {
        lemma_two_to_monotone(j, (k - 1) as nat);
    }
}

pub proof fn lemma_two_to_adds(j: nat, k: nat)
    ensures
        two_to(j + k) == two_to(j) * two_to(k),
    decreases k,
{
    if k > 0 {
        lemma_two_to_adds(j, (k - 1) as nat);
        let a = two_to(j);
        let b = two_to((k - 1) as nat);
        assert(a * (2 * b) == 2 * (a * b)) by (nonlinear_arith);
        assert(two_to(j + k) == 2 * two_to((j + k - 1) as nat));
    } else {
        assert(two_to(j) * 1 == two_to(j));
    }
}

pub proof fn lemma_two_to_64()
    ensures
        two_to(12) == 0x1000,
        two_to(32) == 0x1_0000_0000,
        two_to(52) == LEAST,
        two_to(54) == 4 * LEAST,
        two_to(60) == 0x1000_0000_0000_0000,
        two_to(64) == 0x1_0000_0000_0000_0000,
{
    assert(two_to(12) == 0x1000) by {
        reveal_with_fuel(two_to, 13);
    }
    assert(two_to(32) == 0x1_0000_0000) by {
        reveal_with_fuel(two_to, 21);
    }
    assert(two_to(52) == LEAST) by {
        reveal_with_fuel(two_to, 21);
    }
    assert(two_to(64) == 0x1_0000_0000_0000_0000) by {
        reveal_with_fuel(two_to, 13);
    }
    assert(two_to(60) == 0x1000_0000_0000_0000) by {
        reveal_with_fuel(two_to, 9);
    }
    assert(two_to(54) == 4 * LEAST) by {
        reveal_with_fuel(two_to, 3);
    }
}

/// Two to the power `k`.
fn power_of_two(k: u32) -> (r: u128)
    requires
        k <= 127,
    ensures
        r == two_to(k as nat),
{
    proof {
        lemma_two_to_127();
    }
    let mut r: u128 = 1;
    let mut i: u32 = 0;
    while i < k
        invariant
            i <= k <= 127,
            r == two_to(i as nat),
            two_to(127) == 0x8000_0000_0000_0000_0000_0000_0000_0000,
        decreases k - i,
    {
        proof {
            lemma_two_to_monotone((i + 1) as nat, 127);
        }
        r = 2 * r;
        i = i + 1;
    }
    r
}

proof fn lemma_two_to_127()
    ensures
        two_to(127) == 0x8000_0000_0000_0000_0000_0000_0000_0000,
{
    lemma_two_to_64();
    assert(two_to(84) == two_to(64) * 0x10_0000) by {
        reveal_with_fuel(two_to, 21);
    }
    assert(two_to(106) == two_to(84) * 0x40_0000) by {
        reveal_with_fuel(two_to, 23);
    }
    assert(two_to(127) == two_to(106) * 0x20_0000) by {
        reveal_with_fuel(two_to, 22);
    }
}

/// The integer nearest to `n / d`, the even one of two equally near.
fn divide_rounding(n: u128, d: u128) -> (r: u128)
    requires
        0 < d <= 0x4000_0000_0000_0000_0000_0000_0000_0000,
        n < 0x8000_0000_0000_0000_0000_0000_0000_0000,
    ensures
        r == round_even(n as nat, d as nat),
{
    let q: u128 = n / d;
    let r: u128 = n % d;
    if 2 * r < d || (2 * r == d && q % 2 == 0) {
        q
    } else {
        q + 1
    }
}

/// The number nearest to `n / d`.
fn nearest_to(n: u128, d: u128) -> (r: Double)
    requires
        0 < n < 0x1_0000_0000_0000_0000_0000_0000,
        0 < d <= 0x100_0000_0000_0000_0000,
    ensures
        r@ == nearest(n as nat, d as nat),
        LEAST <= r.mantissa <= 2 * LEAST,
        -127 <= r.exponent <= 127,
        n < d * LEAST ==> r.exponent < 0,
        n < 0x1_0000_0000_0000_0000 ==> r.exponent <= 12,
        r.exponent <= 0 ==> d * LEAST <= n * two_to((-r.exponent) as nat) < 2 * d * LEAST,
{
    proof {
        lemma_two_to_127();
        lemma_two_to_64();
    }
    let mut top: u128 = n;
    let mut bottom: u128 = d;
    let mut exponent: i32 = 0;
    while top < bottom * 0x10_0000_0000_0000
        invariant
            0 < d <= 0x100_0000_0000_0000_0000,
            bottom == d,
            0 < n < 0x1_0000_0000_0000_0000_0000_0000,
            -127 <= exponent <= 0,
            top >= two_to((-exponent) as nat),
            top == n * two_to((-exponent) as nat),
            exponent < 0 ==> top < bottom * 0x20_0000_0000_0000,
            exponent == 0 ==> top == n,
            two_to(127) == 0x8000_0000_0000_0000_0000_0000_0000_0000,
            nearest(n as nat, d as nat) == nearest(top as nat, bottom as nat).shifted(
                exponent as int,
            ),
            top > 0,
        decreases
                (if top < bottom * 0x10_0000_0000_0000 {
                    bottom * 0x10_0000_0000_0000 - top
                } else {
                    0
                }),
    {
        proof {
            if exponent <= -127 {
                lemma_two_to_monotone(127, (-exponent) as nat);
            }
            let now = nearest(top as nat, bottom as nat);
            let next = nearest(2 * top as nat, bottom as nat);
            assert(now == next.shifted(-1));
            assert(now.shifted(exponent as int) == next.shifted(exponent - 1));
            let scale = two_to((-exponent) as nat);
            assert(2 * (n * scale) == n * (2 * scale)) by (nonlinear_arith);
            assert(two_to((-(exponent - 1)) as nat) == 2 * scale);
        }
        top = 2 * top;
        exponent = exponent - 1;
    }
    while top >= bottom * 0x20_0000_0000_0000
        invariant
            top >= bottom * 0x10_0000_0000_0000,
            0 < n < 0x1_0000_0000_0000_0000_0000_0000,
            0 < bottom <= 0x100_0000_0000_0000_0000,
            -127 <= exponent <= 127,
            exponent >= 0 ==> top == n && bottom >= two_to(exponent as nat),
            exponent < 0 ==> top < bottom * 0x20_0000_0000_0000,
            exponent <= 0 ==> bottom == d && top == n * two_to((-exponent) as nat),
            two_to(127) == 0x8000_0000_0000_0000_0000_0000_0000_0000,
            nearest(n as nat, d as nat) == nearest(top as nat, bottom as nat).shifted(
                exponent as int,
            ),
            n < d * LEAST ==> exponent < 0,
        decreases top - bottom,
    {
        proof {
            if exponent >= 127 {
                lemma_two_to_monotone(127, exponent as nat);
            }
            let now = nearest(top as nat, bottom as nat);
            let next = nearest(top as nat, 2 * bottom as nat);
            assert(now == next.shifted(1));
            assert(now.shifted(exponent as int) == next.shifted(exponent + 1));
        }
        bottom = 2 * bottom;
        exponent = exponent + 1;
    }
    proof {
        if n < 0x1_0000_0000_0000_0000 && exponent > 12 {
            lemma_two_to_monotone(13, exponent as nat);
            assert(two_to(13) == 0x2000);
        }
    }
    let mantissa: u128 = divide_rounding(top, bottom);
    assert(LEAST <= mantissa <= 2 * LEAST) by {
        assert(top / bottom >= 0x10_0000_0000_0000) by (nonlinear_arith)
            requires
                top >= bottom * 0x10_0000_0000_0000,
                bottom > 0,
        ;
        assert(top / bottom < 0x20_0000_0000_0000) by (nonlinear_arith)
            requires
                top < bottom * 0x20_0000_0000_0000,
                bottom > 0,
        ;
    }
    Double { mantissa: mantissa as u64, exponent }
}

impl Double {
    /// A number that an operation of this module can have yielded from 64-bit integers.
    pub open spec fn valid(self) -> bool {
        &&& self.mantissa == 0 || LEAST <= self.mantissa <= 2 * LEAST
        &&& -1000 <= self.exponent <= 1000
    }

    /// The number nearest to an integer.
    pub fn from_integer(n: u64) -> (r: Double)
        ensures
            r@ == nearest(n as nat, 1),
            r.valid(),
            -127 <= r.exponent <= 12,
            n > 0 ==> r.mantissa > 0,
            0 < n < LEAST ==> r.exponent < 0,
            n > 0 && r.exponent <= 0 ==> LEAST <= n * two_to((-r.exponent) as nat) < 2 * LEAST,
    {
        if n == 0 {
            Double { mantissa: 0, exponent: 0 }
        } else {
            nearest_to(n as u128, 1)
        }
    }

    /// The nearest number to the quotient of two numbers.
    pub fn divided_by(self, by: Double) -> (r: Double)
        requires
            self.valid(),
            by.valid(),
            by.mantissa > 0,
            -300 <= self.exponent <= 300,
            -300 <= by.exponent <= 300,
        ensures
            r@ == quotient(self@, by@),
            r.valid(),
            -727 <= r.exponent <= 727,
            self.mantissa > 0 ==> r.mantissa > 0,
    {
        if self.mantissa == 0 {
            self
        } else {
            let r = nearest_to(self.mantissa as u128, by.mantissa as u128);
            Double { mantissa: r.mantissa, exponent: r.exponent + (self.exponent - by.exponent) }
        }
    }

    /// The nearest number to the quotient of a number and an integer.
    pub fn divided_by_integer(self, by: u64) -> (r: Double)
        requires
            self.valid(),
            by > 2,
            -800 <= self.exponent <= 800,
        ensures
            r@ == quotient(self@, Number { mantissa: by as nat, exponent: 0 }),
            r.valid(),
            self.exponent - 127 <= r.exponent <= self.exponent,
            self.mantissa > 0 ==> by * LEAST <= self.mantissa * two_to(
                (self.exponent - r.exponent) as nat,
            ) < 2 * by * LEAST,
    {
        if self.mantissa == 0 {
            self
        } else {
            let r = nearest_to(self.mantissa as u128, by as u128);
            Double { mantissa: r.mantissa, exponent: r.exponent + self.exponent }
        }
    }

    /// The nearest number to a number times an integer.
    pub fn times(self, k: u32) -> (r: Double)
        requires
            self.valid(),
            k > 0,
            -800 <= self.exponent <= 800,
        ensures
            r@ == multiple(self@, k as nat),
            r.valid(),
    {
        if self.mantissa == 0 {
            self
        } else {
            assert(0 < self.mantissa * k <= 0x20_0000_0000_0000 * 0xffff_ffff) by (nonlinear_arith)
                requires
                    0 < self.mantissa <= 0x20_0000_0000_0000,
                    0 < k <= 0xffff_ffff,
            ;
            let r = nearest_to(self.mantissa as u128 * k as u128, 1);
            Double { mantissa: r.mantissa, exponent: r.exponent + self.exponent }
        }
    }

    /// The nearest number to the sum of two numbers whose exponents differ by at most 40.
    pub fn plus(self, other: Double) -> (r: Double)
        requires
            self.valid(),
            other.valid(),
            -300 <= self.exponent <= 300,
            -300 <= other.exponent <= 300,
            self.mantissa > 0 && other.mantissa > 0 ==> -40 <= self.exponent - other.exponent <= 40,
        ensures
            r@ == sum(self@, other@),
            r.valid(),
            self.exponent - 167 <= r.exponent <= self.exponent + 167 || r == other,
    {
        if self.mantissa == 0 {
            other
        } else if other.mantissa == 0 {
            self
        } else if self.exponent >= other.exponent {
            add_aligned(self, other)
        } else {
            add_aligned(other, self)
        }
    }

    /// Whether the number is at least `n / d`.
    pub fn at_least(self, n: u32, d: u32) -> (r: bool)
        requires
            self.valid(),
            d > 0,
        ensures
            r == at_least(self@, n as nat, d as nat),
            !r ==> self.mantissa == 0 || self.exponent < 0,
    {
        if self.mantissa == 0 {
            assert(0 * two_to(self.exponent as nat) * d == 0) by (nonlinear_arith);
            proof {
                lemma_scaled_zero(n as nat, (-self.exponent) as nat);
            }
            n == 0
        } else if self.exponent >= 0 {
            proof {
                lemma_scaled_large(self.mantissa as nat, self.exponent as nat, d as nat);
            }
            true
        } else {
            let k: u32 = (-self.exponent) as u32;
            if k >= 90 {
                proof {
                    lemma_far_below(self.mantissa as nat, n as nat, d as nat, k as nat);
                }
                n == 0
            } else {
                let scale: u128 = power_of_two(k);
                proof {
                    lemma_within(self.mantissa as nat, n as nat, d as nat, k as nat);
                }
                self.mantissa as u128 * d as u128 >= n as u128 * scale
            }
        }
    }

    /// Whether the number is greater than `n / d`.
    pub fn exceeds(self, n: u32, d: u32) -> (r: bool)
        requires
            self.valid(),
            d > 0,
        ensures
            r == exceeds(self@, n as nat, d as nat),
    {
        if self.mantissa == 0 {
            assert(0 * two_to(self.exponent as nat) * d == 0) by (nonlinear_arith);
            false
        } else if self.exponent >= 0 {
            proof {
                lemma_scaled_large(self.mantissa as nat, self.exponent as nat, d as nat);
            }
            true
        } else {
            let k: u32 = (-self.exponent) as u32;
            if k >= 90 {
                proof {
                    lemma_far_below(self.mantissa as nat, n as nat, d as nat, k as nat);
                }
                n == 0
            } else {
                let scale: u128 = power_of_two(k);
                proof {
                    lemma_within(self.mantissa as nat, n as nat, d as nat, k as nat);
                }
                self.mantissa as u128 * d as u128 > n as u128 * scale
            }
        }
    }

    /// The integer part of the number, or the greatest 64-bit integer where it is greater.
    pub fn to_integer(self) -> (r: u64)
        requires
            self.valid(),
        ensures
            r == if whole(self@) <= u64::MAX {
                whole(self@)
            } else {
                u64::MAX as nat
            },
    {
        if self.mantissa == 0 {
            proof {
                lemma_two_to_positive((-self.exponent) as nat);
                assert(0 * two_to(self.exponent as nat) == 0);
                assert(0nat / two_to((-self.exponent) as nat) == 0) by (nonlinear_arith)
                    requires
                        two_to((-self.exponent) as nat) > 0,
                ;
            }
            0
        } else if self.exponent >= 12 {
            proof {
                lemma_two_to_64();
                lemma_two_to_monotone(12, self.exponent as nat);
                assert(self.mantissa * two_to(self.exponent as nat) >= 0x10_0000_0000_0000 * 0x1000)
                    by (nonlinear_arith)
                    requires
                        self.mantissa >= 0x10_0000_0000_0000,
                        two_to(self.exponent as nat) >= 0x1000,
                ;
            }
            u64::MAX
        } else if self.exponent >= 0 {
            let scale: u128 = power_of_two(self.exponent as u32);
            proof {
                lemma_two_to_64();
                lemma_two_to_monotone(self.exponent as nat, 12);
                assert(self.mantissa * scale <= 0x20_0000_0000_0000 * 0x1000) by (nonlinear_arith)
                    requires
                        self.mantissa <= 0x20_0000_0000_0000,
                        scale <= 0x1000,
                ;
            }
            let r: u128 = self.mantissa as u128 * scale;
            if r <= u64::MAX as u128 {
                r as u64
            } else {
                u64::MAX
            }
        } else {
            let k: u32 = (-self.exponent) as u32;
            if k >= 54 {
                proof {
                    lemma_two_to_64();
                    lemma_two_to_monotone(54, k as nat);
                    assert(self.mantissa as nat / two_to(k as nat) == 0) by (nonlinear_arith)
                        requires
                            (self.mantissa as nat) < two_to(k as nat),
                    ;
                }
                0
            } else {
                let scale: u128 = power_of_two(k);
                proof {
                    lemma_two_to_positive(k as nat);
                    assert(self.mantissa as u128 / scale <= self.mantissa as u128) by (nonlinear_arith)
                        requires
                            scale >= 1,
                    ;
                }
                (self.mantissa as u128 / scale) as u64
            }
        }
    }

    /// The nearest integer, the greater of two equally near, but no more than `limit`.
    pub fn round_up_to(self, limit: u8) -> (r: u8)
        requires
            self.valid(),
        ensures
            r == if rounded(self@) <= limit {
                rounded(self@)
            } else {
                limit as nat
            },
    {
        if self.mantissa == 0 {
            proof {
                let t = two_to((-self.exponent) as nat);
                lemma_two_to_positive((-self.exponent) as nat);
                assert(0 * two_to(self.exponent as nat) == 0);
                assert((2 * 0 + t) / (2 * t) == 0) by (nonlinear_arith)
                    requires
                        t > 0,
                ;
            }
            0
        } else if self.exponent >= 0 {
            proof {
                lemma_scaled_large(self.mantissa as nat, self.exponent as nat, 1);
            }
            limit
        } else {
            let k: u32 = (-self.exponent) as u32;
            if k >= 60 {
                proof {
                    lemma_two_to_64();
                    lemma_two_to_monotone(60, k as nat);
                    let t = two_to(k as nat);
                    assert((2 * self.mantissa + t) / (2 * t as int) == 0) by (nonlinear_arith)
                        requires
                            2 * self.mantissa < t,
                    ;
                }
                0
            } else {
                let scale: u128 = power_of_two(k);
                proof {
                    lemma_two_to_positive(k as nat);
                    lemma_two_to_64();
                    lemma_two_to_monotone(k as nat, 60);
                }
                let r: u128 = (2 * self.mantissa as u128 + scale) / (2 * scale);
                if r <= limit as u128 {
                    r as u8
                } else {
                    limit
                }
            }
        }
    }

    /// The integer nearest to ten times the number, the even one of two equally near.
    pub fn tenths(self) -> (r: u128)
        requires
            self.valid(),
            self.exponent <= 12,
        ensures
            r == rounded_multiple(self@, 10),
            r <= 0x2_0000_0000_0000_0000_0000,
    {
        if self.exponent >= 0 {
            let scale: u128 = power_of_two(self.exponent as u32);
            proof {
                lemma_two_to_64();
                lemma_two_to_monotone(self.exponent as nat, 12);
                assert(self.mantissa * scale <= 0x20_0000_0000_0000 * 0x1000) by (nonlinear_arith)
                    requires
                        self.mantissa <= 0x20_0000_0000_0000,
                        scale <= 0x1000,
                ;
            }
            self.mantissa as u128 * scale * 10
        } else {
            let k: u32 = (-self.exponent) as u32;
            if k >= 60 {
                proof {
                    lemma_two_to_64();
                    lemma_two_to_monotone(60, k as nat);
                    let t = two_to(k as nat);
                    let n = (self.mantissa * 10) as nat;
                    assert(n / t == 0 && n % t == n) by (nonlinear_arith)
                        requires
                            n < t,
                    ;
                }
                0
            } else {
                let scale: u128 = power_of_two(k);
                proof {
                    lemma_two_to_positive(k as nat);
                    lemma_two_to_64();
                    lemma_two_to_monotone(k as nat, 60);
                    assert((self.mantissa * 10) / (scale as int) <= self.mantissa * 10)
                        by (nonlinear_arith)
                        requires
                            scale >= 1,
                    ;
                }
                divide_rounding(self.mantissa as u128 * 10, scale)
            }
        }
    }
}

proof fn lemma_scaled_zero(n: nat, k: nat)
    ensures
        0 >= n * two_to(k) <==> n == 0,
{
    lemma_two_to_positive(k);
    assert(n * two_to(k) >= n) by (nonlinear_arith)
        requires
            two_to(k) >= 1,
    ;
}

proof fn lemma_scaled_large(m: nat, k: nat, d: nat)
    requires
        m >= LEAST,
        d >= 1,
    ensures
        m * two_to(k) >= m,
        m * two_to(k) * d >= m,
{
    lemma_two_to_positive(k);
    assert(m * two_to(k) >= m && m * two_to(k) * d >= m) by (nonlinear_arith)
        requires
            two_to(k) >= 1,
            d >= 1,
    ;
}

proof fn lemma_far_below(m: nat, n: nat, d: nat, k: nat)
    requires
        0 < m <= 2 * LEAST,
        0 < d <= u32::MAX,
        k >= 90,
    ensures
        n == 0 ==> m * d > n * two_to(k),
        n > 0 ==> m * d < n * two_to(k),
{
    lemma_two_to_64();
    lemma_two_to_monotone(86, k);
    assert(two_to(86) == two_to(64) * 0x40_0000) by {
        reveal_with_fuel(two_to, 23);
    }
    let t = two_to(k);
    assert(m * d <= 0x20_0000_0000_0000 * 0xffff_ffff) by (nonlinear_arith)
        requires
            m <= 0x20_0000_0000_0000,
            d <= 0xffff_ffff,
    ;
    assert(m * d > 0) by (nonlinear_arith)
        requires
            m > 0,
            d > 0,
    ;
    assert(n == 0 ==> n * t == 0) by (nonlinear_arith);
    assert(n > 0 ==> n * t >= t) by (nonlinear_arith);
}

proof fn lemma_within(m: nat, n: nat, d: nat, k: nat)
    requires
        m <= 2 * LEAST,
        n <= u32::MAX,
        d <= u32::MAX,
        k < 90,
    ensures
        m * d <= 0x20_0000_0000_0000 * 0xffff_ffff,
        n * two_to(k) <= u128::MAX,
{
    lemma_two_to_64();
    lemma_two_to_monotone(k, 90);
    assert(two_to(90) == two_to(64) * 0x400_0000) by {
        reveal_with_fuel(two_to, 27);
    }
    let t = two_to(k);
    assert(m * d <= 0x20_0000_0000_0000 * 0xffff_ffff) by (nonlinear_arith)
        requires
            m <= 0x20_0000_0000_0000,
            d <= 0xffff_ffff,
    ;
    assert(n * t <= 0xffff_ffff * 0x1_0000_0000_0000_0000 * 0x400_0000) by (nonlinear_arith)
        requires
            n <= 0xffff_ffff,
            t <= 0x1_0000_0000_0000_0000 * 0x400_0000,
    ;
}

/// The nearest number to the sum of two numbers, of which the first has the greater exponent.
fn add_aligned(a: Double, b: Double) -> (r: Double)
    requires
        a.valid(),
        b.valid(),
        a.mantissa > 0,
        b.mantissa > 0,
        0 <= a.exponent - b.exponent <= 40,
        -300 <= b.exponent <= 300,
    ensures
        r@ == nearest(
            (a.mantissa * two_to((a.exponent - b.exponent) as nat) + b.mantissa) as nat,
            1,
        ).shifted(b.exponent as int),
        r.valid(),
        b.exponent - 127 <= r.exponent <= b.exponent + 127,
{
    let scale: u128 = power_of_two((a.exponent - b.exponent) as u32);
    proof {
        lemma_two_to_monotone((a.exponent - b.exponent) as nat, 40);
        lemma_two_to_positive((a.exponent - b.exponent) as nat);
        assert(two_to(40) == 0x100_0000_0000) by {
            lemma_two_to_64();
            reveal_with_fuel(two_to, 9);
        }
        assert(0 < a.mantissa * scale <= 0x20_0000_0000_0000 * 0x100_0000_0000)
            by (nonlinear_arith)
            requires
                0 < a.mantissa <= 0x20_0000_0000_0000,
                0 < scale <= 0x100_0000_0000,
        ;
    }
    let r = nearest_to(a.mantissa as u128 * scale + b.mantissa as u128, 1);
    Double { mantissa: r.mantissa, exponent: r.exponent + b.exponent }
}

/// Whether `a` is no greater than `b`, by their exponents first. Of numbers whose mantissas have 53
/// significant bits, the one with the lesser exponent is no greater.
pub open spec fn no_greater(a: Number, b: Number) -> bool {
    a.mantissa == 0 || a.exponent < b.exponent || (a.exponent == b.exponent && a.mantissa
        <= b.mantissa)
}

/// Whether a number is zero, or its mantissa has 53 significant bits or is the next power of two.
pub open spec fn is_normal(a: Number) -> bool {
    a.mantissa == 0 || LEAST <= a.mantissa <= 2 * LEAST
}

/// Rounding keeps order, and rounds no integer away.
proof fn lemma_round_even(a: nat, b: nat, d: nat)
    requires
        a <= b,
        d > 0,
    ensures
        round_even(a, d) <= round_even(b, d),
        round_even(2 * a, 2 * d) == round_even(a, d),
        a >= d * LEAST ==> round_even(a, d) >= LEAST,
        a < 2 * d * LEAST ==> round_even(a, d) <= 2 * LEAST,
{
    let q = a / d;
    let r = a % d;
    assert(a == q * d + r && r < d) by (nonlinear_arith)
        requires
            q == a / d,
            r == a % d,
            d > 0,
    ;
    let p = b / d;
    let s = b % d;
    assert(b == p * d + s && s < d) by (nonlinear_arith)
        requires
            p == b / d,
            s == b % d,
            d > 0,
    ;
    assert(q <= p) by (nonlinear_arith)
        requires
            q * d + r <= p * d + s,
            s < d,
            d > 0,
    ;
    if q == p {
        assert(r <= s);
    }
    assert((2 * a) / (2 * d) == q && (2 * a) % (2 * d) == 2 * r) by {
        assert(2 * a == q * (2 * d) + 2 * r) by (nonlinear_arith)
            requires
                a == q * d + r,
        ;
        vstd::arithmetic::div_mod::lemma_fundamental_div_mod_converse(
            2 * a as int,
            2 * d as int,
            q as int,
            2 * r as int,
        );
    }
    if a >= d * LEAST {
        assert(q >= LEAST) by (nonlinear_arith)
            requires
                q * d + r >= d * LEAST,
                r < d,
                d > 0,
        ;
    }
    if a < 2 * d * LEAST {
        assert(q < 2 * LEAST) by (nonlinear_arith)
            requires
                q * d + r < 2 * d * LEAST,
                d > 0,
        ;
    }
}

/// The number nearest to a quotient is normal, and its exponent tells the quotient's magnitude.
pub proof fn lemma_nearest_is_normal(n: nat, d: nat)
    requires
        n > 0,
        d > 0,
    ensures
        LEAST <= nearest(n, d).mantissa <= 2 * LEAST,
        n < d * LEAST ==> nearest(n, d).exponent < 0,
        d * LEAST <= n < 2 * d * LEAST ==> nearest(n, d).exponent == 0,
        n >= 2 * d * LEAST ==> nearest(n, d).exponent > 0,
    decreases
            (if n < d * LEAST {
                d * LEAST - n
            } else if n >= 2 * d * LEAST {
                n - 2 * d * LEAST + 1
            } else {
                0
            }),
{
    if n < d * LEAST {
        lemma_nearest_is_normal(2 * n, d);
    } else if n >= 2 * d * LEAST {
        lemma_nearest_is_normal(n, 2 * d);
    } else {
        lemma_round_even(n, n, d);
    }
}

/// The nearest number keeps the order of quotients.
pub proof fn lemma_nearest_keeps_order(a: nat, b: nat, d: nat)
    requires
        0 < a <= b,
        d > 0,
    ensures
        no_greater(nearest(a, d), nearest(b, d)),
    decreases
            (if b < d * LEAST {
                d * LEAST - b
            } else if a >= 2 * d * LEAST {
                a - 2 * d * LEAST + 1
            } else {
                0
            }),
{
    if b < d * LEAST {
        lemma_nearest_keeps_order(2 * a, 2 * b, d);
    } else if a >= 2 * d * LEAST {
        lemma_nearest_keeps_order(a, b, 2 * d);
    } else {
        lemma_nearest_is_normal(a, d);
        lemma_nearest_is_normal(b, d);
        lemma_round_even(a, b, d);
    }
}

/// Doubling both sides of a quotient changes nothing.
proof fn lemma_nearest_of_doubles(n: nat, d: nat)
    requires
        n > 0,
        d > 0,
    ensures
        nearest(2 * n, 2 * d) == nearest(n, d),
    decreases
            (if n < d * LEAST {
                d * LEAST - n
            } else if n >= 2 * d * LEAST {
                n - 2 * d * LEAST + 1
            } else {
                0
            }),
{
    assert((2 * d) * LEAST == 2 * (d * LEAST)) by (nonlinear_arith);
    if n < d * LEAST {
        lemma_nearest_of_doubles(2 * n, d);
    } else if n >= 2 * d * LEAST {
        lemma_nearest_of_doubles(n, 2 * d);
    } else {
        lemma_round_even(n, n, d);
    }
}

/// Doubling a quotient raises the exponent by one.
pub proof fn lemma_nearest_of_double(n: nat, d: nat)
    requires
        n > 0,
        d > 0,
    ensures
        nearest(2 * n, d) == nearest(n, d).shifted(1),
{
    if n >= d * LEAST {
        assert(2 * n >= 2 * d * LEAST) by (nonlinear_arith)
            requires
                n >= d * LEAST,
        ;
        assert(2 * n >= d * LEAST) by (nonlinear_arith)
            requires
                n >= d * LEAST,
        ;
        lemma_nearest_of_doubles(n, d);
    }
}

proof fn lemma_times_one(n: nat)
    ensures
        n * two_to(0) == n,
{
    let t = two_to(0);
    assert(n * t == n) by (nonlinear_arith)
        requires
            t == 1,
    ;
}

/// A factor that both sides of a quotient have cancels.
pub proof fn lemma_nearest_cancels(n: nat, d: nat, c: nat)
    requires
        n > 0,
        d > 0,
        c > 0,
    ensures
        nearest(c * n, c * d) == nearest(n, d),
    decreases
            (if n < d * LEAST {
                d * LEAST - n
            } else if n >= 2 * d * LEAST {
                n - 2 * d * LEAST + 1
            } else {
                0
            }),
{
    assert(c * n > 0 && c * d > 0) by (nonlinear_arith)
        requires
            n > 0,
            d > 0,
            c > 0,
    ;
    assert((c * d) * LEAST == c * (d * LEAST)) by (nonlinear_arith);
    let limit = d * LEAST;
    assert(n < limit <==> c * n < c * limit) by (nonlinear_arith)
        requires
            c > 0,
    ;
    assert(n >= 2 * limit <==> c * n >= 2 * (c * limit)) by (nonlinear_arith)
        requires
            c > 0,
    ;
    if n < limit {
        assert(2 * (c * n) == c * (2 * n)) by (nonlinear_arith);
        lemma_nearest_cancels(2 * n, d, c);
    } else if n >= 2 * limit {
        assert(2 * (c * d) == c * (2 * d)) by (nonlinear_arith);
        lemma_nearest_cancels(n, 2 * d, c);
    } else {
        let q = n / d;
        let r = n % d;
        assert(n == q * d + r && r < d) by (nonlinear_arith)
            requires
                q == n / d,
                r == n % d,
                d > 0,
        ;
        assert(c * n == q * (c * d) + c * r) by (nonlinear_arith)
            requires
                n == q * d + r,
        ;
        assert(c * r < c * d) by (nonlinear_arith)
            requires
                r < d,
                c > 0,
        ;
        assert(2 * r < d <==> 2 * (c * r) < c * d) by (nonlinear_arith)
            requires
                c > 0,
        ;
        assert(2 * r == d <==> 2 * (c * r) == c * d) by (nonlinear_arith)
            requires
                c > 0,
        ;
        vstd::arithmetic::div_mod::lemma_fundamental_div_mod_converse(
            (c * n) as int,
            (c * d) as int,
            q as int,
            (c * r) as int,
        );
    }
}

/// An integer of up to 53 bits is its own nearest number, scaled.
pub proof fn lemma_nearest_is_exact(n: nat) -> (k: nat)
    requires
        0 < n < 2 * LEAST,
    ensures
        nearest(n, 1) == (Number { mantissa: n * two_to(k), exponent: -(k as int) }),
    decreases 2 * LEAST - n,
{
    if n < LEAST {
        let j = lemma_nearest_is_exact(2 * n);
        let t = two_to(j);
        assert(2 * n * t == n * (2 * t)) by (nonlinear_arith);
        assert(two_to(j + 1) == 2 * t);
        j + 1
    } else {
        lemma_times_one(n);
        assert(n / 1 == n && n % 1 == 0);
        0
    }
}

/// Scaling a quotient by a power of two raises the exponent.
pub proof fn lemma_nearest_of_scaled(n: nat, d: nat, k: nat)
    requires
        n > 0,
        d > 0,
    ensures
        nearest(n * two_to(k), d) == nearest(n, d).shifted(k as int),
    decreases k,
{
    if k == 0 {
        lemma_times_one(n);
    } else {
        let t = two_to((k - 1) as nat);
        lemma_nearest_of_scaled(n, d, (k - 1) as nat);
        lemma_two_to_positive((k - 1) as nat);
        assert(n * t > 0) by (nonlinear_arith)
            requires
                n > 0,
                t > 0,
        ;
        assert(n * (2 * t) == 2 * (n * t)) by (nonlinear_arith);
        lemma_nearest_of_double(n * t, d);
    }
}

/// The mantissa of the lesser of two numbers is no greater than that of the other, once both have
/// the same exponent.
proof fn lemma_same_exponent(a: Number, b: Number)
    requires
        no_greater(a, b),
        a.mantissa > 0,
        is_normal(a),
        is_normal(b),
        b.mantissa > 0,
    ensures
        b.exponent >= a.exponent,
        a.mantissa <= b.mantissa * two_to((b.exponent - a.exponent) as nat),
{
    let k = (b.exponent - a.exponent) as nat;
    if k == 0 {
        lemma_times_one(b.mantissa);
    } else {
        lemma_two_to_monotone(1, k);
        assert(two_to(1) == 2) by {
            reveal_with_fuel(two_to, 2);
        }
        let t = two_to(k);
        assert(b.mantissa * t >= 2 * LEAST) by (nonlinear_arith)
            requires
                b.mantissa >= LEAST,
                t >= 2,
        ;
    }
}

/// Quotients of two numbers by the same one keep their order.
pub proof fn lemma_quotient_keeps_order(a: Number, b: Number, by: Number)
    requires
        no_greater(a, b),
        is_normal(a),
        is_normal(b),
        by.mantissa > 0,
        a.mantissa > 0 ==> b.mantissa > 0,
    ensures
        no_greater(quotient(a, by), quotient(b, by)),
        is_normal(quotient(a, by)),
        quotient(a, by).mantissa > 0 ==> quotient(b, by).mantissa > 0,
{
    if a.mantissa > 0 {
        lemma_same_exponent(a, b);
        let k = (b.exponent - a.exponent) as nat;
        lemma_nearest_of_scaled(b.mantissa, by.mantissa, k);
        lemma_nearest_keeps_order(a.mantissa, b.mantissa * two_to(k), by.mantissa);
        lemma_nearest_is_normal(a.mantissa, by.mantissa);
        lemma_nearest_is_normal(b.mantissa, by.mantissa);
    }
}

/// Multiples of two numbers by the same integer keep their order.
pub proof fn lemma_multiple_keeps_order(a: Number, b: Number, k: nat)
    requires
        no_greater(a, b),
        is_normal(a),
        is_normal(b),
        k > 0,
        a.mantissa > 0 ==> b.mantissa > 0,
    ensures
        no_greater(multiple(a, k), multiple(b, k)),
        is_normal(multiple(a, k)),
        multiple(a, k).mantissa > 0 ==> multiple(b, k).mantissa > 0,
{
    if a.mantissa > 0 {
        lemma_same_exponent(a, b);
        let m = a.mantissa;
        let n = b.mantissa;
        let e = (b.exponent - a.exponent) as nat;
        let t = two_to(e);
        assert(0 < m * k && 0 < n * k && m * k <= (n * k) * t) by (nonlinear_arith)
            requires
                0 < m <= n * t,
                n > 0,
                k > 0,
        ;
        lemma_nearest_of_scaled(n * k, 1, e);
        lemma_nearest_keeps_order(m * k, (n * k) * t, 1);
        lemma_nearest_is_normal(m * k, 1);
        lemma_nearest_is_normal(n * k, 1);
    }
}

/// The nearest integers of two numbers keep their order.
pub proof fn lemma_rounded_keeps_order(a: Number, b: Number)
    requires
        no_greater(a, b),
        is_normal(a),
        is_normal(b),
        a.mantissa > 0 ==> b.mantissa > 0,
    ensures
        rounded(a) <= rounded(b),
{
    if a.mantissa > 0 {
        lemma_same_exponent(a, b);
        let k = (b.exponent - a.exponent) as nat;
        let scaled = Number { mantissa: b.mantissa * two_to(k), exponent: a.exponent };
        lemma_rounded_scaled(b.mantissa, a.exponent, k);
        let m = a.mantissa;
        let n = scaled.mantissa;
        if a.exponent >= 0 {
            let t = two_to(a.exponent as nat);
            assert(m * t <= n * t) by (nonlinear_arith)
                requires
                    m <= n,
            ;
        } else {
            let t = two_to((-a.exponent) as nat);
            lemma_two_to_positive((-a.exponent) as nat);
            vstd::arithmetic::div_mod::lemma_div_is_ordered(
                (2 * m + t) as int,
                (2 * n + t) as int,
                (2 * t) as int,
            );
        }
    } else if a.exponent >= 0 {
        let t = two_to(a.exponent as nat);
        assert(0 * t == 0);
    } else {
        let t = two_to((-a.exponent) as nat);
        lemma_two_to_positive((-a.exponent) as nat);
        assert(t / (2 * t) == 0) by (nonlinear_arith)
            requires
                t > 0,
        ;
    }
}

/// A number is at least as great as one that is.
pub proof fn lemma_at_least_keeps_order(a: Number, b: Number, n: nat)
    requires
        no_greater(a, b),
        is_normal(a),
        is_normal(b),
        a.mantissa > 0,
        b.mantissa > 0,
        at_least(a, n, 1),
    ensures
        at_least(b, n, 1),
{
    lemma_same_exponent(a, b);
    let k = (b.exponent - a.exponent) as nat;
    let scaled = b.mantissa * two_to(k);
    lemma_at_least_scaled(b.mantissa, a.exponent, k, n);
    if a.exponent >= 0 {
        let t = two_to(a.exponent as nat);
        let m = a.mantissa;
        assert(m * t <= scaled * t) by (nonlinear_arith)
            requires
                m <= scaled,
        ;
    }
}

/// Whether a number is at least as great does not depend on how it is scaled.
proof fn lemma_at_least_scaled(m: nat, e: int, k: nat, n: nat)
    ensures
        at_least(Number { mantissa: m * two_to(k), exponent: e }, n, 1) == at_least(
            Number { mantissa: m, exponent: e + k },
            n,
            1,
        ),
    decreases k,
{
    if k == 0 {
        lemma_times_one(m);
    } else {
        let t = two_to((k - 1) as nat);
        assert(m * (2 * t) == (m * t) * 2) by (nonlinear_arith);
        lemma_at_least_doubled(m * t, e, n);
        lemma_at_least_scaled(m, e + 1, (k - 1) as nat, n);
    }
}

proof fn lemma_at_least_doubled(m: nat, e: int, n: nat)
    ensures
        at_least(Number { mantissa: m * 2, exponent: e }, n, 1) == at_least(
            Number { mantissa: m, exponent: e + 1 },
            n,
            1,
        ),
{
    if e >= 0 {
        let t = two_to(e as nat);
        assert(two_to((e + 1) as nat) == 2 * t);
        assert((m * 2) * t == m * (2 * t)) by (nonlinear_arith);
    } else if e == -1 {
        assert(two_to(0) == 1);
        assert(two_to(1) == 2) by {
            reveal_with_fuel(two_to, 2);
        }
        lemma_times_one(m);
        let t = two_to(1);
        assert(n * t == 2 * n) by (nonlinear_arith)
            requires
                t == 2,
        ;
    } else {
        let t = two_to((-(e + 1)) as nat);
        assert(two_to((-e) as nat) == 2 * t);
        assert(n * (2 * t) == 2 * (n * t)) by (nonlinear_arith);
    }
}

/// The nearest integer does not depend on how a number is scaled.
proof fn lemma_rounded_scaled(m: nat, e: int, k: nat)
    ensures
        rounded(Number { mantissa: m * two_to(k), exponent: e }) == rounded(
            Number { mantissa: m, exponent: e + k },
        ),
    decreases k,
{
    if k == 0 {
        lemma_times_one(m);
    } else {
        let t = two_to((k - 1) as nat);
        assert(m * (2 * t) == (m * t) * 2) by (nonlinear_arith);
        lemma_rounded_doubled(m * t, e);
        lemma_rounded_scaled(m, e + 1, (k - 1) as nat);
    }
}

proof fn lemma_rounded_doubled(m: nat, e: int)
    ensures
        rounded(Number { mantissa: m * 2, exponent: e }) == rounded(
            Number { mantissa: m, exponent: e + 1 },
        ),
{
    if e >= 0 {
        let t = two_to(e as nat);
        assert(two_to((e + 1) as nat) == 2 * t);
        assert((m * 2) * t == m * (2 * t)) by (nonlinear_arith);
    } else if e == -1 {
        assert(two_to(0) == 1);
        assert(two_to(1) == 2) by {
            reveal_with_fuel(two_to, 2);
        }
        assert((2 * (m * 2) + 2) / 4 == m);
    } else {
        let t = two_to((-(e + 1)) as nat);
        assert(two_to((-e) as nat) == 2 * t);
        lemma_two_to_positive((-(e + 1)) as nat);
        assert((2 * (m * 2) + 2 * t) / (2 * (2 * t)) == (2 * m + t) / (2 * t)) by {
            vstd::arithmetic::div_mod::lemma_div_multiples_vanish_quotient(
                2,
                (2 * m + t) as int,
                (2 * t) as int,
            );
        }
    }
}

/// Two to a power that may be negative.
pub open spec fn power(e: int) -> real {
    if e >= 0 {
        two_to(e as nat) as real
    } else {
        1real / (two_to((-e) as nat) as real)
    }
}

/// What a number stands for.
pub open spec fn value(a: Number) -> real {
    (a.mantissa as real) * power(a.exponent)
}

/// Whether two quantities differ by no more than some thousand millionths of a millionth of a
/// thousandth of the second.
pub open spec fn is_near(a: real, x: real, parts: nat) -> bool {
    &&& a - x <= x * (parts as real) / 1_000_000_000_000_000real
    &&& x - a <= x * (parts as real) / 1_000_000_000_000_000real
}

pub proof fn lemma_power(e: int)
    ensures
        power(e) > 0real,
        power(e + 1) == 2real * power(e),
        power(0) == 1real,
{
    lemma_two_to_positive(0);
    if e >= 0 {
        lemma_two_to_positive(e as nat);
        assert(two_to((e + 1) as nat) == 2 * two_to(e as nat));
    } else {
        lemma_two_to_positive((-e) as nat);
        lemma_two_to_positive((-e - 1) as nat);
        let t = two_to((-e - 1) as nat);
        assert(two_to((-e) as nat) == 2 * t);
        let r = t as real;
        assert(two_to((-e) as nat) as real == 2real * r);
        assert(1real / r == 2real * (1real / (2real * r)) && 1real / (2real * r) > 0real)
            by (nonlinear_arith)
            requires
                r >= 1real,
        ;
        let p = 1real / (2real * r);
        assert(power(e) == p);
        if e == -1 {
            assert(two_to(0) == 1);
            assert(r == 1real);
            assert(1real / r == 1real) by (nonlinear_arith)
                requires
                    r == 1real,
            ;
            assert(power(e + 1) == 1real);
        } else {
            assert((-(e + 1)) as nat == (-e - 1) as nat);
            assert(power(e + 1) == 1real / r);
        }
    }
}

pub proof fn lemma_power_adds(a: int, b: int)
    ensures
        power(a + b) == power(a) * power(b),
    decreases if b >= 0 { b } else { -b },
{
    lemma_power(a);
    if b > 0 {
        lemma_power_adds(a, b - 1);
        lemma_power(a + b - 1);
        lemma_power(b - 1);
        let p = power(a);
        let q = power(b - 1);
        assert(2real * (p * q) == p * (2real * q)) by (nonlinear_arith);
    } else if b < 0 {
        lemma_power_adds(a, b + 1);
        lemma_power(a + b);
        lemma_power(b);
        let p = power(a);
        let q = power(b);
        let s = power(a + b);
        assert(2real * s == p * (2real * q));
        assert(s == p * q) by (nonlinear_arith)
            requires
                2real * s == p * (2real * q),
        ;
    } else {
        assert(power(a) * 1real == power(a)) by (nonlinear_arith);
    }
}

/// A number that is shifted stands for as many times as much.
pub proof fn lemma_value_of_shifted(a: Number, by: int)
    ensures
        value(a.shifted(by)) == value(a) * power(by),
{
    lemma_power_adds(a.exponent, by);
    let m = a.mantissa as real;
    let p = power(a.exponent);
    let q = power(by);
    assert(m * (p * q) == (m * p) * q) by (nonlinear_arith);
}

/// A product stands for the product of what its factors stand for.
pub proof fn lemma_real_product(a: nat, b: nat)
    ensures
        (a * b) as real == (a as real) * (b as real),
    decreases b,
{
    let r = a as real;
    if b > 0 {
        let c = (b - 1) as nat;
        lemma_real_product(a, c);
        assert(a * b == a * c + a) by (nonlinear_arith)
            requires
                b == c + 1,
        ;
        let s = c as real;
        assert(b as real == s + 1real);
        assert(r * (s + 1real) == r * s + r) by (nonlinear_arith);
    } else {
        assert(a * 0 == 0) by (nonlinear_arith);
        assert(r * 0real == 0real) by (nonlinear_arith);
    }
}

/// The integer nearest to a quotient is no more than a half away from it.
pub proof fn lemma_round_even_is_near(n: nat, d: nat)
    requires
        d > 0,
    ensures
        2real * ((round_even(n, d) as real) - (n as real) / (d as real)) <= 1real,
        2real * ((n as real) / (d as real) - (round_even(n, d) as real)) <= 1real,
{
    let m = round_even(n, d);
    let q = n / d;
    let r = n % d;
    assert(n == q * d + r && r < d) by (nonlinear_arith)
        requires
            q == n / d,
            r == n % d,
            d > 0,
    ;
    let md = m * d;
    assert(2 * (md - n) <= d && 2 * (n - md) <= d) by {
        if m == q {
        } else {
            assert((q + 1) * d == q * d + d) by (nonlinear_arith);
        }
    }
    let mr = m as real;
    let dr = d as real;
    let nr = n as real;
    lemma_real_product(m, d);
    let x = nr / dr;
    assert(x * dr == nr) by (nonlinear_arith)
        requires
            x == nr / dr,
            dr > 0real,
    ;
    assert(2real * (mr * dr - nr) <= dr && 2real * (nr - mr * dr) <= dr);
    assert(2real * (mr - x) <= 1real && 2real * (x - mr) <= 1real) by (nonlinear_arith)
        requires
            2real * (mr * dr - nr) <= dr,
            2real * (nr - mr * dr) <= dr,
            x * dr == nr,
            dr > 0real,
    ;
}

/// The number nearest to a quotient is near to it.
pub proof fn lemma_nearest_is_near(n: nat, d: nat)
    requires
        n > 0,
        d > 0,
    ensures
        is_near(value(nearest(n, d)), (n as real) / (d as real), 1),
    decreases
            (if n < d * LEAST {
                d * LEAST - n
            } else if n >= 2 * d * LEAST {
                n - 2 * d * LEAST + 1
            } else {
                0
            }),
{
    let nr = n as real;
    let dr = d as real;
    let x = nr / dr;
    lemma_power(-1);
    lemma_power(0);
    if n < d * LEAST {
        lemma_nearest_is_near(2 * n, d);
        lemma_value_of_shifted(nearest(2 * n, d), -1);
        let v = value(nearest(2 * n, d));
        let half = power(-1);
        assert(2real * half == 1real);
        let y = ((2 * n) as real) / dr;
        assert((2 * n) as real == 2real * nr);
        assert(y == 2real * x) by (nonlinear_arith)
            requires
                y == (2real * nr) / dr,
                x == nr / dr,
                dr > 0real,
        ;
        assert(v * half == v / 2real) by (nonlinear_arith)
            requires
                2real * half == 1real,
        ;
    } else if n >= 2 * d * LEAST {
        lemma_nearest_is_near(n, 2 * d);
        lemma_value_of_shifted(nearest(n, 2 * d), 1);
        let v = value(nearest(n, 2 * d));
        let twice = power(1);
        assert(twice == 2real);
        let y = nr / ((2 * d) as real);
        assert((2 * d) as real == 2real * dr);
        assert(x == 2real * y) by (nonlinear_arith)
            requires
                y == nr / (2real * dr),
                x == nr / dr,
                dr > 0real,
        ;
        assert(v * twice == 2real * v) by (nonlinear_arith)
            requires
                twice == 2real,
        ;
    } else {
        lemma_round_even_is_near(n, d);
        let m = round_even(n, d) as real;
        assert(m * power(0) == m) by (nonlinear_arith)
            requires
                power(0) == 1real,
        ;
        assert(nearest(n, d) == Number { mantissa: round_even(n, d), exponent: 0 });
        lemma_real_product(d, LEAST as nat);
        assert(nr >= dr * (LEAST as real));
        assert(x >= LEAST as real) by (nonlinear_arith)
            requires
                x == nr / dr,
                nr >= dr * (LEAST as real),
                dr > 0real,
        ;
        assert(LEAST as real == 4503599627370496real);
    }
}

/// What is near to something near is near.
pub proof fn lemma_near_to_near(a: real, b: real, x: real, p: nat, q: nat)
    requires
        is_near(a, b, p),
        is_near(b, x, q),
        x >= 0real,
        p <= 20,
        q <= 20,
    ensures
        is_near(a, x, p + q + 1),
{
    let unit = 1_000_000_000_000_000real;
    let pr = p as real;
    let qr = q as real;
    let u = 1real / unit;
    assert(b * pr / unit == b * pr * u && x * qr / unit == x * qr * u && x * (pr + qr + 1real) / unit
        == x * (pr + qr + 1real) * u) by (nonlinear_arith)
        requires
            u == 1real / unit,
            unit == 1_000_000_000_000_000real,
    ;
    assert(b * pr * u <= x * (pr + 1real) * u) by (nonlinear_arith)
        requires
            b - x <= x * qr * u,
            x >= 0real,
            0real <= pr <= 20real,
            0real <= qr <= 20real,
            u == 1real / 1_000_000_000_000_000real,
    ;
    assert(x * (pr + 1real) * u + x * qr * u == x * (pr + qr + 1real) * u) by (nonlinear_arith);
    assert((p + q + 1) as real == pr + qr + 1real);
}

/// Quotients of near quantities are near.
proof fn lemma_quotients_are_near(a: real, b: real, x: real, y: real, p: nat, q: nat)
    requires
        is_near(a, x, p),
        is_near(b, y, q),
        x >= 0real,
        y > 0real,
        p <= 10,
        q <= 10,
    ensures
        b > 0real,
        is_near(a / b, x / y, p + q + 1),
{
    let unit = 1_000_000_000_000_000real;
    let u = 1real / unit;
    let pr = p as real;
    let qr = q as real;
    assert(x * pr / unit == x * pr * u && y * qr / unit == y * qr * u) by (nonlinear_arith)
        requires
            u == 1real / unit,
            unit == 1_000_000_000_000_000real,
    ;
    assert(qr * u <= 1real / 100_000_000_000_000real && pr * u <= 1real / 100_000_000_000_000real)
        by (nonlinear_arith)
        requires
            u == 1real / 1_000_000_000_000_000real,
            0real <= qr <= 10real,
            0real <= pr <= 10real,
    ;
    let f = qr * u;
    let g = pr * u;
    assert(y * qr * u == y * f && x * pr * u == x * g) by (nonlinear_arith)
        requires
            f == qr * u,
            g == pr * u,
    ;
    assert(b > 0real) by (nonlinear_arith)
        requires
            y - b <= y * f,
            y > 0real,
            f <= 1real / 100_000_000_000_000real,
    ;
    let z = x / y;
    let w = a / b;
    let h = (pr + qr + 1real) * u;
    assert(z * y == x && z >= 0real && w * b == a) by (nonlinear_arith)
        requires
            z == x / y,
            w == a / b,
            y > 0real,
            b > 0real,
            x >= 0real,
    ;
    assert(h == g + f + u) by (nonlinear_arith)
        requires
            h == (pr + qr + 1real) * u,
            f == qr * u,
            g == pr * u,
    ;
    assert(u > 0real && f >= 0real && g >= 0real) by (nonlinear_arith)
        requires
            u == 1real / 1_000_000_000_000_000real,
            f == qr * u,
            g == pr * u,
            qr >= 0real,
            pr >= 0real,
    ;
    // `a` is at most `z * y * (1 + g)`, and `b` at least `y * (1 - f)`.
    assert((1real + g) <= (1real + h) * (1real - f)) by (nonlinear_arith)
        requires
            h == g + f + u,
            0real <= f <= 1real / 100_000_000_000_000real,
            0real <= g <= 1real / 100_000_000_000_000real,
            u == 1real / 1_000_000_000_000_000real,
    ;
    assert((1real - g) >= (1real - h) * (1real + f)) by (nonlinear_arith)
        requires
            h == g + f + u,
            0real <= f <= 1real / 100_000_000_000_000real,
            0real <= g <= 1real / 100_000_000_000_000real,
            u == 1real / 1_000_000_000_000_000real,
    ;
    assert(a <= z * y * (1real + g)) by (nonlinear_arith)
        requires
            a - x <= x * g,
            z * y == x,
    ;
    assert(a >= z * y * (1real - g)) by (nonlinear_arith)
        requires
            x - a <= x * g,
            z * y == x,
    ;
    assert(b >= y * (1real - f)) by (nonlinear_arith)
        requires
            y - b <= y * f,
    ;
    assert(b <= y * (1real + f)) by (nonlinear_arith)
        requires
            b - y <= y * f,
    ;
    let zy = z * y;
    assert(zy >= 0real);
    assert(zy * (1real + g) <= zy * ((1real + h) * (1real - f))) by (nonlinear_arith)
        requires
            zy >= 0real,
            (1real + g) <= (1real + h) * (1real - f),
    ;
    assert(zy * (1real - g) >= zy * ((1real - h) * (1real + f))) by (nonlinear_arith)
        requires
            zy >= 0real,
            (1real - g) >= (1real - h) * (1real + f),
    ;
    assert(h <= 1real) by (nonlinear_arith)
        requires
            h == g + f + u,
            f <= 1real / 100_000_000_000_000real,
            g <= 1real / 100_000_000_000_000real,
            u == 1real / 1_000_000_000_000_000real,
    ;
    assert(zy * ((1real + h) * (1real - f)) == (z * (1real + h)) * (y * (1real - f)))
        by (nonlinear_arith)
        requires
            zy == z * y,
    ;
    assert(zy * ((1real - h) * (1real + f)) == (z * (1real - h)) * (y * (1real + f)))
        by (nonlinear_arith)
        requires
            zy == z * y,
    ;
    let top = z * (1real + h);
    let bottom = z * (1real - h);
    assert(top >= 0real && bottom >= 0real) by (nonlinear_arith)
        requires
            top == z * (1real + h),
            bottom == z * (1real - h),
            z >= 0real,
            0real <= h <= 1real,
    ;
    assert(w * b <= top * b) by {
        assert(top * (y * (1real - f)) <= top * b) by (nonlinear_arith)
            requires
                top >= 0real,
                b >= y * (1real - f),
        ;
    }
    assert(w * b >= bottom * b) by {
        assert(bottom * (y * (1real + f)) >= bottom * b) by (nonlinear_arith)
            requires
                bottom >= 0real,
                b <= y * (1real + f),
        ;
    }
    assert(w <= top && w >= bottom) by (nonlinear_arith)
        requires
            w * b <= top * b,
            w * b >= bottom * b,
            b > 0real,
    ;
    assert((p + q + 1) as real == pr + qr + 1real);
    assert(z * (pr + qr + 1real) / unit == z * h) by (nonlinear_arith)
        requires
            h == (pr + qr + 1real) * u,
            u == 1real / unit,
            unit == 1_000_000_000_000_000real,
    ;
    assert(top == z + z * h && bottom == z - z * h) by (nonlinear_arith)
        requires
            top == z * (1real + h),
            bottom == z * (1real - h),
    ;
}

/// What stays near when it is multiplied.
pub proof fn lemma_near_times(a: real, x: real, p: nat, c: real)
    requires
        is_near(a, x, p),
        c > 0real,
    ensures
        is_near(a * c, x * c, p),
{
    let unit = 1_000_000_000_000_000real;
    let pr = p as real;
    let e = x * pr / unit;
    assert((x * c) * pr / unit == e * c) by (nonlinear_arith)
        requires
            e == x * pr / unit,
            unit == 1_000_000_000_000_000real,
    ;
    assert(a * c - x * c <= e * c && x * c - a * c <= e * c) by (nonlinear_arith)
        requires
            a - x <= e,
            x - a <= e,
            c > 0real,
    ;
}

/// A quotient of numbers is near to the quotient of what they are near to.
pub proof fn lemma_quotient_is_near(a: Number, b: Number, x: real, y: real, p: nat, q: nat)
    requires
        b.mantissa > 0,
        is_near(value(a), x, p),
        is_near(value(b), y, q),
        x >= 0real,
        y > 0real,
        p <= 10,
        q <= 9,
        p + q <= 17,
    ensures
        is_near(value(quotient(a, b)), x / y, p + q + 3),
{
    let va = value(a);
    let vb = value(b);
    lemma_quotients_are_near(va, vb, x, y, p, q);
    let z = x / y;
    assert(z >= 0real) by (nonlinear_arith)
        requires
            z == x / y,
            x >= 0real,
            y > 0real,
    ;
    let w = va / vb;
    if a.mantissa == 0 {
        assert(va == 0real) by {
            let e = power(a.exponent);
            assert(0real * e == 0real) by (nonlinear_arith);
        }
        assert(w == 0real) by (nonlinear_arith)
            requires
                w == va / vb,
                va == 0real,
                vb > 0real,
        ;
        lemma_near_more(w, z, p + q + 1, p + q + 3);
    } else {
        let n = nearest(a.mantissa, b.mantissa);
        let by = a.exponent - b.exponent;
        lemma_nearest_is_near(a.mantissa, b.mantissa);
        lemma_value_of_shifted(n, by);
        lemma_power(by);
        lemma_power(a.exponent);
        lemma_power(b.exponent);
        lemma_power_adds(by, b.exponent);
        let am = a.mantissa as real;
        let bm = b.mantissa as real;
        let pa = power(a.exponent);
        let pb = power(b.exponent);
        let pd = power(by);
        lemma_near_times(value(n), am / bm, 1, pd);
        assert((am / bm) * pd == w) by (nonlinear_arith)
            requires
                w == (am * pa) / (bm * pb),
                pa == pd * pb,
                bm > 0real,
                pb > 0real,
        ;
        lemma_near_to_near(value(quotient(a, b)), w, z, 1, p + q + 1);
    }
}

/// A lesser difference is within a greater one.
pub proof fn lemma_near_more(a: real, x: real, p: nat, q: nat)
    requires
        is_near(a, x, p),
        x >= 0real,
        p <= q,
    ensures
        is_near(a, x, q),
{
    let unit = 1_000_000_000_000_000real;
    let pr = p as real;
    let qr = q as real;
    assert(x * pr / unit <= x * qr / unit) by (nonlinear_arith)
        requires
            x >= 0real,
            0real <= pr <= qr,
            unit == 1_000_000_000_000_000real,
    ;
}

/// A multiple of a number is near to the multiple of what it is near to.
pub proof fn lemma_multiple_is_near(a: Number, k: nat, x: real, p: nat)
    requires
        k > 0,
        is_near(value(a), x, p),
        x >= 0real,
        p <= 18,
    ensures
        is_near(value(multiple(a, k)), x * (k as real), p + 2),
{
    let kr = k as real;
    let v = value(a);
    lemma_near_times(v, x, p, kr);
    assert(x * kr >= 0real) by (nonlinear_arith)
        requires
            x >= 0real,
            kr > 0real,
    ;
    if a.mantissa == 0 {
        assert(v == 0real) by {
            let e = power(a.exponent);
            assert(0real * e == 0real) by (nonlinear_arith);
        }
        assert(v * kr == 0real) by (nonlinear_arith)
            requires
                v == 0real,
        ;
        lemma_near_more(v * kr, x * kr, p, p + 2);
    } else {
        let m = a.mantissa * k;
        assert(m > 0) by (nonlinear_arith)
            requires
                m == a.mantissa * k,
                a.mantissa > 0,
                k > 0,
        ;
        lemma_real_product(a.mantissa, k);
        lemma_nearest_is_near(m, 1);
        lemma_value_of_shifted(nearest(m, 1), a.exponent);
        lemma_power(a.exponent);
        let am = a.mantissa as real;
        let e = power(a.exponent);
        let mr = m as real;
        assert(mr / 1real == mr) by (nonlinear_arith);
        lemma_near_times(value(nearest(m, 1)), mr, 1, e);
        assert((am * kr) * e == (am * e) * kr) by (nonlinear_arith);
        lemma_near_to_near(value(multiple(a, k)), v * kr, x * kr, 1, p);
    }
}

/// The integer nearest to a number is no more than a half away from it.
pub proof fn lemma_rounded_is_near(a: Number)
    ensures
        2real * ((rounded(a) as real) - value(a)) <= 1real,
        2real * (value(a) - (rounded(a) as real)) <= 1real,
{
    let m = a.mantissa;
    if a.exponent >= 0 {
        lemma_real_product(m, two_to(a.exponent as nat));
    } else {
        let t = two_to((-a.exponent) as nat);
        lemma_two_to_positive((-a.exponent) as nat);
        let n: nat = 2 * m + t;
        let d: nat = 2 * t;
        let q = n / d;
        let r = n % d;
        assert(n == q * d + r && r < d) by (nonlinear_arith)
            requires
                q == n / d,
                r == n % d,
                d > 0,
        ;
        let tr = t as real;
        let mr = m as real;
        let qr = q as real;
        let rr = r as real;
        lemma_real_product(q, d);
        assert(n as real == 2real * mr + tr);
        assert(d as real == 2real * tr);
        assert(2real * mr + tr == qr * (2real * tr) + rr);
        let v = mr * (1real / tr);
        assert(value(a) == v);
        assert(2real * (qr - v) <= 1real && 2real * (v - qr) <= 1real) by (nonlinear_arith)
            requires
                2real * mr + tr == qr * (2real * tr) + rr,
                0real <= rr,
                rr < 2real * tr,
                tr > 0real,
                v == mr * (1real / tr),
        ;
    }
}

/// The integer nearest to a multiple of a number is no more than a half away from it.
pub proof fn lemma_rounded_multiple_is_near(a: Number, k: nat)
    ensures
        2real * ((rounded_multiple(a, k) as real) - value(a) * (k as real)) <= 1real,
        2real * (value(a) * (k as real) - (rounded_multiple(a, k) as real)) <= 1real,
{
    let m = a.mantissa;
    let kr = k as real;
    let mr = m as real;
    if a.exponent >= 0 {
        lemma_real_product(m, two_to(a.exponent as nat));
        lemma_real_product(m * two_to(a.exponent as nat), k);
    } else {
        let t = two_to((-a.exponent) as nat);
        lemma_two_to_positive((-a.exponent) as nat);
        lemma_round_even_is_near(m * k, t);
        lemma_real_product(m, k);
        let tr = t as real;
        assert((mr * kr) / tr == (mr * (1real / tr)) * kr) by (nonlinear_arith)
            requires
                tr > 0real,
        ;
    }
}

/// The integer part of a number is no greater than it, and less than one below it.
pub proof fn lemma_whole_is_near(a: Number)
    ensures
        (whole(a) as real) <= value(a),
        value(a) < (whole(a) as real) + 1real,
{
    let m = a.mantissa;
    if a.exponent >= 0 {
        lemma_real_product(m, two_to(a.exponent as nat));
    } else {
        let t = two_to((-a.exponent) as nat);
        lemma_two_to_positive((-a.exponent) as nat);
        let q = m / t;
        let r = m % t;
        assert(m == q * t + r && r < t) by (nonlinear_arith)
            requires
                q == m / t,
                r == m % t,
                t > 0,
        ;
        lemma_real_product(q, t);
        let tr = t as real;
        let mr = m as real;
        let qr = q as real;
        let rr = r as real;
        let v = mr * (1real / tr);
        assert(value(a) == v);
        assert(qr <= v && v < qr + 1real) by (nonlinear_arith)
            requires
                mr == qr * tr + rr,
                0real <= rr,
                rr < tr,
                tr > 0real,
                v == mr * (1real / tr),
        ;
    }
}

/// A sum of numbers is near to the sum of what they stand for.
pub proof fn lemma_sum_is_near(a: Number, b: Number)
    ensures
        is_near(value(sum(a, b)), value(a) + value(b), 1),
{
    let va = value(a);
    let vb = value(b);
    lemma_power(a.exponent);
    lemma_power(b.exponent);
    let am = a.mantissa as real;
    let bm = b.mantissa as real;
    let pa = power(a.exponent);
    let pb = power(b.exponent);
    assert(va >= 0real && vb >= 0real) by (nonlinear_arith)
        requires
            va == am * pa,
            vb == bm * pb,
            am >= 0real,
            bm >= 0real,
            pa > 0real,
            pb > 0real,
    ;
    if a.mantissa == 0 {
        assert(va == 0real) by (nonlinear_arith)
            requires
                va == am * pa,
                am == 0real,
        ;
        lemma_near_itself(vb);
    } else if b.mantissa == 0 {
        assert(vb == 0real) by (nonlinear_arith)
            requires
                vb == bm * pb,
                bm == 0real,
        ;
        lemma_near_itself(va);
    } else if a.exponent >= b.exponent {
        lemma_sum_is_near_in_order(a, b);
    } else {
        lemma_sum_is_near_in_order(b, a);
    }
}

proof fn lemma_near_itself(x: real)
    requires
        x >= 0real,
    ensures
        is_near(x, x, 1),
{
    assert(x * 1real / 1_000_000_000_000_000real >= 0real) by (nonlinear_arith)
        requires
            x >= 0real,
    ;
}

proof fn lemma_sum_is_near_in_order(a: Number, b: Number)
    requires
        a.mantissa > 0,
        b.mantissa > 0,
        a.exponent >= b.exponent,
    ensures
        is_near(
            value(
                nearest(
                    a.mantissa * two_to((a.exponent - b.exponent) as nat) + b.mantissa,
                    1,
                ).shifted(b.exponent),
            ),
            value(a) + value(b),
            1,
        ),
{
    let by = a.exponent - b.exponent;
    let t = two_to(by as nat);
    let n: nat = a.mantissa * t + b.mantissa;
    lemma_real_product(a.mantissa, t);
    lemma_nearest_is_near(n, 1);
    lemma_value_of_shifted(nearest(n, 1), b.exponent);
    lemma_power(b.exponent);
    lemma_power_adds(by, b.exponent);
    let am = a.mantissa as real;
    let bm = b.mantissa as real;
    let tr = t as real;
    let pb = power(b.exponent);
    let nr = n as real;
    assert(nr == am * tr + bm);
    assert(nr / 1real == nr) by (nonlinear_arith);
    lemma_near_times(value(nearest(n, 1)), nr, 1, pb);
    assert((am * tr + bm) * pb == am * (tr * pb) + bm * pb) by (nonlinear_arith);
}

/// How numbers are rounded: to the nearest, and of two equally near to the even one, where a number is
/// formed or a multiple shown; but to the greater one where a percentage is.
pub proof fn law_ties_are_rounded(a: Number, k: nat, n: nat, d: nat)
    requires
        a.exponent < 0,
        d > 0,
    ensures
        ({
            let t = two_to((-a.exponent) as nat);
            let shown = rounded_multiple(a, k);
            let share = rounded(a);
            &&& 2 * (shown * t - a.mantissa * k) <= t
            &&& 2 * (a.mantissa * k - shown * t) <= t
            &&& 2 * (shown * t - a.mantissa * k) == t || 2 * (a.mantissa * k - shown * t) == t
                ==> shown % 2 == 0
            &&& 2 * (share * t - a.mantissa) <= t
            &&& 2 * (a.mantissa - share * t) < t
        }),
        d * 0x10_0000_0000_0000 <= n < 2 * d * 0x10_0000_0000_0000 ==> {
            let formed = nearest(n, d);
            &&& formed.exponent == 0
            &&& 2 * (formed.mantissa * d - n) <= d
            &&& 2 * (n - formed.mantissa * d) <= d
            &&& 2 * (formed.mantissa * d - n) == d || 2 * (n - formed.mantissa * d) == d
                ==> formed.mantissa % 2 == 0
        },
        n > 0 ==> nearest(2 * n, d) == nearest(n, d).shifted(1),
{
    let t = two_to((-a.exponent) as nat);
    lemma_two_to_positive((-a.exponent) as nat);
    lemma_even_tie(a.mantissa * k, t);
    lemma_even_tie(n, d);
    let m = a.mantissa;
    let share = rounded(a);
    let top: nat = 2 * m + t;
    let r = top % (2 * t);
    assert(top == share * (2 * t) + r && r < 2 * t) by (nonlinear_arith)
        requires
            share == top / (2 * t),
            r == top % (2 * t),
            t > 0,
    ;
    assert(share * (2 * t) == 2 * (share * t)) by (nonlinear_arith);
    if n > 0 {
        lemma_nearest_of_double(n, d);
    }
}

proof fn lemma_even_tie(n: nat, d: nat)
    requires
        d > 0,
    ensures
        ({
            let m = round_even(n, d);
            &&& 2 * (m * d - n) <= d
            &&& 2 * (n - m * d) <= d
            &&& 2 * (m * d - n) == d || 2 * (n - m * d) == d ==> m % 2 == 0
        }),
{
    let q = n / d;
    let r = n % d;
    assert(n == q * d + r && r < d) by (nonlinear_arith)
        requires
            q == n / d,
            r == n % d,
            d > 0,
    ;
    assert((q + 1) * d == q * d + d) by (nonlinear_arith);
}

/// Numbers are compared with quotients by what they stand for, and the integer part of a number is no
/// greater than it and less than one below it.
pub proof fn law_numbers_are_compared_by_value(a: Number, n: nat, d: nat)
    ensures
        at_least(a, n, d) <==> value(a) * (d as real) >= n as real,
        exceeds(a, n, d) <==> value(a) * (d as real) > n as real,
        whole(a) as real <= value(a),
        value(a) < whole(a) as real + 1real,
{
    let m = a.mantissa;
    let mr = m as real;
    let dr = d as real;
    if a.exponent >= 0 {
        let t = two_to(a.exponent as nat);
        lemma_real_product(m, t);
        lemma_real_product(m * t, d);
    } else {
        let t = two_to((-a.exponent) as nat);
        lemma_two_to_positive((-a.exponent) as nat);
        let tr = t as real;
        let nr = n as real;
        let v = mr * (1real / tr);
        assert(value(a) == v);
        assert(v * tr == mr) by (nonlinear_arith)
            requires
                v == mr * (1real / tr),
                tr > 0real,
        ;
        lemma_real_product(m, d);
        lemma_real_product(n, t);
        let w = v * dr;
        assert(w * tr == mr * dr) by (nonlinear_arith)
            requires
                v * tr == mr,
                w == v * dr,
        ;
        assert((w >= nr) == (mr * dr >= nr * tr) && (w > nr) == (mr * dr > nr * tr))
            by (nonlinear_arith)
            requires
                w * tr == mr * dr,
                tr > 0real,
        ;
        let q = m / t;
        let r = m % t;
        assert(m == q * t + r && r < t) by (nonlinear_arith)
            requires
                q == m / t,
                r == m % t,
                t > 0,
        ;
        lemma_real_product(q, t);
        let qr = q as real;
        let rr = r as real;
        assert(mr == qr * tr + rr);
        assert(0real <= rr < tr);
        assert(qr <= v && v < qr + 1real) by (nonlinear_arith)
            requires
                v * tr == mr,
                mr == qr * tr + rr,
                0real <= rr,
                rr < tr,
                tr > 0real,
        ;
    }
}

} // verus!
