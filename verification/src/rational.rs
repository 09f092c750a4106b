use vstd::prelude::*;

verus! {

/// An exact rational number kept raw: numerator and denominator are never
/// reduced to lowest terms, so every operation below states precisely which
/// representation it produces, not only which value.
#[derive(Clone, Copy, Debug, PartialEq, Eq, Structural, Hash)]
pub struct Rational {
    pub num: i64,
    pub den: i64,
}

impl Rational {
    /// The denominator is positive and the numerator leaves room for
    /// negation; every operation keeps this shape.
    pub open spec fn wf(self) -> bool {
        self.den > 0 && self.num > i64::MIN
    }

    /// The two representations stand for the same mathematical value.
    pub open spec fn same_value(self, other: Rational) -> bool {
        self.num * other.den == other.num * self.den
    }

    pub open spec fn spec_is_zero(self) -> bool {
        self.num == 0
    }

    /// Equal in value to one, which for a raw fraction means the numerator
    /// equals the denominator.
    pub open spec fn spec_is_one(self) -> bool {
        self.num == self.den
    }

    /// The raw representation has denominator one; a fraction such as 4/2 is
    /// an integer in value but not in this representation-level sense.
    pub open spec fn spec_is_integer(self) -> bool {
        self.den == 1
    }

    pub open spec fn spec_lt(self, other: Rational) -> bool {
        self.num * other.den < other.num * self.den
    }

    pub open spec fn spec_le(self, other: Rational) -> bool {
        self.num * other.den <= other.num * self.den
    }

    pub open spec fn spec_neg(self) -> Rational {
        Rational { num: (-self.num) as i64, den: self.den }
    }

    pub open spec fn spec_abs(self) -> Rational {
        if self.num < 0 {
            self.spec_neg()
        } else {
            self
        }
    }

    /// The raw sum: numerators are cross-multiplied, denominators multiplied,
    /// and nothing is reduced.
    pub open spec fn spec_add(self, other: Rational) -> (int, int) {
        (self.num * other.den + other.num * self.den, self.den * other.den)
    }

    /// The raw product, again unreduced.
    pub open spec fn spec_mul(self, other: Rational) -> (int, int) {
        (self.num * other.num, self.den * other.den)
    }

    /// Whether a raw numerator/denominator pair fits the `Rational` shape.
    pub open spec fn fits(n: int, d: int) -> bool {
        i64::MIN < n <= i64::MAX && 0 < d <= i64::MAX
    }

    pub open spec fn spec_floor(self) -> int {
        self.num as int / self.den as int
    }

    pub fn new(num: i64, den: i64) -> (r: Rational)
        requires
            num > i64::MIN,
            den > 0,
        ensures
            r == (Rational { num, den }),
            r.wf(),
    {
        Rational { num, den }
    }

    pub fn from_int(n: i64) -> (r: Rational)
        requires
            n > i64::MIN,
        ensures
            r == (Rational { num: n, den: 1int as i64 }),
            r.wf(),
    {
        Rational { num: n, den: 1 }
    }

    pub fn zero() -> (r: Rational)
        ensures
            r == (Rational { num: 0int as i64, den: 1int as i64 }),
            r.wf(),
            r.spec_is_zero(),
    {
        Rational { num: 0, den: 1 }
    }

    pub fn one() -> (r: Rational)
        ensures
            r == (Rational { num: 1int as i64, den: 1int as i64 }),
            r.wf(),
            r.spec_is_one(),
    {
        Rational { num: 1, den: 1 }
    }

    pub fn is_zero(&self) -> (r: bool)
        ensures
            r == self.spec_is_zero(),
    {
        self.num == 0
    }

    pub fn is_one(&self) -> (r: bool)
        ensures
            r == self.spec_is_one(),
    {
        self.num == self.den
    }

    pub fn is_integer(&self) -> (r: bool)
        ensures
            r == self.spec_is_integer(),
    {
        self.den == 1
    }

    pub fn is_positive(&self) -> (r: bool)
        requires
            self.wf(),
        ensures
            r == (self.num > 0),
    {
        self.num > 0
    }

    pub fn is_negative(&self) -> (r: bool)
        requires
            self.wf(),
        ensures
            r == (self.num < 0),
    {
        self.num < 0
    }

    pub fn neg(self) -> (r: Rational)
        requires
            self.wf(),
        ensures
            r == self.spec_neg(),
            r.wf(),
    {
        Rational { num: -self.num, den: self.den }
    }

    pub fn abs(self) -> (r: Rational)
        requires
            self.wf(),
        ensures
            r == self.spec_abs(),
            r.wf(),
            r.num >= 0,
    {
        if self.num < 0 {
            self.neg()
        } else {
            self
        }
    }

    pub fn eq_value(&self, other: &Rational) -> (r: bool)
        requires
            self.wf(),
            other.wf(),
        ensures
            r == self.same_value(*other),
    {
        proof {
            lemma_i64_products_fit(self.num as int, other.den as int);
            lemma_i64_products_fit(other.num as int, self.den as int);
        }
        (self.num as i128) * (other.den as i128) == (other.num as i128) * (self.den as i128)
    }

    pub fn lt(&self, other: &Rational) -> (r: bool)
        requires
            self.wf(),
            other.wf(),
        ensures
            r == self.spec_lt(*other),
    {
        proof {
            lemma_i64_products_fit(self.num as int, other.den as int);
            lemma_i64_products_fit(other.num as int, self.den as int);
        }
        (self.num as i128) * (other.den as i128) < (other.num as i128) * (self.den as i128)
    }

    pub fn le(&self, other: &Rational) -> (r: bool)
        requires
            self.wf(),
            other.wf(),
        ensures
            r == self.spec_le(*other),
    {
        proof {
            lemma_i64_products_fit(self.num as int, other.den as int);
            lemma_i64_products_fit(other.num as int, self.den as int);
        }
        (self.num as i128) * (other.den as i128) <= (other.num as i128) * (self.den as i128)
    }

    /// Raw addition. `None` exactly when the raw result leaves the `i64`
    /// range, which is the one limit the representation imposes.
    pub fn raw_add(self, other: Rational) -> (r: Option<Rational>)
        requires
            self.wf(),
            other.wf(),
        ensures
            r is Some <==> Self::fits(self.spec_add(other).0, self.spec_add(other).1),
            r matches Some(v) ==> v.num == self.spec_add(other).0 && v.den == self.spec_add(
                other,
            ).1 && v.wf(),
    {
        proof {
            lemma_i64_products_fit(self.num as int, other.den as int);
            lemma_i64_products_fit(other.num as int, self.den as int);
            lemma_i64_products_fit(self.den as int, other.den as int);
        }
        let n: i128 = (self.num as i128) * (other.den as i128) + (other.num as i128) * (self.den
            as i128);
        let d: i128 = (self.den as i128) * (other.den as i128);
        if n > (i64::MIN as i128) && n <= (i64::MAX as i128) && d <= (i64::MAX as i128) {
            proof {
                lemma_pos_mul_pos(self.den as int, other.den as int);
            }
            Some(Rational { num: n as i64, den: d as i64 })
        } else {
            None
        }
    }

    /// Raw multiplication, unreduced; `None` exactly on `i64` overflow.
    pub fn raw_mul(self, other: Rational) -> (r: Option<Rational>)
        requires
            self.wf(),
            other.wf(),
        ensures
            r is Some <==> Self::fits(self.spec_mul(other).0, self.spec_mul(other).1),
            r matches Some(v) ==> v.num == self.spec_mul(other).0 && v.den == self.spec_mul(
                other,
            ).1 && v.wf(),
    {
        proof {
            lemma_i64_products_fit(self.num as int, other.num as int);
            lemma_i64_products_fit(self.den as int, other.den as int);
        }
        let n: i128 = (self.num as i128) * (other.num as i128);
        let d: i128 = (self.den as i128) * (other.den as i128);
        if n > (i64::MIN as i128) && n <= (i64::MAX as i128) && d <= (i64::MAX as i128) {
            proof {
                lemma_pos_mul_pos(self.den as int, other.den as int);
            }
            Some(Rational { num: n as i64, den: d as i64 })
        } else {
            None
        }
    }

    /// Raw subtraction, defined as addition of the negation.
    pub fn raw_sub(self, other: Rational) -> (r: Option<Rational>)
        requires
            self.wf(),
            other.wf(),
        ensures
            r is Some <==> Self::fits(
                self.spec_add(other.spec_neg()).0,
                self.spec_add(other.spec_neg()).1,
            ),
            r matches Some(v) ==> v.num == self.spec_add(other.spec_neg()).0 && v.den
                == self.spec_add(other.spec_neg()).1 && v.wf(),
    {
        self.raw_add(other.neg())
    }

    /// The floor of the value, as an integer.
    pub fn floor(self) -> (r: i64)
        requires
            self.wf(),
        ensures
            r == self.spec_floor(),
    {
        if self.num >= 0 {
            let q: u64 = (self.num as u64) / (self.den as u64);
            proof {
                vstd::arithmetic::div_mod::lemma_fundamental_div_mod(
                    self.num as int,
                    self.den as int,
                );
            }
            q as i64
        } else {
            let a: u64 = (-self.num) as u64;
            let d: u64 = self.den as u64;
            let q: u64 = a / d;
            let rem: u64 = a % d;
            proof {
                vstd::arithmetic::div_mod::lemma_fundamental_div_mod(a as int, d as int);
                vstd::arithmetic::div_mod::lemma_fundamental_div_mod(
                    self.num as int,
                    self.den as int,
                );
                lemma_floor_of_negative(self.num as int, self.den as int, q as int, rem as int);
            }
            if rem == 0 {
                -(q as i64)
            } else {
                -(q as i64) - 1
            }
        }
    }
}

proof fn lemma_i64_products_fit(a: int, b: int)
    requires
        i64::MIN < a <= i64::MAX,
        i64::MIN < b <= i64::MAX,
    ensures
        -(i64::MAX * i64::MAX) <= a * b <= i64::MAX * i64::MAX,
{
    assert(-(0x7fff_ffff_ffff_ffffint * 0x7fff_ffff_ffff_ffffint) <= a * b
        <= 0x7fff_ffff_ffff_ffffint * 0x7fff_ffff_ffff_ffffint) by (nonlinear_arith)
        requires
            -0x7fff_ffff_ffff_ffffint <= a <= 0x7fff_ffff_ffff_ffffint,
            -0x7fff_ffff_ffff_ffffint <= b <= 0x7fff_ffff_ffff_ffffint,
    ;
}

proof fn lemma_pos_mul_pos(a: int, b: int)
    requires
        a > 0,
        b > 0,
    ensures
        a * b > 0,
{
    assert(a * b > 0) by (nonlinear_arith)
        requires
            a > 0,
            b > 0,
    ;
}

proof fn lemma_floor_of_negative(n: int, d: int, q: int, rem: int)
    requires
        n < 0,
        d > 0,
        -n == q * d + rem,
        0 <= rem < d,
    ensures
        rem == 0 ==> n / d == -q,
        rem != 0 ==> n / d == -q - 1,
{
    if rem == 0 {
        assert(n == (-q) * d + 0) by (nonlinear_arith)
            requires
                -n == q * d + rem,
                rem == 0,
        ;
        vstd::arithmetic::div_mod::lemma_fundamental_div_mod_converse(n, d, -q, 0);
    } else {
        assert(n == (-q - 1) * d + (d - rem)) by (nonlinear_arith)
            requires
                -n == q * d + rem,
        ;
        vstd::arithmetic::div_mod::lemma_fundamental_div_mod_converse(n, d, -q - 1, d - rem);
    }
}

} // verus!
