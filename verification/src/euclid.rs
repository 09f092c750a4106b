use vstd::prelude::*;

verus! {

/// The greatest common divisor, by the Euclidean recursion; `spec_gcd(0, 0)`
/// is zero.
pub open spec fn spec_gcd(a: nat, b: nat) -> nat
    decreases b,
{
    if b == 0 {
        a
    } else {
        spec_gcd(b, a % b)
    }
}

/// The divisor never exceeds the larger argument.
pub proof fn lemma_gcd_le(a: nat, b: nat)
    ensures
        spec_gcd(a, b) <= a || spec_gcd(a, b) <= b,
        a <= u64::MAX && b <= u64::MAX ==> spec_gcd(a, b) <= u64::MAX,
    decreases b,
{
    if b != 0 {
        lemma_gcd_le(b, a % b);
    }
}

/// Relies on `num_integer::gcd`, which computes the greatest common divisor
/// of its arguments and is always non-negative.
#[verifier::external_body]
pub fn gcd_u64(a: u64, b: u64) -> (r: u64)
    ensures
        r == spec_gcd(a as nat, b as nat),
{
    num_integer::gcd(a, b)
}

/// Relies on `num_integer::Integer::is_multiple_of` for `i64`, which
/// computes `a % b` when `b` is not zero; a positive divisor keeps that
/// remainder well-defined.
#[verifier::external_body]
pub fn is_multiple_of_i64(a: i64, b: i64) -> (r: bool)
    requires
        b > 0,
    ensures
        r == (a as int % b as int == 0),
{
    num_integer::Integer::is_multiple_of(&a, &b)
}

/// The absolute value shares divisibility and, when divisible, the
/// magnitude of the quotient with the signed value.
pub proof fn lemma_div_abs(n: int, d: int)
    requires
        d > 0,
    ensures
        (n % d == 0) <==> ((if n < 0 {
            -n
        } else {
            n
        }) % d == 0),
        n % d == 0 ==> (if n < 0 {
            -n
        } else {
            n
        }) / d == (if n / d < 0 {
            -(n / d)
        } else {
            n / d
        }),
{
    vstd::arithmetic::div_mod::lemma_fundamental_div_mod(n, d);
    let a = if n < 0 {
        -n
    } else {
        n
    };
    vstd::arithmetic::div_mod::lemma_fundamental_div_mod(a, d);
    if n < 0 {
        if n % d == 0 {
            assert(a == (-(n / d)) * d + 0) by (nonlinear_arith)
                requires
                    a == -n,
                    n == d * (n / d) + n % d,
                    n % d == 0,
            ;
            vstd::arithmetic::div_mod::lemma_fundamental_div_mod_converse(a, d, -(n / d), 0);
            assert(n / d <= 0) by (nonlinear_arith)
                requires
                    n < 0,
                    d > 0,
                    n == d * (n / d) + n % d,
                    0 <= n % d < d,
            ;
        } else if a % d == 0 {
            assert(n == (-(a / d)) * d + 0) by (nonlinear_arith)
                requires
                    n == -a,
                    a == d * (a / d) + a % d,
                    a % d == 0,
            ;
            vstd::arithmetic::div_mod::lemma_fundamental_div_mod_converse(n, d, -(a / d), 0);
        }
    }
}

} // verus!
