//! Divisibility and greatest-common-divisor theory used by the divisor
//! engine: the `divides` relation, the classical Euclidean `euclid_gcd`,
//! and the lemmas that justify the binary GCD algorithm.

use vstd::arithmetic::div_mod::{
    lemma_breakdown, lemma_div_multiples_vanish, lemma_fundamental_div_mod,
    lemma_mod_multiples_basic, lemma_mod_self_0, lemma_small_mod,
};
use vstd::prelude::*;

verus! {

/// `d` evenly divides `n`.
pub open spec fn divides(d: int, n: int) -> bool {
    exists|k: int| n == #[trigger] (d * k)
}

/// The classical Euclidean greatest common divisor.
pub open spec fn euclid_gcd(a: nat, b: nat) -> nat
    decreases b,
{
    if b == 0 {
        a
    } else {
        euclid_gcd(b, a % b)
    }
}

/// A positive divisor of a positive number is no larger than it.
pub proof fn lemma_divides_le(d: int, n: int)
    requires
        d > 0,
        n > 0,
        divides(d, n),
    ensures
        d <= n,
{
    let k = choose|k: int| n == #[trigger] (d * k);
    assert(d <= n) by (nonlinear_arith)
        requires
            n == d * k,
            d > 0,
            n > 0,
    ;
}

/// Divisibility is transitive.
pub proof fn lemma_divides_trans(a: int, b: int, c: int)
    requires
        divides(a, b),
        divides(b, c),
    ensures
        divides(a, c),
{
    let k1 = choose|k: int| b == #[trigger] (a * k);
    let k2 = choose|k: int| c == #[trigger] (b * k);
    assert(c == a * (k1 * k2)) by (nonlinear_arith)
        requires
            b == a * k1,
            c == b * k2,
    ;
}

/// Two positive numbers that divide each other are equal.
pub proof fn lemma_divides_antisym(a: int, b: int)
    requires
        a > 0,
        b > 0,
        divides(a, b),
        divides(b, a),
    ensures
        a == b,
{
    lemma_divides_le(a, b);
    lemma_divides_le(b, a);
}

/// For a positive divisor, a zero remainder and the `divides` relation agree.
pub proof fn lemma_mod_divides(d: int, n: int)
    requires
        d > 0,
        n >= 0,
    ensures
        (n % d == 0) <==> divides(d, n),
{
    if n % d == 0 {
        lemma_fundamental_div_mod(n, d);
        assert(n == d * (n / d));
    }
    if divides(d, n) {
        let k = choose|k: int| n == #[trigger] (d * k);
        lemma_mod_multiples_basic(k, d);
        assert(n == k * d) by (nonlinear_arith)
            requires
                n == d * k,
        ;
    }
}

/// The Euclidean GCD divides both of its arguments and is positive unless
/// both are zero.
pub proof fn lemma_gcd_divides(a: nat, b: nat)
    ensures
        divides(euclid_gcd(a, b) as int, a as int),
        divides(euclid_gcd(a, b) as int, b as int),
        a > 0 || b > 0 ==> euclid_gcd(a, b) > 0,
    decreases b,
{
    if b == 0 {
        assert(a as int == (a as int) * 1);
        assert(0int == (a as int) * 0);
    } else {
        lemma_gcd_divides(b, a % b);
        let g = euclid_gcd(b, a % b) as int;
        lemma_fundamental_div_mod(a as int, b as int);
        let k1 = choose|k: int| b as int == #[trigger] (g * k);
        let k2 = choose|k: int| (a % b) as int == #[trigger] (g * k);
        let q = a as int / b as int;
        assert(a as int == g * (k1 * q + k2)) by (nonlinear_arith)
            requires
                a as int == (b as int) * q + (a % b) as int,
                b as int == g * k1,
                (a % b) as int == g * k2,
        ;
    }
}

/// Every common divisor of `a` and `b` divides their Euclidean GCD.
pub proof fn lemma_gcd_greatest(a: nat, b: nat, d: int)
    requires
        divides(d, a as int),
        divides(d, b as int),
    ensures
        divides(d, euclid_gcd(a, b) as int),
    decreases b,
{
    if b != 0 {
        lemma_fundamental_div_mod(a as int, b as int);
        let k1 = choose|k: int| a as int == #[trigger] (d * k);
        let k2 = choose|k: int| b as int == #[trigger] (d * k);
        let q = a as int / b as int;
        assert((a % b) as int == d * (k1 - k2 * q)) by (nonlinear_arith)
            requires
                a as int == (b as int) * q + (a % b) as int,
                a as int == d * k1,
                b as int == d * k2,
        ;
        lemma_gcd_greatest(b, a % b, d);
    }
}

/// Pairs with the same positive common divisors have the same GCD.
pub proof fn lemma_gcd_same_divisors(a1: nat, b1: nat, a2: nat, b2: nat)
    requires
        a1 > 0 || b1 > 0,
        a2 > 0 || b2 > 0,
        forall|d: int|
            #![trigger divides(d, a1 as int)]
            #![trigger divides(d, a2 as int)]
            d > 0 ==> ((divides(d, a1 as int) && divides(d, b1 as int)) <==> (divides(
                d,
                a2 as int,
            ) && divides(d, b2 as int))),
    ensures
        euclid_gcd(a1, b1) == euclid_gcd(a2, b2),
{
    lemma_gcd_divides(a1, b1);
    lemma_gcd_divides(a2, b2);
    let g1 = euclid_gcd(a1, b1) as int;
    let g2 = euclid_gcd(a2, b2) as int;
    assert(divides(g1, a2 as int) && divides(g1, b2 as int));
    assert(divides(g2, a1 as int) && divides(g2, b1 as int));
    lemma_gcd_greatest(a2, b2, g1);
    lemma_gcd_greatest(a1, b1, g2);
    lemma_divides_antisym(g1, g2);
}

/// The GCD is symmetric in its arguments.
pub proof fn lemma_gcd_comm(a: nat, b: nat)
    requires
        a > 0 || b > 0,
    ensures
        euclid_gcd(a, b) == euclid_gcd(b, a),
{
    lemma_gcd_same_divisors(a, b, b, a);
}

/// Subtracting the smaller argument from the larger keeps the GCD.
pub proof fn lemma_gcd_sub(a: nat, b: nat)
    requires
        0 < a <= b,
    ensures
        euclid_gcd(a, b) == euclid_gcd(a, (b - a) as nat),
{
    assert forall|d: int| d > 0 implies ((divides(d, a as int) && divides(d, b as int)) <==> (
    #[trigger] divides(d, a as int) && divides(d, (b - a) as int))) by {
        if divides(d, a as int) && divides(d, b as int) {
            let k1 = choose|k: int| a as int == #[trigger] (d * k);
            let k2 = choose|k: int| b as int == #[trigger] (d * k);
            assert(b - a == d * (k2 - k1)) by (nonlinear_arith)
                requires
                    a as int == d * k1,
                    b as int == d * k2,
            ;
        }
        if divides(d, a as int) && divides(d, (b - a) as int) {
            let k1 = choose|k: int| a as int == #[trigger] (d * k);
            let k2 = choose|k: int| (b - a) as int == #[trigger] (d * k);
            assert(b as int == d * (k1 + k2)) by (nonlinear_arith)
                requires
                    a as int == d * k1,
                    (b - a) as int == d * k2,
        ;
        }
    }
    lemma_gcd_same_divisors(a, b, a, (b - a) as nat);
}

/// The GCD of a positive number with itself is that number, and its GCD
/// with 1, on either side, is 1.
pub proof fn lemma_gcd_self_and_one(a: nat)
    requires
        a > 0,
    ensures
        euclid_gcd(a, a) == a,
        euclid_gcd(a, 1) == 1,
        euclid_gcd(1, a) == 1,
{
    lemma_mod_self_0(a as int);
    assert(euclid_gcd(a, a) == euclid_gcd(a, 0));
    lemma_mod_multiples_basic(a as int, 1);
    assert((a as int) * 1 == a as int);
    assert(a % 1 == 0);
    assert(euclid_gcd(a, 1) == euclid_gcd(1, 0));
    if a == 1 {
        assert(euclid_gcd(1, a) == 1);
    } else {
        lemma_small_mod(1, a);
        assert(euclid_gcd(1, a) == euclid_gcd(a, 1));
    }
}

/// A proper divisor of `g` is at most half of `g`.
pub proof fn lemma_divisor_at_most_half(d: int, g: int)
    requires
        0 < d < g,
        divides(d, g),
    ensures
        d <= g / 2,
{
    let k = choose|k: int| g == #[trigger] (d * k);
    assert(k >= 2) by (nonlinear_arith)
        requires
            g == d * k,
            0 < d,
            d < g,
    ;
    assert(g >= 2 * d) by (nonlinear_arith)
        requires
            g == d * k,
            k >= 2,
            d > 0,
    ;
    vstd::arithmetic::div_mod::lemma_div_is_ordered(2 * d, g, 2);
    lemma_div_multiples_vanish(d, 2);
}

/// The product of two odd numbers is odd.
pub proof fn lemma_odd_mul_odd(x: int, y: int)
    requires
        x % 2 == 1,
        y % 2 == 1,
    ensures
        (x * y) % 2 == 1,
{
    lemma_fundamental_div_mod(x, 2);
    lemma_fundamental_div_mod(y, 2);
    let i = x / 2;
    let j = y / 2;
    assert(x * y == 2 * (2 * i * j + i + j) + 1) by (nonlinear_arith)
        requires
            x == 2 * i + 1,
            y == 2 * j + 1,
    ;
    vstd::arithmetic::div_mod::lemma_mod_multiples_vanish(2 * i * j + i + j, 1, 2);
}

/// A divisor of an odd number is odd.
pub proof fn lemma_divisor_of_odd_is_odd(d: int, n: int)
    requires
        divides(d, n),
        n % 2 == 1,
    ensures
        d % 2 == 1,
{
    let k = choose|k: int| n == #[trigger] (d * k);
    if d % 2 == 0 {
        lemma_fundamental_div_mod(d, 2);
        assert(n == ((d / 2) * k) * 2) by (nonlinear_arith)
            requires
                n == d * k,
                d == 2 * (d / 2),
        ;
        lemma_mod_multiples_basic((d / 2) * k, 2);
    } else {
        lemma_fundamental_div_mod(d, 2);
        assert(0 <= d % 2 < 2);
    }
}

/// An odd number `a` and an even number `b` have the same GCD as `a` and
/// `b / 2`: every common divisor of the pair is odd, so the factor of two
/// in `b` is inert.
pub proof fn lemma_gcd_halve_even(a: nat, b: nat)
    requires
        a % 2 == 1,
        b % 2 == 0,
        b > 0,
    ensures
        euclid_gcd(a, b) == euclid_gcd(a, b / 2),
{
    lemma_fundamental_div_mod(b as int, 2);
    assert(b as int == 2 * ((b / 2) as int));
    assert forall|d: int| d > 0 implies ((#[trigger] divides(d, a as int) && divides(d, b as int))
        <==> (divides(d, a as int) && divides(d, (b / 2) as int))) by {
        if divides(d, a as int) && divides(d, b as int) {
            lemma_divisor_of_odd_is_odd(d, a as int);
            let k = choose|k: int| b as int == #[trigger] (d * k);
            lemma_fundamental_div_mod(k, 2);
            if k % 2 == 0 {
                assert((b / 2) as int == d * (k / 2)) by (nonlinear_arith)
                    requires
                        b as int == d * k,
                        b as int == 2 * ((b / 2) as int),
                        k == 2 * (k / 2),
                ;
            } else {
                assert(0 <= k % 2 < 2);
                lemma_odd_mul_odd(d, k);
                assert((b as int) % 2 == 1);
            }
        }
        if divides(d, a as int) && divides(d, (b / 2) as int) {
            let k = choose|k: int| (b / 2) as int == #[trigger] (d * k);
            assert(b as int == d * (2 * k)) by (nonlinear_arith)
                requires
                    (b / 2) as int == d * k,
                    b as int == 2 * ((b / 2) as int),
            ;
        }
    }
    lemma_gcd_same_divisors(a, b, a, b / 2);
}

/// Scaling both arguments scales the GCD by the same factor.
pub proof fn lemma_gcd_scale(k: nat, a: nat, b: nat)
    requires
        k > 0,
    ensures
        euclid_gcd(k * a, k * b) == k * euclid_gcd(a, b),
    decreases b,
{
    if b == 0 {
        assert(k * b == 0);
    } else {
        assert(k * b > 0) by (nonlinear_arith)
            requires
                k > 0,
                b > 0,
        ;
        let ki = k as int;
        let ai = a as int;
        let bi = b as int;
        lemma_breakdown(ki * ai, ki, bi);
        lemma_div_multiples_vanish(ai, ki);
        lemma_mod_multiples_basic(ai, ki);
        assert(ai * ki == ki * ai) by (nonlinear_arith);
        assert((ki * ai) % (ki * bi) == ki * (ai % bi));
        assert((k * a) % (k * b) == k * (a % b));
        lemma_gcd_scale(k, b, a % b);
        assert(euclid_gcd(k * a, k * b) == euclid_gcd(k * b, k * (a % b)));
    }
}

} // verus!
