//! The divisor engine: a verified binary GCD and the enumeration of all
//! common divisors of two positive numbers.

use crate::divisibility::{
    divides, euclid_gcd, lemma_divides_le, lemma_divides_trans, lemma_divisor_at_most_half,
    lemma_divisor_of_odd_is_odd, lemma_gcd_comm, lemma_gcd_divides, lemma_gcd_greatest,
    lemma_gcd_halve_even, lemma_gcd_scale, lemma_gcd_sub, lemma_mod_divides,
};
use vstd::arithmetic::power2::{
    lemma2_to64, lemma_pow2_pos, lemma_pow2_strictly_increases, lemma_pow2_unfold, pow2,
};
use vstd::prelude::*;

verus! {

/// Enumerates, in ascending order, every positive integer that divides both
/// `a` and `b`. The result is exactly the list of divisors of `gcd(a, b)`,
/// so it always ends with the GCD itself and always starts with 1. When
/// either input is odd the GCD is odd, so even candidates are skipped.
#[verifier::loop_isolation(false)]
pub fn find_common_divisors(a: u32, b: u32) -> (r: Vec<u32>)
    requires
        a > 0,
        b > 0,
    ensures
        r@.len() >= 1,
        r@[0] == 1u32,
        r@.last() as nat == euclid_gcd(a as nat, b as nat),
        forall|i: int, j: int| 0 <= i < j < r@.len() ==> r@[i] < r@[j],
        forall|i: int|
            0 <= i < r@.len() ==> 1 <= #[trigger] r@[i] && divides(r@[i] as int, a as int)
                && divides(r@[i] as int, b as int),
        forall|d: int|
            0 < d && #[trigger] divides(d, a as int) && divides(d, b as int) ==> r@.contains(
                d as u32,
            ),
{
    let g = gcd(a, b);
    proof {
        lemma_gcd_divides(a as nat, b as nat);
    }
    let step: u32 = if a % 2 == 1 || b % 2 == 1 {
        2
    } else {
        1
    };
    proof {
        if step == 2 {
            if a % 2 == 1 {
                lemma_divisor_of_odd_is_odd(g as int, a as int);
            } else {
                lemma_divisor_of_odd_is_odd(g as int, b as int);
            }
        }
    }
    let mut divisors: Vec<u32> = Vec::new();
    let mut num: u32 = 1;
    while num <= g / 2
        invariant
            1 <= num,
            step == 2 ==> num % 2 == 1 && g % 2 == 1,
            forall|i: int, j: int|
                0 <= i < j < divisors@.len() ==> divisors@[i] < divisors@[j],
            forall|i: int|
                0 <= i < divisors@.len() ==> 1 <= #[trigger] divisors@[i] && divisors@[i] < num
                    && divisors@[i] <= g / 2 && divides(divisors@[i] as int, g as int),
            forall|d: u32|
                1 <= d < num && #[trigger] divides(d as int, g as int) ==> divisors@.contains(d),
        decreases g - num,
    {
        proof {
            lemma_mod_divides(num as int, g as int);
        }
        let ghost pre = divisors@;
        if g % num == 0 {
            divisors.push(num);
        }
        proof {
            assert forall|d: u32|
                1 <= d < num + step && #[trigger] divides(d as int, g as int) implies divisors@
                .contains(d) by {
                if d < num {
                    assert(pre.contains(d));
                    let i = choose|i: int| 0 <= i < pre.len() && pre[i] == d;
                    assert(divisors@[i] == d);
                } else if d == num {
                    assert(divisors@.last() == d);
                } else {
                    assert(step == 2 && d == num + 1);
                    lemma_divisor_of_odd_is_odd(d as int, g as int);
                    assert((num + 1) % 2 == 0) by (nonlinear_arith)
                        requires
                            num % 2 == 1,
                    ;
                }
            }
        }
        num = num + step;
    }
    proof {
        assert forall|d: u32| 1 <= d && #[trigger] divides(d as int, g as int) && d != g
            implies divisors@.contains(d) by {
            lemma_divides_le(d as int, g as int);
            lemma_divisor_at_most_half(d as int, g as int);
        }
    }
    let ghost pre = divisors@;
    divisors.push(g);
    proof {
        assert forall|d: int|
            0 < d && #[trigger] divides(d, a as int) && divides(d, b as int) implies divisors@
            .contains(d as u32) by {
            lemma_gcd_greatest(a as nat, b as nat, d);
            lemma_divides_le(d, g as int);
            if d == g as int {
                assert(divisors@.last() == g);
            } else {
                assert(pre.contains(d as u32));
                let i = choose|i: int| 0 <= i < pre.len() && pre[i] == d as u32;
                assert(divisors@[i] == d as u32);
            }
        }
        assert forall|i: int|
            0 <= i < divisors@.len() implies 1 <= #[trigger] divisors@[i] && divides(
            divisors@[i] as int,
            a as int,
        ) && divides(divisors@[i] as int, b as int) by {
            assert(divides(divisors@[i] as int, g as int)) by {
                if i < divisors@.len() - 1 {
                    assert(divisors@[i] == pre[i]);
                } else {
                    assert(divisors@[i] as int == g as int * 1);
                }
            }
            lemma_divides_trans(divisors@[i] as int, g as int, a as int);
            lemma_divides_trans(divisors@[i] as int, g as int, b as int);
        }
        assert(divisors@[0] == 1u32) by {
            assert(divides(1int, a as int)) by {
                assert(a as int == 1int * (a as int)) by (nonlinear_arith);
            }
            assert(divides(1int, b as int)) by {
                assert(b as int == 1int * (b as int)) by (nonlinear_arith);
            }
            assert(divisors@.contains(1u32));
            let i = choose|i: int| 0 <= i < divisors@.len() && divisors@[i] == 1u32;
            if i > 0 {
                assert(divisors@[0] < divisors@[i]);
            }
        }
    }
    divisors
}

/// Greatest common divisor using the binary GCD algorithm: the common power
/// of two is factored out first, the remaining factors of two are stripped
/// from the first operand, and the loop strips factors of two from the other
/// operand and subtracts the smaller value from the larger until the
/// remainder vanishes.
#[verifier::loop_isolation(false)]
pub fn gcd(u: u32, v: u32) -> (r: u32)
    requires
        u > 0,
        v > 0,
    ensures
        r as nat == euclid_gcd(u as nat, v as nat),
        r > 0,
{
    let ghost g0 = euclid_gcd(u as nat, v as nat);
    proof {
        lemma_gcd_divides(u as nat, v as nat);
        lemma_divides_le(g0 as int, u as int);
        lemma2_to64();
    }
    let mut a = u;
    let mut b = v;
    let mut shift: u32 = 0;
    while a % 2 == 0 && b % 2 == 0
        invariant
            a > 0,
            b > 0,
            pow2(shift as nat) * euclid_gcd(a as nat, b as nat) == g0,
        decreases a,
    {
        proof {
            lemma_gcd_divides(a as nat, b as nat);
            assert(shift < 32) by {
                if shift >= 32 {
                    if shift > 32 {
                        lemma_pow2_strictly_increases(32, shift as nat);
                    }
                    lemma2_to64();
                    assert(pow2(shift as nat) * euclid_gcd(a as nat, b as nat) >= pow2(
                        shift as nat,
                    )) by (nonlinear_arith)
                        requires
                            euclid_gcd(a as nat, b as nat) > 0,
                            pow2(shift as nat) > 0,
                    ;
                }
            }
            lemma_gcd_scale(2, (a / 2) as nat, (b / 2) as nat);
            lemma_pow2_unfold((shift + 1) as nat);
            assert(pow2((shift + 1) as nat) * euclid_gcd((a / 2) as nat, (b / 2) as nat) == pow2(
                shift as nat,
            ) * (2 * euclid_gcd((a / 2) as nat, (b / 2) as nat))) by (nonlinear_arith)
                requires
                    pow2((shift + 1) as nat) == 2 * pow2(shift as nat),
            ;
        }
        a = a / 2;
        b = b / 2;
        shift = shift + 1;
    }
    while a % 2 == 0
        invariant
            a > 0,
            b > 0,
            a % 2 == 1 || b % 2 == 1,
            pow2(shift as nat) * euclid_gcd(a as nat, b as nat) == g0,
        decreases a,
    {
        proof {
            lemma_gcd_comm(a as nat, b as nat);
            lemma_gcd_halve_even(b as nat, a as nat);
            lemma_gcd_comm((a / 2) as nat, b as nat);
        }
        a = a / 2;
    }
    loop
        invariant
            a > 0,
            b > 0,
            a % 2 == 1,
            pow2(shift as nat) * euclid_gcd(a as nat, b as nat) == g0,
        decreases a + b,
    {
        let ghost b_entry = b;
        while b % 2 == 0
            invariant
                b > 0,
                b <= b_entry,
                pow2(shift as nat) * euclid_gcd(a as nat, b as nat) == g0,
            decreases b,
        {
            proof {
                lemma_gcd_halve_even(a as nat, b as nat);
            }
            b = b / 2;
        }
        if a > b {
            let t = a;
            a = b;
            b = t;
            proof {
                lemma_gcd_comm(a as nat, b as nat);
            }
        }
        proof {
            lemma_gcd_sub(a as nat, b as nat);
        }
        b = b - a;
        if b == 0 {
            assert(pow2(shift as nat) * a as nat == g0);
            let mut r = a;
            let mut s = shift;
            while s > 0
                invariant
                    r > 0,
                    pow2(s as nat) * r as nat == g0,
                decreases s,
            {
                proof {
                    lemma_pow2_unfold(s as nat);
                    assert(pow2(s as nat) * r as nat == pow2((s - 1) as nat) * (2 * r as nat))
                        by (nonlinear_arith)
                        requires
                            pow2(s as nat) == 2 * pow2((s - 1) as nat),
                    ;
                    lemma_pow2_pos((s - 1) as nat);
                    assert(2 * r as nat <= pow2((s - 1) as nat) * (2 * r as nat))
                        by (nonlinear_arith)
                        requires
                            pow2((s - 1) as nat) >= 1,
                            r > 0,
                    ;
                }
                r = r * 2;
                s = s - 1;
            }
            proof {
                lemma2_to64();
                assert(pow2(0) * (r as nat) == g0);
                assert(r as nat == g0);
            }
            return r;
        }
    }
}

} // verus!

