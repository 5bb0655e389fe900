//! Modular arithmetic under a modulus `q`: addition, subtraction and
//! multiplication without intermediate overflow, binary exponentiation, and
//! discovery of an element whose `n`-th power is `q - 1` — for prime `q` and
//! a power-of-two `n`, precisely a primitive `2n`-th root of unity.

use vstd::prelude::*;
use vstd::arithmetic::div_mod::{
    lemma_mod_add_multiples_vanish, lemma_mul_mod_noop_general, lemma_mul_mod_noop_right,
    lemma_small_mod,
};
use vstd::arithmetic::mul::lemma_mul_upper_bound;
use vstd::arithmetic::power::{
    lemma_pow1, lemma_pow_adds, lemma_pow_mod_noop, lemma_pow_multiplies, pow,
};

use crate::ConvolveError;

verus! {

/// `b` raised to the `e`-th power, reduced modulo `q`.
pub open spec fn pow_mod_spec(b: int, e: nat, q: int) -> int {
    pow(b, e) % q
}

/// Whether `c` is an element of Z_q whose `n`-th power is `q - 1`. For a
/// prime `q` and a power-of-two `n` this says that `c` has multiplicative
/// order exactly `2n`: it is a primitive `2n`-th root of unity.
pub open spec fn is_primitive_root(c: int, n: nat, q: int) -> bool {
    pow(c, n) % q == q - 1
}

/// Modular addition of two reduced operands.
pub fn add_mod(a: u64, b: u64, q: u64) -> (r: u64)
    requires
        1 <= q,
        a < q,
        b < q,
    ensures
        r as int == (a + b) % (q as int),
        r < q,
{
    let s: u128 = a as u128 + b as u128;
    let r: u128 = s % (q as u128);
    r as u64
}

/// Modular subtraction of two reduced operands; the result is non-negative.
pub fn sub_mod(a: u64, b: u64, q: u64) -> (r: u64)
    requires
        1 <= q,
        a < q,
        b < q,
    ensures
        r as int == (a - b) % (q as int),
        r < q,
{
    let s: u128 = a as u128 + q as u128 - b as u128;
    let r: u128 = s % (q as u128);
    proof {
        lemma_mod_add_multiples_vanish(a - b, q as int);
    }
    r as u64
}

/// Modular multiplication of two reduced operands, through a wide
/// intermediate so that the product cannot overflow.
pub fn mul_mod(a: u64, b: u64, q: u64) -> (r: u64)
    requires
        1 <= q,
        a < q,
        b < q,
    ensures
        r as int == (a * b) % (q as int),
        r < q,
{
    proof {
        lemma_mul_upper_bound(a as int, u64::MAX as int, b as int, u64::MAX as int);
    }
    let p: u128 = a as u128 * b as u128;
    let r: u128 = p % (q as u128);
    r as u64
}

/// Modular exponentiation by binary decomposition of the exponent:
/// O(log e) modular multiplications.
#[verifier::loop_isolation(false)]
pub fn pow_mod(b: u64, e: u64, q: u64) -> (r: u64)
    requires
        1 <= q,
    ensures
        r as int == pow_mod_spec(b as int, e as nat, q as int),
        r < q,
{
    let mut result: u64 = 1 % q;
    let mut base: u64 = b % q;
    let mut exp: u64 = e;
    proof {
        lemma_pow_mod_noop(b as int, e as nat, q as int);
        lemma_mul_mod_noop_general(1, pow(base as int, exp as nat), q as int);
        assert(1 * pow(base as int, exp as nat) == pow(base as int, exp as nat));
    }
    while exp > 0
        invariant
            result < q,
            base < q,
            (result * pow(base as int, exp as nat)) % (q as int) == pow_mod_spec(
                b as int,
                e as nat,
                q as int,
            ),
        decreases exp,
    {
        let ghost r0 = result as int;
        let ghost b0 = base as int;
        let ghost e0 = exp as nat;
        let ghost qi = q as int;
        let half: u64 = exp / 2;
        if exp % 2 == 1 {
            result = mul_mod(result, base, q);
        }
        base = mul_mod(base, base, q);
        exp = half;
        proof {
            let e1 = half as nat;
            // pow(b0, e0) splits into the bit just consumed and the rest.
            assert(pow(b0, 2) == b0 * b0) by {
                lemma_pow_adds(b0, 1, 1);
                lemma_pow1(b0);
            }
            lemma_pow_multiplies(b0, 2, e1);
            assert(pow(b0 * b0, e1) == pow(b0, 2 * e1));
            // The squared base is reduced; reduce inside the power.
            lemma_pow_mod_noop(b0 * b0, e1, qi);
            assert(pow((b0 * b0) % qi, e1) % qi == pow(b0, 2 * e1) % qi);
            assert(base as int == (b0 * b0) % qi);
            lemma_mul_mod_noop_right(result as int, pow(base as int, e1), qi);
            lemma_mul_mod_noop_right(result as int, pow(b0, 2 * e1), qi);
            assert((result * pow(base as int, e1)) % qi == (result * pow(b0, 2 * e1)) % qi);
            if e0 % 2 == 1 {
                assert(e0 == 2 * e1 + 1);
                assert(result as int == (r0 * b0) % qi);
                lemma_mul_mod_noop_general(r0 * b0, pow(b0, 2 * e1), qi);
                assert(((r0 * b0) % qi * pow(b0, 2 * e1)) % qi == ((r0 * b0) * pow(b0, 2 * e1))
                    % qi);
                assert((r0 * b0) * pow(b0, 2 * e1) == r0 * (pow(b0, 2 * e1) * b0)) by {
                    vstd::arithmetic::mul::lemma_mul_is_associative(r0, b0, pow(b0, 2 * e1));
                }
                assert(pow(b0, 2 * e1) * b0 == pow(b0, e0)) by {
                    lemma_pow_adds(b0, 2 * e1, 1);
                    lemma_pow1(b0);
                }
                assert((result * pow(b0, 2 * e1)) % qi == (r0 * pow(b0, e0)) % qi);
            } else {
                assert(e0 == 2 * e1);
            }
        }
    }
    proof {
        assert(pow(base as int, 0) == 1) by {
            vstd::arithmetic::power::lemma_pow0(base as int);
        }
        assert(result * 1 == result);
        lemma_small_mod(result as nat, q as nat);
    }
    result
}

/// Search for a primitive root: the smallest candidate `c` in `[2, q)` with
/// `c^n = q - 1 (mod q)`, the characterization of order `2n` for prime `q`
/// and power-of-two `n`. Fails with `NoPrimitiveRoot` when no candidate
/// qualifies.
#[verifier::loop_isolation(false)]
pub fn find_primitive_root(q: u64, n: u64) -> (r: Result<u64, ConvolveError>)
    requires
        2 <= q,
    ensures
        r matches Ok(psi) ==> 2 <= psi < q && is_primitive_root(psi as int, n as nat, q as int)
            && forall|c: int| 2 <= c < psi ==> !is_primitive_root(c, n as nat, q as int),
        r is Err ==> r == Err::<u64, ConvolveError>(ConvolveError::NoPrimitiveRoot) && forall|
            c: int,
        | 2 <= c < q ==> !is_primitive_root(c, n as nat, q as int),
{
    let mut c: u64 = 2;
    while c < q
        invariant
            2 <= c,
            forall|x: int| 2 <= x < c ==> !is_primitive_root(x, n as nat, q as int),
        decreases q - c,
    {
        if pow_mod(c, n, q) == q - 1 {
            return Ok(c);
        }
        c = c + 1;
    }
    Err(ConvolveError::NoPrimitiveRoot)
}

} // verus!
