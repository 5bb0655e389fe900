//! Transform-based convolution: pad both operands to the transform length,
//! transform, multiply pointwise mod q, and transform back. The negacyclic
//! variant first multiplies coefficient i by psi^i (the twist) and undoes it
//! on the result with the inverse twist, which maps negacyclic convolution
//! onto the cyclic pipeline.

use vstd::prelude::*;
use vstd::arithmetic::div_mod::lemma_mul_mod_noop_left;
use vstd::arithmetic::power::{lemma_pow1, lemma_pow_adds, pow};

use crate::ConvolveError;
use crate::modular::{mul_mod, pow_mod};
use crate::ntt::{
    coeffs, eval_point, inv_mod_spec, inverse_point, is_pow2, is_power_of_two, ntt_forward,
    ntt_inverse, omega,
};

verus! {

/// `p` extended to length `n` with zero coefficients.
pub open spec fn zero_padded(p: Seq<int>, n: int) -> Seq<int> {
    Seq::new(n as nat, |i: int| if i < p.len() { p[i] } else { 0 })
}

/// The forward transform of `p`: component `k` is `p` evaluated at the
/// `k`-th power of omega = psi^2 mod q.
pub open spec fn forward_points(p: Seq<int>, psi: int, q: int) -> Seq<int> {
    Seq::new(p.len(), |k: int| eval_point(p, omega(psi, q), k, q))
}

/// The inverse transform of `t`, component by component.
pub open spec fn inverse_points(t: Seq<int>, psi: int, q: int) -> Seq<int> {
    Seq::new(t.len(), |k: int| inverse_point(t, psi, q, k))
}

/// Componentwise product mod `q` of two transformed vectors.
pub open spec fn pointwise_product(a: Seq<int>, b: Seq<int>, q: int) -> Seq<int> {
    Seq::new(a.len(), |k: int| (a[k] * b[k]) % q)
}

/// Coefficient `i` multiplied by `s^i` mod q: the change of variable
/// x -> s*x applied to the coefficient sequence.
pub open spec fn twisted(p: Seq<int>, s: int, q: int) -> Seq<int> {
    Seq::new(p.len(), |i: int| (p[i] * (pow(s, i as nat) % q)) % q)
}

/// What the cyclic transform pipeline returns: pad both operands to the
/// transform length, forward-transform, multiply pointwise mod q, and
/// inverse-transform.
pub open spec fn cyclic_fast_spec(g: Seq<int>, h: Seq<int>, q: int, psi: int, n: int) -> Seq<
    int,
> {
    inverse_points(
        pointwise_product(
            forward_points(zero_padded(g, n), psi, q),
            forward_points(zero_padded(h, n), psi, q),
            q,
        ),
        psi,
        q,
    )
}

/// What the negacyclic transform pipeline returns: twist the padded
/// operands by the powers of psi, run the cyclic pipeline, and untwist the
/// result by the powers of the inverse of psi.
pub open spec fn negacyclic_fast_spec(g: Seq<int>, h: Seq<int>, q: int, psi: int, n: int) -> Seq<
    int,
> {
    twisted(
        cyclic_fast_spec(
            twisted(zero_padded(g, n), psi, q),
            twisted(zero_padded(h, n), psi, q),
            q,
            psi,
            n,
        ),
        inv_mod_spec(psi, q),
        q,
    )
}

/// Copy `p` and append zero coefficients up to length `n`.
#[verifier::loop_isolation(false)]
fn pad_to(p: &Vec<u64>, n: usize) -> (r: Vec<u64>)
    requires
        p@.len() <= n,
    ensures
        r@.len() == n,
        coeffs(r@) == zero_padded(coeffs(p@), n as int),
{
    let mut r: Vec<u64> = Vec::new();
    let mut i: usize = 0;
    while i < p.len()
        invariant
            i <= p@.len(),
            r@.len() == i,
            forall|x: int| 0 <= x < i ==> r@[x] == p@[x],
        decreases p@.len() - i,
    {
        r.push(p[i]);
        i += 1;
    }
    while r.len() < n
        invariant
            p@.len() <= r@.len() <= n,
            forall|x: int| 0 <= x < p@.len() ==> r@[x] == p@[x],
            forall|x: int| p@.len() <= x < r@.len() ==> r@[x] == 0,
        decreases n - r@.len(),
    {
        r.push(0);
    }
    proof {
        assert(coeffs(r@) =~= zero_padded(coeffs(p@), n as int));
    }
    r
}

/// Multiply coefficient `i` of `p` by `s^i` mod `q`.
#[verifier::loop_isolation(false)]
fn twist(p: &Vec<u64>, s: u64, q: u64) -> (r: Vec<u64>)
    requires
        1 <= q,
        s < q,
        forall|i: int| 0 <= i < p@.len() ==> p@[i] < q,
    ensures
        r@.len() == p@.len(),
        coeffs(r@) == twisted(coeffs(p@), s as int, q as int),
        forall|i: int| 0 <= i < r@.len() ==> r@[i] < q,
{
    let ghost qi = q as int;
    let mut r: Vec<u64> = Vec::new();
    let mut cur: u64 = 1 % q;
    proof {
        vstd::arithmetic::power::lemma_pow0(s as int);
    }
    let mut i: usize = 0;
    while i < p.len()
        invariant
            i <= p@.len(),
            r@.len() == i,
            cur < q,
            cur as int == pow(s as int, i as nat) % qi,
            forall|x: int|
                0 <= x < i ==> r@[x] as int == (coeffs(p@)[x] * (pow(s as int, x as nat) % qi))
                    % qi,
            forall|x: int| 0 <= x < i ==> r@[x] < q,
        decreases p@.len() - i,
    {
        r.push(mul_mod(p[i], cur, q));
        cur = mul_mod(cur, s, q);
        proof {
            lemma_mul_mod_noop_left(pow(s as int, i as nat), s as int, qi);
            lemma_pow_adds(s as int, i as nat, 1);
            lemma_pow1(s as int);
        }
        i += 1;
    }
    proof {
        assert(coeffs(r@) =~= twisted(coeffs(p@), s as int, q as int));
    }
    r
}

/// Cyclic convolution of `g` and `h` through the number-theoretic
/// transform: the operands are padded to the transform length `n`,
/// transformed, multiplied pointwise mod `q`, and transformed back.
#[verifier::loop_isolation(false)]
pub fn cyclic_convolve_fast(g: &Vec<u64>, h: &Vec<u64>, q: u64, psi: u64, n: usize) -> (r: Result<
    Vec<u64>,
    ConvolveError,
>)
    requires
        g@.len() <= n,
        h@.len() <= n,
        psi < q,
    ensures
        r == Err::<Vec<u64>, ConvolveError>(ConvolveError::EmptyInput) <==> (g@.len() == 0
            || h@.len() == 0),
        r == Err::<Vec<u64>, ConvolveError>(ConvolveError::InvalidTransformLength) <==> (
        g@.len() > 0 && h@.len() > 0 && !is_pow2(n as int)),
        r == Err::<Vec<u64>, ConvolveError>(ConvolveError::ModulusTooSmall) <==> (g@.len() > 0
            && h@.len() > 0 && is_pow2(n as int) && q <= n as u64),
        r == Err::<Vec<u64>, ConvolveError>(ConvolveError::CoefficientOutOfRange) <==> (g@.len()
            > 0 && h@.len() > 0 && is_pow2(n as int) && q > n as u64 && (exists|j: int|
            0 <= j < g@.len() && g@[j] >= q || exists|j: int| 0 <= j < h@.len() && h@[j] >= q)),
        r is Ok <==> (g@.len() > 0 && h@.len() > 0 && is_pow2(n as int) && q > n as u64 && (forall|
            j: int,
        | 0 <= j < g@.len() ==> g@[j] < q) && (forall|j2: int|
            0 <= j2 < h@.len() ==> h@[j2] < q)),
        r matches Ok(v) ==> v@.len() == n && coeffs(v@) == cyclic_fast_spec(
            coeffs(g@),
            coeffs(h@),
            q as int,
            psi as int,
            n as int,
        ),
{
    if g.len() == 0 || h.len() == 0 {
        return Err(ConvolveError::EmptyInput);
    }
    if !is_power_of_two(n) {
        return Err(ConvolveError::InvalidTransformLength);
    }
    if q <= n as u64 {
        return Err(ConvolveError::ModulusTooSmall);
    }
    let mut j: usize = 0;
    while j < g.len()
        invariant
            j <= g@.len(),
            forall|x: int| 0 <= x < j ==> g@[x] < q,
        decreases g@.len() - j,
    {
        if g[j] >= q {
            return Err(ConvolveError::CoefficientOutOfRange);
        }
        j += 1;
    }
    let mut j2: usize = 0;
    while j2 < h.len()
        invariant
            j2 <= h@.len(),
            forall|x: int| 0 <= x < j2 ==> h@[x] < q,
        decreases h@.len() - j2,
    {
        if h[j2] >= q {
            return Err(ConvolveError::CoefficientOutOfRange);
        }
        j2 += 1;
    }
    let ghost qi = q as int;
    let ghost pg_spec = zero_padded(coeffs(g@), n as int);
    let ghost ph_spec = zero_padded(coeffs(h@), n as int);
    let pg: Vec<u64> = pad_to(g, n);
    let ph: Vec<u64> = pad_to(h, n);
    proof {
        assert forall|x: int| 0 <= x < n implies pg@[x] < q by {
            assert(coeffs(pg@)[x] == pg_spec[x]);
        }
        assert forall|x: int| 0 <= x < n implies ph@[x] < q by {
            assert(coeffs(ph@)[x] == ph_spec[x]);
        }
    }
    let fg: Vec<u64> = match ntt_forward(&pg, q, psi, n) {
        Ok(t) => t,
        Err(e) => {
            return Err(e);
        },
    };
    let fh: Vec<u64> = match ntt_forward(&ph, q, psi, n) {
        Ok(t) => t,
        Err(e) => {
            return Err(e);
        },
    };
    let ghost fg_spec = forward_points(pg_spec, psi as int, qi);
    let ghost fh_spec = forward_points(ph_spec, psi as int, qi);
    let mut prod: Vec<u64> = Vec::new();
    let mut k: usize = 0;
    while k < n
        invariant
            prod@.len() == k,
            k <= n,
            forall|x: int| 0 <= x < k ==> prod@[x] as int == (fg_spec[x] * fh_spec[x]) % qi,
            forall|x: int| 0 <= x < k ==> prod@[x] < q,
        decreases n - k,
    {
        proof {
            assert(fg@[k as int] as int == fg_spec[k as int]);
            assert(fh@[k as int] as int == fh_spec[k as int]);
        }
        prod.push(mul_mod(fg[k], fh[k], q));
        k += 1;
    }
    proof {
        assert(coeffs(prod@) =~= pointwise_product(fg_spec, fh_spec, qi));
    }
    let res: Vec<u64> = match ntt_inverse(&prod, q, psi, n) {
        Ok(p) => p,
        Err(e) => {
            return Err(e);
        },
    };
    proof {
        assert(coeffs(res@) =~= cyclic_fast_spec(
            coeffs(g@),
            coeffs(h@),
            qi,
            psi as int,
            n as int,
        ));
    }
    Ok(res)
}

/// Negacyclic convolution of `g` and `h` through the number-theoretic
/// transform: the padded operands are twisted by the powers of `psi`, fed
/// through the cyclic pipeline, and the result is untwisted by the powers
/// of the inverse of `psi`.
#[verifier::loop_isolation(false)]
pub fn negacyclic_convolve_fast(g: &Vec<u64>, h: &Vec<u64>, q: u64, psi: u64, n: usize) -> (r:
    Result<Vec<u64>, ConvolveError>)
    requires
        g@.len() <= n,
        h@.len() <= n,
        psi < q,
    ensures
        r == Err::<Vec<u64>, ConvolveError>(ConvolveError::EmptyInput) <==> (g@.len() == 0
            || h@.len() == 0),
        r == Err::<Vec<u64>, ConvolveError>(ConvolveError::InvalidTransformLength) <==> (
        g@.len() > 0 && h@.len() > 0 && !is_pow2(n as int)),
        r == Err::<Vec<u64>, ConvolveError>(ConvolveError::ModulusTooSmall) <==> (g@.len() > 0
            && h@.len() > 0 && is_pow2(n as int) && q <= n as u64),
        r == Err::<Vec<u64>, ConvolveError>(ConvolveError::CoefficientOutOfRange) <==> (g@.len()
            > 0 && h@.len() > 0 && is_pow2(n as int) && q > n as u64 && (exists|j: int|
            0 <= j < g@.len() && g@[j] >= q || exists|j: int| 0 <= j < h@.len() && h@[j] >= q)),
        r is Ok <==> (g@.len() > 0 && h@.len() > 0 && is_pow2(n as int) && q > n as u64 && (forall|
            j: int,
        | 0 <= j < g@.len() ==> g@[j] < q) && (forall|j2: int|
            0 <= j2 < h@.len() ==> h@[j2] < q)),
        r matches Ok(v) ==> v@.len() == n && coeffs(v@) == negacyclic_fast_spec(
            coeffs(g@),
            coeffs(h@),
            q as int,
            psi as int,
            n as int,
        ),
{
    if g.len() == 0 || h.len() == 0 {
        return Err(ConvolveError::EmptyInput);
    }
    if !is_power_of_two(n) {
        return Err(ConvolveError::InvalidTransformLength);
    }
    if q <= n as u64 {
        return Err(ConvolveError::ModulusTooSmall);
    }
    let mut j: usize = 0;
    while j < g.len()
        invariant
            j <= g@.len(),
            forall|x: int| 0 <= x < j ==> g@[x] < q,
        decreases g@.len() - j,
    {
        if g[j] >= q {
            return Err(ConvolveError::CoefficientOutOfRange);
        }
        j += 1;
    }
    let mut j2: usize = 0;
    while j2 < h.len()
        invariant
            j2 <= h@.len(),
            forall|x: int| 0 <= x < j2 ==> h@[x] < q,
        decreases h@.len() - j2,
    {
        if h[j2] >= q {
            return Err(ConvolveError::CoefficientOutOfRange);
        }
        j2 += 1;
    }
    let ghost qi = q as int;
    let ghost pg_spec = zero_padded(coeffs(g@), n as int);
    let ghost ph_spec = zero_padded(coeffs(h@), n as int);
    let pg: Vec<u64> = pad_to(g, n);
    let ph: Vec<u64> = pad_to(h, n);
    proof {
        assert forall|x: int| 0 <= x < n implies pg@[x] < q by {
            assert(coeffs(pg@)[x] == pg_spec[x]);
        }
        assert forall|x: int| 0 <= x < n implies ph@[x] < q by {
            assert(coeffs(ph@)[x] == ph_spec[x]);
        }
    }
    let tg: Vec<u64> = twist(&pg, psi, q);
    let th: Vec<u64> = twist(&ph, psi, q);
    let c: Vec<u64> = match cyclic_convolve_fast(&tg, &th, q, psi, n) {
        Ok(v) => v,
        Err(e) => {
            return Err(e);
        },
    };
    let psi_inv: u64 = pow_mod(psi, q - 2, q);
    proof {
        let c_spec = cyclic_fast_spec(coeffs(tg@), coeffs(th@), qi, psi as int, n as int);
        assert forall|x: int| 0 <= x < n implies c@[x] < q by {
            assert(coeffs(c@)[x] == c_spec[x]);
            assert(c_spec[x] == inverse_point(
                pointwise_product(
                    forward_points(zero_padded(coeffs(tg@), n as int), psi as int, qi),
                    forward_points(zero_padded(coeffs(th@), n as int), psi as int, qi),
                    qi,
                ),
                psi as int,
                qi,
                x,
            ));
        }
    }
    let out: Vec<u64> = twist(&c, psi_inv, q);
    proof {
        assert(zero_padded(coeffs(tg@), n as int) =~= coeffs(tg@));
        assert(zero_padded(coeffs(th@), n as int) =~= coeffs(th@));
        assert(coeffs(out@) =~= negacyclic_fast_spec(
            coeffs(g@),
            coeffs(h@),
            qi,
            psi as int,
            n as int,
        ));
    }
    Ok(out)
}

} // verus!
