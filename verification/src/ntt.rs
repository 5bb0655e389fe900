//! The number-theoretic transform over Z_q: the forward transform evaluates
//! a length-n polynomial at the n powers of omega = psi^2 mod q, and the
//! inverse transform evaluates at the powers of omega's inverse and scales
//! by the inverse of n, both inverses taken through Fermat exponentiation
//! with exponent q - 2. When the evaluation point is a genuine n-th root of
//! unity whose half power is -1, the transform runs the divide-and-conquer
//! butterfly schedule in O(n log n) modular multiplications; otherwise it
//! falls back to direct evaluation. Both produce the same values, and the
//! contracts state them exactly.

use vstd::prelude::*;
use vstd::arithmetic::div_mod::{
    lemma_add_mod_noop, lemma_add_mod_noop_right, lemma_mod_multiples_vanish,
    lemma_mul_mod_noop_general, lemma_mul_mod_noop_left, lemma_mul_mod_noop_right,
    lemma_small_mod, lemma_sub_mod_noop_right,
};
use vstd::arithmetic::mul::lemma_mul_is_distributive_add;
use vstd::arithmetic::power::{
    lemma1_pow, lemma_pow0, lemma_pow1, lemma_pow_adds, lemma_pow_mod_noop, lemma_pow_multiplies,
    pow,
};

use crate::ConvolveError;
use crate::modular::{add_mod, mul_mod, pow_mod, sub_mod};

verus! {

/// The sequence of coefficients as unbounded integers.
pub open spec fn coeffs(s: Seq<u64>) -> Seq<int> {
    s.map_values(|x: u64| x as int)
}

/// Whether `n` is a power of two.
pub open spec fn is_pow2(n: int) -> bool
    decreases n,
{
    if n <= 0 {
        false
    } else if n == 1 {
        true
    } else {
        n % 2 == 0 && is_pow2(n / 2)
    }
}

/// The evaluation point of the standard transform: psi^2 reduced mod q.
pub open spec fn omega(psi: int, q: int) -> int {
    (psi * psi) % q
}

/// The multiplicative inverse of `a` mod a prime `q`, by Fermat's little
/// theorem: `a^(q-2)` reduced mod `q`.
pub open spec fn inv_mod_spec(a: int, q: int) -> int {
    pow(a, (q - 2) as nat) % q
}

/// The first `m` terms of the evaluation of polynomial `p` at `w^k`:
/// the sum of `p[j] * w^(j*k)` over `j` in `[0, m)`.
pub open spec fn eval_sum(p: Seq<int>, w: int, k: int, m: int) -> int
    decreases m,
{
    if m <= 0 {
        0
    } else {
        eval_sum(p, w, k, m - 1) + p[m - 1] * pow(w, ((m - 1) * k) as nat)
    }
}

/// Component `k` of the transform of `p` with evaluation point `w`: the
/// polynomial evaluated at `w^k`, reduced mod `q`.
pub open spec fn eval_point(p: Seq<int>, w: int, k: int, q: int) -> int {
    eval_sum(p, w, k, p.len() as int) % q
}

/// Component `k` of the inverse transform of `t`: the evaluation of `t` at
/// the `k`-th power of the inverse of omega, scaled by the inverse of the
/// transform length.
pub open spec fn inverse_point(t: Seq<int>, psi: int, q: int, k: int) -> int {
    (inv_mod_spec(t.len() as int, q) * eval_point(t, inv_mod_spec(omega(psi, q), q), k, q)) % q
}

/// Whether `n` is an exact power of two, by repeated halving.
#[verifier::loop_isolation(false)]
pub fn is_power_of_two(n: usize) -> (b: bool)
    ensures
        b == is_pow2(n as int),
{
    if n == 0 {
        return false;
    }
    let mut m: usize = n;
    while m > 1
        invariant
            1 <= m,
            is_pow2(n as int) == is_pow2(m as int),
        decreases m,
    {
        if m % 2 == 1 {
            return false;
        }
        m = m / 2;
    }
    true
}

/// Evaluate `p` at the powers `w^0, w^1, ..., w^(len-1)` of a reduced point
/// `w`, all arithmetic mod `q`.
#[verifier::loop_isolation(false)]
fn eval_powers(p: &Vec<u64>, w: u64, q: u64) -> (r: Vec<u64>)
    requires
        1 <= q,
        w < q,
        forall|j: int| 0 <= j < p@.len() ==> p@[j] < q,
    ensures
        r@.len() == p@.len(),
        forall|k: int|
            0 <= k < r@.len() ==> r@[k] as int == eval_point(coeffs(p@), w as int, k, q as int),
{
    let ghost qi = q as int;
    let ghost pc = coeffs(p@);
    let mut out: Vec<u64> = Vec::new();
    let mut k: usize = 0;
    while k < p.len()
        invariant
            out@.len() == k,
            k <= p@.len(),
            forall|x: int| 0 <= x < k ==> out@[x] as int == eval_point(pc, w as int, x, qi),
        decreases p@.len() - k,
    {
        let wk: u64 = pow_mod(w, k as u64, q);
        let mut acc: u64 = 0;
        let mut cur: u64 = 1 % q;
        proof {
            vstd::arithmetic::power::lemma_pow0(w as int);
        }
        let mut j: usize = 0;
        while j < p.len()
            invariant
                j <= p@.len(),
                acc < q,
                cur < q,
                cur as int == pow(w as int, ((j as int) * (k as int)) as nat) % qi,
                acc as int == eval_sum(pc, w as int, k as int, j as int) % qi,
            decreases p@.len() - j,
        {
            let ghost jk = (j as int) * (k as int);
            let ghost s0 = eval_sum(pc, w as int, k as int, j as int);
            let t: u64 = mul_mod(p[j], cur, q);
            proof {
                lemma_mul_mod_noop_right(pc[j as int], pow(w as int, jk as nat), qi);
                assert(t as int == (pc[j as int] * pow(w as int, jk as nat)) % qi);
            }
            acc = add_mod(acc, t, q);
            proof {
                lemma_add_mod_noop(s0, pc[j as int] * pow(w as int, jk as nat), qi);
                assert(eval_sum(pc, w as int, k as int, j as int + 1) == s0 + pc[j as int] * pow(
                    w as int,
                    jk as nat,
                ));
            }
            cur = mul_mod(cur, wk, q);
            proof {
                let wi = w as int;
                lemma_mul_mod_noop_general(pow(wi, jk as nat), pow(wi, k as nat), qi);
                lemma_pow_adds(wi, jk as nat, k as nat);
                assert((j as int) * (k as int) + (k as int) == (j as int + 1) * (k as int))
                    by (nonlinear_arith);
            }
            j += 1;
        }
        out.push(acc);
        k += 1;
    }
    out
}

/// Splitting an evaluation sum over a length-2m coefficient sequence into
/// its even and odd halves, both evaluated at the square of the point.
proof fn lemma_eval_sum_split(
    pc: Seq<int>,
    ec: Seq<int>,
    oc: Seq<int>,
    w: int,
    k: int,
    m: int,
)
    requires
        0 <= m,
        0 <= k,
        forall|i: int| 0 <= i < m ==> #[trigger] ec[i] == pc[2 * i],
        forall|i: int| 0 <= i < m ==> #[trigger] oc[i] == pc[2 * i + 1],
    ensures
        eval_sum(pc, w, k, 2 * m) == eval_sum(ec, w * w, k, m) + pow(w, k as nat) * eval_sum(
            oc,
            w * w,
            k,
            m,
        ),
    decreases m,
{
    let pk = pow(w, k as nat);
    if m == 0 {
        assert(pk * 0 == 0);
    } else {
        lemma_eval_sum_split(pc, ec, oc, w, k, m - 1);
        let e_old = eval_sum(ec, w * w, k, m - 1);
        let o_old = eval_sum(oc, w * w, k, m - 1);
        assert((m - 1) * k >= 0 && (2 * m - 2) * k >= 0) by (nonlinear_arith)
            requires
                m >= 1,
                k >= 0,
        ;
        let et = ec[m - 1] * pow(w * w, ((m - 1) * k) as nat);
        let ot = oc[m - 1] * pow(w * w, ((m - 1) * k) as nat);
        assert(eval_sum(pc, w, k, 2 * m) == eval_sum(pc, w, k, 2 * m - 1) + pc[2 * m - 1] * pow(
            w,
            ((2 * m - 1) * k) as nat,
        ));
        assert(eval_sum(pc, w, k, 2 * m - 1) == eval_sum(pc, w, k, 2 * m - 2) + pc[2 * m - 2]
            * pow(w, ((2 * m - 2) * k) as nat));
        assert(pow(w, 2) == w * w) by {
            lemma_pow_adds(w, 1, 1);
            lemma_pow1(w);
        }
        assert(pow(w * w, ((m - 1) * k) as nat) == pow(w, ((2 * m - 2) * k) as nat)) by {
            lemma_pow_multiplies(w, 2, ((m - 1) * k) as nat);
            assert(2 * ((m - 1) * k) == (2 * m - 2) * k) by (nonlinear_arith);
        }
        assert(pow(w, ((2 * m - 1) * k) as nat) == pow(w, ((2 * m - 2) * k) as nat) * pk) by {
            lemma_pow_adds(w, ((2 * m - 2) * k) as nat, k as nat);
            assert((2 * m - 2) * k + k == (2 * m - 1) * k) by (nonlinear_arith);
        }
        assert(pc[2 * m - 1] * (pow(w, ((2 * m - 2) * k) as nat) * pk) == pk * (pc[2 * m - 1]
            * pow(w, ((2 * m - 2) * k) as nat))) by (nonlinear_arith);
        assert(pk * (o_old + ot) == pk * o_old + pk * ot) by {
            lemma_mul_is_distributive_add(pk, o_old, ot);
        }
    }
}

/// An evaluation sum is congruent mod q when its evaluation point is
/// reduced mod q.
proof fn lemma_eval_sum_point_mod(p: Seq<int>, v: int, q: int, k: int, m: int)
    requires
        1 <= q,
        0 <= k,
        0 <= m,
    ensures
        eval_sum(p, v % q, k, m) % q == eval_sum(p, v, k, m) % q,
    decreases m,
{
    if m > 0 {
        lemma_eval_sum_point_mod(p, v, q, k, m - 1);
        let i = m - 1;
        assert(i * k >= 0) by (nonlinear_arith)
            requires
                i >= 0,
                k >= 0,
        ;
        lemma_pow_mod_noop(v, (i * k) as nat, q);
        lemma_mul_mod_noop_right(p[i], pow(v % q, (i * k) as nat), q);
        lemma_mul_mod_noop_right(p[i], pow(v, (i * k) as nat), q);
        lemma_add_mod_noop(eval_sum(p, v % q, k, m - 1), p[i] * pow(v % q, (i * k) as nat), q);
        lemma_add_mod_noop(eval_sum(p, v, k, m - 1), p[i] * pow(v, (i * k) as nat), q);
    }
}

/// Shifting the transform index by a period of the evaluation point leaves
/// an evaluation sum unchanged mod q: when `v^s = 1 (mod q)`, index `k + s`
/// evaluates to the same values as index `k`.
proof fn lemma_eval_sum_shift(p: Seq<int>, v: int, q: int, k: int, s: int, m: int)
    requires
        2 <= q,
        0 <= k,
        1 <= s,
        0 <= m,
        pow(v, s as nat) % q == 1,
    ensures
        eval_sum(p, v, k + s, m) % q == eval_sum(p, v, k, m) % q,
    decreases m,
{
    if m > 0 {
        lemma_eval_sum_shift(p, v, q, k, s, m - 1);
        let i = m - 1;
        let t1 = p[i] * pow(v, (i * (k + s)) as nat);
        let t2 = p[i] * pow(v, (i * k) as nat);
        assert(i * (k + s) == i * k + i * s && i * k >= 0 && i * s >= 0) by (nonlinear_arith)
            requires
                i >= 0,
                k >= 0,
                s >= 1,
        ;
        lemma_pow_adds(v, (i * k) as nat, (i * s) as nat);
        lemma_pow_multiplies(v, s as nat, i as nat);
        assert(s * i == i * s) by (nonlinear_arith);
        lemma_pow_mod_noop(pow(v, s as nat), i as nat, q);
        lemma1_pow(i as nat);
        assert(pow(pow(v, s as nat) % q, i as nat) == pow(1, i as nat));
        assert(pow(pow(v, s as nat), i as nat) == pow(v, (s as nat) * (i as nat)));
        assert((s as nat) * (i as nat) == (i * s) as nat);
        lemma_small_mod(1nat, q as nat);
        assert(pow(v, (i * s) as nat) % q == 1);
        assert(p[i] * (pow(v, (i * k) as nat) * pow(v, (i * s) as nat)) == (p[i] * pow(
            v,
            (i * k) as nat,
        )) * pow(v, (i * s) as nat)) by (nonlinear_arith);
        lemma_mul_mod_noop_right(p[i] * pow(v, (i * k) as nat), pow(v, (i * s) as nat), q);
        assert(pow(v, (i * (k + s)) as nat) == pow(v, (i * k) as nat) * pow(v, (i * s) as nat));
        assert(t1 == (p[i] * pow(v, (i * k) as nat)) * pow(v, (i * s) as nat));
        assert(t1 % q == ((p[i] * pow(v, (i * k) as nat)) * (pow(v, (i * s) as nat) % q)) % q);
        assert((p[i] * pow(v, (i * k) as nat)) * 1 == t2);
        assert(t1 % q == t2 % q);
        lemma_add_mod_noop(eval_sum(p, v, k + s, m - 1), t1, q);
        lemma_add_mod_noop(eval_sum(p, v, k, m - 1), t2, q);
    }
}

/// The butterfly step: component `k` of the transform of a length-2m
/// sequence is the sum of the even-half and `w^k` times the odd-half
/// transforms at `k`, and component `m + k` is their difference — the
/// latter because `w^m = -1 (mod q)`.
proof fn lemma_butterfly_points(
    pc: Seq<int>,
    ec: Seq<int>,
    oc: Seq<int>,
    w: int,
    q: int,
    k: int,
    m: int,
)
    requires
        2 <= q,
        1 <= m,
        0 <= k < m,
        pc.len() == 2 * m,
        ec.len() == m,
        oc.len() == m,
        forall|i: int| 0 <= i < m ==> #[trigger] ec[i] == pc[2 * i],
        forall|i: int| 0 <= i < m ==> #[trigger] oc[i] == pc[2 * i + 1],
        pow(w, (2 * m) as nat) % q == 1,
    ensures
        eval_point(pc, w, k, q) == (eval_point(ec, (w * w) % q, k, q) + pow(w, k as nat)
            * eval_point(oc, (w * w) % q, k, q)) % q,
        pow(w, m as nat) % q == q - 1 ==> eval_point(pc, w, m + k, q) == (eval_point(
            ec,
            (w * w) % q,
            k,
            q,
        ) - pow(w, k as nat) * eval_point(oc, (w * w) % q, k, q)) % q,
{
    let w2 = w * w;
    let se = eval_sum(ec, w2, k, m);
    let so = eval_sum(oc, w2, k, m);
    let a = pow(w, k as nat);
    let ev = eval_point(ec, w2 % q, k, q);
    let ov = eval_point(oc, w2 % q, k, q);
    lemma_eval_sum_point_mod(ec, w2, q, k, m);
    lemma_eval_sum_point_mod(oc, w2, q, k, m);
    assert(ev == se % q);
    assert(ov == so % q);
    lemma_eval_sum_split(pc, ec, oc, w, k, m);
    assert(eval_sum(pc, w, k, 2 * m) == se + a * so);
    lemma_add_mod_noop_right(se % q, a * (so % q), q);
    lemma_mul_mod_noop_right(a, so, q);
    lemma_add_mod_noop(se, a * so, q);
    assert((ev + a * ov) % q == (se + a * so) % q);
    if pow(w, m as nat) % q == q - 1 {
        assert(m + k >= 0);
        lemma_eval_sum_split(pc, ec, oc, w, m + k, m);
        let x = eval_sum(ec, w2, m + k, m);
        let y = eval_sum(oc, w2, m + k, m);
        let b = pow(w, (m + k) as nat);
        assert(eval_sum(pc, w, m + k, 2 * m) == x + b * y);
        assert(pow(w2, m as nat) % q == 1) by {
            assert(pow(w, 2) == w2) by {
                lemma_pow_adds(w, 1, 1);
                lemma_pow1(w);
            }
            lemma_pow_multiplies(w, 2, m as nat);
        }
        lemma_eval_sum_shift(ec, w2, q, k, m, m);
        lemma_eval_sum_shift(oc, w2, q, k, m, m);
        assert(x % q == se % q);
        assert(y % q == so % q);
        assert(b == pow(w, m as nat) * a) by {
            lemma_pow_adds(w, m as nat, k as nat);
        }
        lemma_add_mod_noop(x, b * y, q);
        assert(b * y == pow(w, m as nat) * (a * y)) by (nonlinear_arith)
            requires
                b == pow(w, m as nat) * a,
        ;
        lemma_mul_mod_noop_left(pow(w, m as nat), a * y, q);
        assert((q - 1) * (a * y) == q * (a * y) + (-(a * y))) by (nonlinear_arith);
        lemma_mod_multiples_vanish(a * y, -(a * y), q);
        assert((b * y) % q == (-(a * y)) % q);
        lemma_add_mod_noop_right(x % q, -(a * y), q);
        assert(eval_sum(pc, w, m + k, 2 * m) % q == ((x % q) - a * y) % q);
        lemma_sub_mod_noop_right(x % q, a * y, q);
        lemma_mul_mod_noop_right(a, y, q);
        lemma_sub_mod_noop_right(ev, a * (so % q), q);
        lemma_mul_mod_noop_right(a, so, q);
        assert((ev - a * ov) % q == ((x % q) - (a * y) % q) % q);
    }
}

/// Evaluate `p` at the powers of `w` by the divide-and-conquer butterfly
/// schedule, O(n log n) modular multiplications: split into even and odd
/// coefficients, transform both halves at the squared point, and combine
/// with one multiplication per output pair. Sound when `w^n = 1` and
/// `w^(n/2) = -1 (mod q)`, which the caller establishes.
#[verifier::loop_isolation(false)]
fn eval_butterfly(p: &Vec<u64>, w: u64, q: u64) -> (r: Vec<u64>)
    requires
        2 <= q,
        w < q,
        is_pow2(p@.len() as int),
        forall|j: int| 0 <= j < p@.len() ==> p@[j] < q,
        pow(w as int, p@.len() as nat) % (q as int) == 1,
        p@.len() > 1 ==> pow(w as int, (p@.len() / 2) as nat) % (q as int) == q - 1,
    ensures
        r@.len() == p@.len(),
        forall|k: int|
            0 <= k < r@.len() ==> r@[k] as int == eval_point(coeffs(p@), w as int, k, q as int),
    decreases p@.len(),
{
    let ghost qi = q as int;
    let ghost pc = coeffs(p@);
    let ghost wi = w as int;
    if p.len() == 1 {
        let mut out: Vec<u64> = Vec::new();
        out.push(p[0]);
        proof {
            lemma_pow0(wi);
            assert(eval_sum(pc, wi, 0, 1) == eval_sum(pc, wi, 0, 0) + pc[0] * pow(wi, 0));
            lemma_small_mod(p@[0] as nat, q as nat);
        }
        return out;
    }
    let n = p.len();
    let m = n / 2;
    let mut evens: Vec<u64> = Vec::new();
    let mut odds: Vec<u64> = Vec::new();
    let mut i: usize = 0;
    while i < m
        invariant
            evens@.len() == i,
            odds@.len() == i,
            i <= m,
            forall|x: int| 0 <= x < i ==> #[trigger] evens@[x] == p@[2 * x],
            forall|x: int| 0 <= x < i ==> #[trigger] odds@[x] == p@[2 * x + 1],
        decreases m - i,
    {
        evens.push(p[2 * i]);
        odds.push(p[2 * i + 1]);
        i += 1;
    }
    let w2 = mul_mod(w, w, q);
    proof {
        assert(is_pow2(n as int));
        assert((n as int) % 2 == 0 && is_pow2((n as int) / 2));
        assert(m as int == (n as int) / 2);
        assert(pow(wi, 2) == wi * wi) by {
            lemma_pow_adds(wi, 1, 1);
            lemma_pow1(wi);
        }
        lemma_pow_mod_noop(wi * wi, m as nat, qi);
        lemma_pow_multiplies(wi, 2, m as nat);
        assert(2 * (m as int) == n as int);
        assert(pow(w2 as int, m as nat) % qi == 1);
        if m > 1 {
            assert(is_pow2(m as int));
            assert((m as int) % 2 == 0 && is_pow2((m as int) / 2));
            lemma_pow_mod_noop(wi * wi, (m / 2) as nat, qi);
            lemma_pow_multiplies(wi, 2, (m / 2) as nat);
            assert(2 * ((m as int) / 2) == m as int);
            assert(pow(w2 as int, (m / 2) as nat) % qi == q - 1);
        }
    }
    proof {
        assert forall|x: int| 0 <= x < m implies evens@[x] < q && #[trigger] odds@[x] < q by {
            assert(evens@[x] == p@[2 * x]);
            assert(odds@[x] == p@[2 * x + 1]);
        }
    }
    let fe = eval_butterfly(&evens, w2, q);
    let fo = eval_butterfly(&odds, w2, q);
    let mut out: Vec<u64> = Vec::new();
    while out.len() < n
        invariant
            out@.len() <= n,
        decreases n - out@.len(),
    {
        out.push(0);
    }
    let mut wk: u64 = 1 % q;
    proof {
        lemma_pow0(wi);
    }
    let mut k: usize = 0;
    while k < m
        invariant
            out@.len() == n,
            k <= m,
            wk < q,
            wk as int == pow(wi, k as nat) % qi,
            forall|x: int| 0 <= x < k ==> out@[x] as int == eval_point(pc, wi, x, qi),
            forall|x: int|
                0 <= x < k ==> #[trigger] out@[m + x] as int == eval_point(pc, wi, m + x, qi),
        decreases m - k,
    {
        let t: u64 = mul_mod(wk, fo[k], q);
        let u1: u64 = add_mod(fe[k], t, q);
        let u2: u64 = sub_mod(fe[k], t, q);
        out[k] = u1;
        out[k + m] = u2;
        proof {
            let ec = coeffs(evens@);
            let oc = coeffs(odds@);
            let ki = k as int;
            let mi = m as int;
            assert forall|ii: int| 0 <= ii < mi implies #[trigger] ec[ii] == pc[2 * ii] by {
                assert(evens@[ii] == p@[2 * ii]);
            }
            assert forall|ii: int| 0 <= ii < mi implies #[trigger] oc[ii] == pc[2 * ii + 1] by {
                assert(odds@[ii] == p@[2 * ii + 1]);
            }
            lemma_butterfly_points(pc, ec, oc, wi, qi, ki, mi);
            let ev = eval_point(ec, (wi * wi) % qi, ki, qi);
            let ov = eval_point(oc, (wi * wi) % qi, ki, qi);
            assert(fe@[ki] as int == ev);
            assert(fo@[ki] as int == ov);
            let a = pow(wi, k as nat);
            lemma_mul_mod_noop_left(a, ov, qi);
            assert(t as int == (a * ov) % qi);
            lemma_add_mod_noop_right(ev, a * ov, qi);
            assert(u1 as int == (ev + a * ov) % qi);
            lemma_sub_mod_noop_right(ev, a * ov, qi);
            assert(u2 as int == (ev - a * ov) % qi);
        }
        wk = mul_mod(wk, w, q);
        proof {
            lemma_mul_mod_noop_left(pow(wi, k as nat), wi, qi);
            lemma_pow_adds(wi, k as nat, 1);
            lemma_pow1(wi);
        }
        k += 1;
    }
    proof {
        assert forall|x: int| 0 <= x < n implies out@[x] as int == eval_point(pc, wi, x, qi) by {
            if x >= m {
                assert(out@[m + (x - m)] as int == eval_point(pc, wi, m + (x - m), qi));
            }
        }
    }
    out
}

/// Validate a transform request: the length must be a power of two, the
/// modulus must exceed it, and every coefficient must be reduced.
#[verifier::loop_isolation(false)]
fn validate(p: &Vec<u64>, q: u64, n: usize) -> (r: Option<ConvolveError>)
    requires
        p@.len() == n,
    ensures
        r matches Some(e) ==> (e == ConvolveError::InvalidTransformLength <==> !is_pow2(n as int))
            && (e == ConvolveError::ModulusTooSmall <==> is_pow2(n as int) && q <= n as u64) && (e
            == ConvolveError::CoefficientOutOfRange <==> is_pow2(n as int) && q > n as u64
            && exists|j: int| 0 <= j < p@.len() && p@[j] >= q),
        r is None <==> is_pow2(n as int) && q > n as u64 && forall|j: int|
            0 <= j < p@.len() ==> p@[j] < q,
{
    if !is_power_of_two(n) {
        return Some(ConvolveError::InvalidTransformLength);
    }
    if q <= n as u64 {
        return Some(ConvolveError::ModulusTooSmall);
    }
    let mut j: usize = 0;
    while j < p.len()
        invariant
            j <= p@.len(),
            forall|x: int| 0 <= x < j ==> p@[x] < q,
        decreases p@.len() - j,
    {
        if p[j] >= q {
            return Some(ConvolveError::CoefficientOutOfRange);
        }
        j += 1;
    }
    None
}

/// Forward number-theoretic transform: evaluates the length-n polynomial at
/// the n-th roots of unity, the powers of omega = psi^2 mod q.
pub fn ntt_forward(poly: &Vec<u64>, q: u64, psi: u64, n: usize) -> (r: Result<
    Vec<u64>,
    ConvolveError,
>)
    requires
        poly@.len() == n,
        psi < q,
    ensures
        r == Err::<Vec<u64>, ConvolveError>(ConvolveError::InvalidTransformLength) <==> !is_pow2(
            n as int,
        ),
        r == Err::<Vec<u64>, ConvolveError>(ConvolveError::ModulusTooSmall) <==> is_pow2(n as int)
            && q <= n as u64,
        r == Err::<Vec<u64>, ConvolveError>(ConvolveError::CoefficientOutOfRange) <==> is_pow2(
            n as int,
        ) && q > n as u64 && exists|j: int| 0 <= j < poly@.len() && poly@[j] >= q,
        r is Ok <==> is_pow2(n as int) && q > n as u64 && forall|j: int|
            0 <= j < poly@.len() ==> poly@[j] < q,
        r matches Ok(t) ==> t@.len() == n && forall|k: int|
            0 <= k < n ==> t@[k] as int == eval_point(
                coeffs(poly@),
                omega(psi as int, q as int),
                k,
                q as int,
            ),
{
    match validate(poly, q, n) {
        Some(e) => Err(e),
        None => {
            let w: u64 = mul_mod(psi, psi, q);
            if n > 1 && pow_mod(w, n as u64, q) == 1 && pow_mod(w, (n / 2) as u64, q) == q - 1 {
                Ok(eval_butterfly(poly, w, q))
            } else {
                Ok(eval_powers(poly, w, q))
            }
        },
    }
}

/// Inverse number-theoretic transform: evaluates at the powers of the
/// inverse of omega = psi^2 mod q and scales every component by the inverse
/// of n, both inverses computed as Fermat powers with exponent q - 2.
#[verifier::loop_isolation(false)]
pub fn ntt_inverse(transformed: &Vec<u64>, q: u64, psi: u64, n: usize) -> (r: Result<
    Vec<u64>,
    ConvolveError,
>)
    requires
        transformed@.len() == n,
        psi < q,
    ensures
        r == Err::<Vec<u64>, ConvolveError>(ConvolveError::InvalidTransformLength) <==> !is_pow2(
            n as int,
        ),
        r == Err::<Vec<u64>, ConvolveError>(ConvolveError::ModulusTooSmall) <==> is_pow2(n as int)
            && q <= n as u64,
        r == Err::<Vec<u64>, ConvolveError>(ConvolveError::CoefficientOutOfRange) <==> is_pow2(
            n as int,
        ) && q > n as u64 && exists|j: int| 0 <= j < transformed@.len() && transformed@[j] >= q,
        r is Ok <==> is_pow2(n as int) && q > n as u64 && forall|j: int|
            0 <= j < transformed@.len() ==> transformed@[j] < q,
        r matches Ok(p) ==> p@.len() == n && forall|k: int|
            0 <= k < n ==> p@[k] as int == inverse_point(
                coeffs(transformed@),
                psi as int,
                q as int,
                k,
            ),
{
    match validate(transformed, q, n) {
        Some(e) => Err(e),
        None => {
            let w: u64 = mul_mod(psi, psi, q);
            let w_inv: u64 = pow_mod(w, q - 2, q);
            let n_inv: u64 = pow_mod(n as u64, q - 2, q);
            let evals: Vec<u64> = if n > 1 && pow_mod(w_inv, n as u64, q) == 1 && pow_mod(
                w_inv,
                (n / 2) as u64,
                q,
            ) == q - 1 {
                eval_butterfly(transformed, w_inv, q)
            } else {
                eval_powers(transformed, w_inv, q)
            };
            let ghost tc = coeffs(transformed@);
            let mut out: Vec<u64> = Vec::new();
            let mut k: usize = 0;
            proof {
                assert(w_inv as int == inv_mod_spec(omega(psi as int, q as int), q as int));
                assert(n_inv as int == inv_mod_spec(n as int, q as int));
            }
            while k < n
                invariant
                    out@.len() == k,
                    k <= n,
                    forall|x: int|
                        0 <= x < k ==> out@[x] as int == inverse_point(tc, psi as int, q as int, x),
                decreases n - k,
            {
                out.push(mul_mod(n_inv, evals[k], q));
                k += 1;
            }
            Ok(out)
        },
    }
}

} // verus!
