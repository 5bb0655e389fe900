//! Reference convolution engines by direct double summation: linear
//! convolution in the plain polynomial ring, cyclic convolution modulo
//! x^n - 1, and negacyclic convolution modulo x^n + 1, with n the larger
//! operand length. They serve as the semantic oracle for the
//! transform-based pipeline.

use vstd::prelude::*;
use vstd::arithmetic::mul::lemma_mul_nonnegative;
use vstd::math::abs;

use crate::ConvolveError;
use crate::sums::{
    grid_sum, lemma_grid_cell_le_total, lemma_grid_partial_abs_bound, lemma_grid_partial_le_total,
    lemma_grid_sum_exchange, lemma_row_sum_single, row_sum,
};

verus! {

/// The ring dimension of the wrapped convolutions: the larger operand length.
pub open spec fn wrap_len<T>(g: Seq<T>, h: Seq<T>) -> int {
    if g.len() >= h.len() {
        g.len() as int
    } else {
        h.len() as int
    }
}

/// Term of the linear convolution at output degree `k` contributed by the
/// coefficient pair `(i, j)`: the product when the degrees add up to `k`.
pub open spec fn linear_term(g: Seq<u32>, h: Seq<u32>, k: int) -> spec_fn(int, int) -> int {
    |i: int, j: int| if i + j == k { g[i] * h[j] } else { 0 }
}

/// Coefficient `k` of the product of `g` and `h` in the plain polynomial
/// ring: the sum of `g[i] * h[j]` over all pairs with `i + j == k`.
pub open spec fn linear_conv_at(g: Seq<u32>, h: Seq<u32>, k: int) -> int {
    grid_sum(linear_term(g, h, k), g.len() as int, h.len() as int)
}

/// Term of the cyclic convolution at output degree `k` contributed by the
/// pair `(i, j)`: degrees wrap around modulo the ring dimension.
pub open spec fn cyclic_term(g: Seq<u32>, h: Seq<u32>, k: int) -> spec_fn(int, int) -> int {
    |i: int, j: int| if (i + j) % wrap_len(g, h) == k { g[i] * h[j] } else { 0 }
}

/// Coefficient `k` of the product of `g` and `h` modulo x^n - 1, with
/// n the larger operand length.
pub open spec fn cyclic_conv_at(g: Seq<u32>, h: Seq<u32>, k: int) -> int {
    grid_sum(cyclic_term(g, h, k), g.len() as int, h.len() as int)
}

/// Term of the negacyclic convolution at output degree `k`: degrees wrap
/// modulo the ring dimension and every full wrap flips the sign, because
/// x^n is identified with -1.
pub open spec fn negacyclic_term(g: Seq<i32>, h: Seq<i32>, k: int) -> spec_fn(int, int) -> int {
    |i: int, j: int|
        if (i + j) % wrap_len(g, h) == k {
            if ((i + j) / wrap_len(g, h)) % 2 == 1 {
                -(g[i] * h[j])
            } else {
                g[i] * h[j]
            }
        } else {
            0
        }
}

/// Coefficient `k` of the product of `g` and `h` modulo x^n + 1, with
/// n the larger operand length.
pub open spec fn negacyclic_conv_at(g: Seq<i32>, h: Seq<i32>, k: int) -> int {
    grid_sum(negacyclic_term(g, h, k), g.len() as int, h.len() as int)
}

/// Magnitude of the negacyclic term at output degree `k` for the pair
/// `(i, j)`; its grid sum bounds every partially accumulated coefficient.
pub open spec fn negacyclic_abs_term(g: Seq<i32>, h: Seq<i32>, k: int) -> spec_fn(
    int,
    int,
) -> int {
    |i: int, j: int| if (i + j) % wrap_len(g, h) == k { abs(g[i] * h[j]) as int } else { 0 }
}

/// Sum of the magnitudes of all terms that land on output degree `k` of the
/// negacyclic convolution.
pub open spec fn negacyclic_abs_at(g: Seq<i32>, h: Seq<i32>, k: int) -> int {
    grid_sum(negacyclic_abs_term(g, h, k), g.len() as int, h.len() as int)
}

/// Linear convolution of two coefficient sequences: coefficient `k` of the
/// result is the sum of `g[i] * h[j]` over all pairs with `i + j == k`.
/// The accumulation is exact, so every output coefficient must fit the
/// coefficient type.
#[verifier::loop_isolation(false)]
pub fn linear_convolve(g: &Vec<u32>, h: &Vec<u32>) -> (r: Result<Vec<u32>, ConvolveError>)
    requires
        g@.len() + h@.len() <= usize::MAX,
        forall|k: int|
            0 <= k < g@.len() + h@.len() - 1 ==> linear_conv_at(g@, h@, k) <= u32::MAX,
    ensures
        r is Err <==> (g@.len() == 0 || h@.len() == 0),
        r is Err ==> r == Err::<Vec<u32>, ConvolveError>(ConvolveError::EmptyInput),
        r matches Ok(v) ==> v@.len() == g@.len() + h@.len() - 1 && forall|k: int|
            0 <= k < v@.len() ==> v@[k] as int == linear_conv_at(g@, h@, k),
{
    if g.len() == 0 || h.len() == 0 {
        return Err(ConvolveError::EmptyInput);
    }
    let out_len: usize = g.len() + h.len() - 1;
    let mut res: Vec<u32> = Vec::new();
    while res.len() < out_len
        invariant
            res@.len() <= out_len,
            forall|k: int| 0 <= k < res@.len() ==> res@[k] == 0,
        decreases out_len - res@.len(),
    {
        res.push(0);
    }
    let mut i: usize = 0;
    while i < g.len()
        invariant
            i <= g@.len(),
            res@.len() == out_len,
            forall|k: int| #![trigger res@[k]]
                0 <= k < out_len ==> res@[k] as int == grid_sum(
                    linear_term(g@, h@, k),
                    i as int,
                    h@.len() as int,
                ),
        decreases g@.len() - i,
    {
        let mut j: usize = 0;
        while j < h.len()
            invariant
                j <= h@.len(),
                res@.len() == out_len,
                forall|k: int| #![trigger res@[k]]
                    0 <= k < out_len ==> res@[k] as int == grid_sum(
                        linear_term(g@, h@, k),
                        i as int,
                        h@.len() as int,
                    ) + row_sum(linear_term(g@, h@, k), i as int, j as int),
            decreases h@.len() - j,
        {
            let deg: usize = i + j;
            let gi: u32 = g[i];
            let hj: u32 = h[j];
            proof {
                let f = linear_term(g@, h@, deg as int);
                assert forall|x: int, y: int|
                    0 <= x < g@.len() && 0 <= y < h@.len() implies #[trigger] f(x, y) >= 0 by {
                    lemma_mul_nonnegative(g@[x] as int, h@[y] as int);
                }
                lemma_grid_partial_le_total(
                    f,
                    g@.len() as int,
                    h@.len() as int,
                    i as int,
                    j as int + 1,
                );
                assert(linear_conv_at(g@, h@, deg as int) <= u32::MAX);
                assert(grid_sum(f, g@.len() as int, h@.len() as int) == linear_conv_at(
                    g@,
                    h@,
                    deg as int,
                ));
                assert(row_sum(f, i as int, j as int + 1) == row_sum(f, i as int, j as int) + f(
                    i as int,
                    j as int,
                ));
                assert(f(i as int, j as int) == gi * hj);
            }
            let cur: u32 = res[deg];
            res[deg] = cur + gi * hj;
            proof {
                assert forall|k: int| 0 <= k < out_len implies res@[k] as int == grid_sum(
                    linear_term(g@, h@, k),
                    i as int,
                    h@.len() as int,
                ) + row_sum(linear_term(g@, h@, k), i as int, j as int + 1) by {
                    let f = linear_term(g@, h@, k);
                    assert(row_sum(f, i as int, j as int + 1) == row_sum(f, i as int, j as int)
                        + f(i as int, j as int));
                    if k != deg as int {
                        assert(f(i as int, j as int) == 0);
                    }
                }
            }
            j += 1;
        }
        proof {
            assert forall|k: int| 0 <= k < out_len implies grid_sum(
                linear_term(g@, h@, k),
                i as int + 1,
                h@.len() as int,
            ) == grid_sum(linear_term(g@, h@, k), i as int, h@.len() as int) + row_sum(
                linear_term(g@, h@, k),
                i as int,
                h@.len() as int,
            ) by {}
        }
        i += 1;
    }
    Ok(res)
}

/// Cyclic convolution of two coefficient sequences: every product
/// `g[i] * h[j]` is accumulated onto output degree `(i + j) mod n`, with
/// `n` the larger operand length; a shorter operand acts as if zero-padded.
#[verifier::loop_isolation(false)]
pub fn positive_wrapped_convolve(g: &Vec<u32>, h: &Vec<u32>) -> (r: Result<
    Vec<u32>,
    ConvolveError,
>)
    requires
        g@.len() + h@.len() <= usize::MAX,
        forall|k: int| 0 <= k < wrap_len(g@, h@) ==> cyclic_conv_at(g@, h@, k) <= u32::MAX,
    ensures
        r is Err <==> (g@.len() == 0 || h@.len() == 0),
        r is Err ==> r == Err::<Vec<u32>, ConvolveError>(ConvolveError::EmptyInput),
        r matches Ok(v) ==> v@.len() == wrap_len(g@, h@) && forall|k: int|
            0 <= k < v@.len() ==> v@[k] as int == cyclic_conv_at(g@, h@, k),
{
    if g.len() == 0 || h.len() == 0 {
        return Err(ConvolveError::EmptyInput);
    }
    let max_deg: usize = if g.len() >= h.len() {
        g.len()
    } else {
        h.len()
    };
    let mut res: Vec<u32> = Vec::new();
    while res.len() < max_deg
        invariant
            res@.len() <= max_deg,
            forall|k: int| 0 <= k < res@.len() ==> res@[k] == 0,
        decreases max_deg - res@.len(),
    {
        res.push(0);
    }
    let mut i: usize = 0;
    while i < g.len()
        invariant
            i <= g@.len(),
            res@.len() == max_deg,
            forall|k: int| #![trigger res@[k]]
                0 <= k < max_deg ==> res@[k] as int == grid_sum(
                    cyclic_term(g@, h@, k),
                    i as int,
                    h@.len() as int,
                ),
        decreases g@.len() - i,
    {
        let mut j: usize = 0;
        while j < h.len()
            invariant
                j <= h@.len(),
                res@.len() == max_deg,
                forall|k: int| #![trigger res@[k]]
                    0 <= k < max_deg ==> res@[k] as int == grid_sum(
                        cyclic_term(g@, h@, k),
                        i as int,
                        h@.len() as int,
                    ) + row_sum(cyclic_term(g@, h@, k), i as int, j as int),
            decreases h@.len() - j,
        {
            let deg: usize = (i + j) % max_deg;
            let gi: u32 = g[i];
            let hj: u32 = h[j];
            proof {
                let f = cyclic_term(g@, h@, deg as int);
                assert forall|x: int, y: int|
                    0 <= x < g@.len() && 0 <= y < h@.len() implies #[trigger] f(x, y) >= 0 by {
                    lemma_mul_nonnegative(g@[x] as int, h@[y] as int);
                }
                lemma_grid_partial_le_total(
                    f,
                    g@.len() as int,
                    h@.len() as int,
                    i as int,
                    j as int + 1,
                );
                assert(cyclic_conv_at(g@, h@, deg as int) <= u32::MAX);
                assert(grid_sum(f, g@.len() as int, h@.len() as int) == cyclic_conv_at(
                    g@,
                    h@,
                    deg as int,
                ));
                assert(row_sum(f, i as int, j as int + 1) == row_sum(f, i as int, j as int) + f(
                    i as int,
                    j as int,
                ));
                assert(f(i as int, j as int) == gi * hj);
            }
            let cur: u32 = res[deg];
            res[deg] = cur + gi * hj;
            proof {
                assert forall|k: int| 0 <= k < max_deg implies res@[k] as int == grid_sum(
                    cyclic_term(g@, h@, k),
                    i as int,
                    h@.len() as int,
                ) + row_sum(cyclic_term(g@, h@, k), i as int, j as int + 1) by {
                    let f = cyclic_term(g@, h@, k);
                    assert(row_sum(f, i as int, j as int + 1) == row_sum(f, i as int, j as int)
                        + f(i as int, j as int));
                    if k != deg as int {
                        assert(f(i as int, j as int) == 0);
                    }
                }
            }
            j += 1;
        }
        proof {
            assert forall|k: int| 0 <= k < max_deg implies grid_sum(
                cyclic_term(g@, h@, k),
                i as int + 1,
                h@.len() as int,
            ) == grid_sum(cyclic_term(g@, h@, k), i as int, h@.len() as int) + row_sum(
                cyclic_term(g@, h@, k),
                i as int,
                h@.len() as int,
            ) by {}
        }
        i += 1;
    }
    Ok(res)
}

/// Negacyclic convolution of two signed coefficient sequences: every product
/// `g[i] * h[j]` is accumulated onto output degree `(i + j) mod n` with sign
/// `(-1)^((i + j) div n)`, with `n` the larger operand length. Products and
/// the accumulation are exact, so the sum of term magnitudes on each output
/// degree must fit the coefficient type.
#[verifier::loop_isolation(false)]
pub fn negative_wrapped_convolve(g: &Vec<i32>, h: &Vec<i32>) -> (r: Result<
    Vec<i32>,
    ConvolveError,
>)
    requires
        g@.len() + h@.len() <= usize::MAX,
        forall|k: int| 0 <= k < wrap_len(g@, h@) ==> negacyclic_abs_at(g@, h@, k) <= i32::MAX,
    ensures
        r is Err <==> (g@.len() == 0 || h@.len() == 0),
        r is Err ==> r == Err::<Vec<i32>, ConvolveError>(ConvolveError::EmptyInput),
        r matches Ok(v) ==> v@.len() == wrap_len(g@, h@) && forall|k: int|
            0 <= k < v@.len() ==> v@[k] as int == negacyclic_conv_at(g@, h@, k),
{
    if g.len() == 0 || h.len() == 0 {
        return Err(ConvolveError::EmptyInput);
    }
    let max_deg: usize = if g.len() >= h.len() {
        g.len()
    } else {
        h.len()
    };
    let mut res: Vec<i32> = Vec::new();
    while res.len() < max_deg
        invariant
            res@.len() <= max_deg,
            forall|k: int| 0 <= k < res@.len() ==> res@[k] == 0,
        decreases max_deg - res@.len(),
    {
        res.push(0);
    }
    let mut i: usize = 0;
    while i < g.len()
        invariant
            i <= g@.len(),
            res@.len() == max_deg,
            forall|k: int| #![trigger res@[k]]
                0 <= k < max_deg ==> res@[k] as int == grid_sum(
                    negacyclic_term(g@, h@, k),
                    i as int,
                    h@.len() as int,
                ),
        decreases g@.len() - i,
    {
        let mut j: usize = 0;
        while j < h.len()
            invariant
                j <= h@.len(),
                res@.len() == max_deg,
                forall|k: int| #![trigger res@[k]]
                    0 <= k < max_deg ==> res@[k] as int == grid_sum(
                        negacyclic_term(g@, h@, k),
                        i as int,
                        h@.len() as int,
                    ) + row_sum(negacyclic_term(g@, h@, k), i as int, j as int),
            decreases h@.len() - j,
        {
            let deg: usize = (i + j) % max_deg;
            let gi: i32 = g[i];
            let hj: i32 = h[j];
            proof {
                let f = negacyclic_term(g@, h@, deg as int);
                let a = negacyclic_abs_term(g@, h@, deg as int);
                assert forall|x: int, y: int|
                    0 <= x < g@.len() && 0 <= y < h@.len() implies -a(x, y) <= #[trigger] f(x, y)
                    <= a(x, y) && a(x, y) >= 0 by {}
                lemma_grid_cell_le_total(
                    a,
                    g@.len() as int,
                    h@.len() as int,
                    i as int,
                    j as int,
                );
                lemma_grid_partial_abs_bound(
                    f,
                    a,
                    g@.len() as int,
                    h@.len() as int,
                    i as int,
                    j as int + 1,
                );
                assert(negacyclic_abs_at(g@, h@, deg as int) <= i32::MAX);
                assert(a(i as int, j as int) == abs(gi * hj));
                assert(row_sum(f, i as int, j as int + 1) == row_sum(f, i as int, j as int) + f(
                    i as int,
                    j as int,
                ));
            }
            let p: i32 = gi * hj;
            let wraps: usize = (i + j) / max_deg;
            let term: i32 = if wraps % 2 == 1 {
                -p
            } else {
                p
            };
            proof {
                let f = negacyclic_term(g@, h@, deg as int);
                assert(f(i as int, j as int) == term as int);
            }
            let cur: i32 = res[deg];
            res[deg] = cur + term;
            proof {
                assert forall|k: int| 0 <= k < max_deg implies res@[k] as int == grid_sum(
                    negacyclic_term(g@, h@, k),
                    i as int,
                    h@.len() as int,
                ) + row_sum(negacyclic_term(g@, h@, k), i as int, j as int + 1) by {
                    let f = negacyclic_term(g@, h@, k);
                    assert(row_sum(f, i as int, j as int + 1) == row_sum(f, i as int, j as int)
                        + f(i as int, j as int));
                    if k != deg as int {
                        assert(f(i as int, j as int) == 0);
                    }
                }
            }
            j += 1;
        }
        proof {
            assert forall|k: int| 0 <= k < max_deg implies grid_sum(
                negacyclic_term(g@, h@, k),
                i as int + 1,
                h@.len() as int,
            ) == grid_sum(negacyclic_term(g@, h@, k), i as int, h@.len() as int) + row_sum(
                negacyclic_term(g@, h@, k),
                i as int,
                h@.len() as int,
            ) by {}
        }
        i += 1;
    }
    Ok(res)
}

/// Linear convolution does not depend on the order of its operands: the
/// coefficients of g * h and of h * g agree everywhere.
pub proof fn lemma_linear_convolve_commutes(g: Seq<u32>, h: Seq<u32>, k: int)
    ensures
        linear_conv_at(g, h, k) == linear_conv_at(h, g, k),
{
    let f = linear_term(g, h, k);
    let f2 = linear_term(h, g, k);
    assert forall|i: int, j: int|
        0 <= i < g.len() && 0 <= j < h.len() implies #[trigger] f(i, j) == f2(j, i) by {}
    lemma_grid_sum_exchange(f, f2, g.len() as int, h.len() as int);
}

/// Cyclic convolution does not depend on the order of its operands.
pub proof fn lemma_cyclic_convolve_commutes(g: Seq<u32>, h: Seq<u32>, k: int)
    ensures
        cyclic_conv_at(g, h, k) == cyclic_conv_at(h, g, k),
{
    let f = cyclic_term(g, h, k);
    let f2 = cyclic_term(h, g, k);
    assert forall|i: int, j: int|
        0 <= i < g.len() && 0 <= j < h.len() implies #[trigger] f(i, j) == f2(j, i) by {}
    lemma_grid_sum_exchange(f, f2, g.len() as int, h.len() as int);
}

/// Negacyclic convolution does not depend on the order of its operands.
pub proof fn lemma_negacyclic_convolve_commutes(g: Seq<i32>, h: Seq<i32>, k: int)
    ensures
        negacyclic_conv_at(g, h, k) == negacyclic_conv_at(h, g, k),
{
    let f = negacyclic_term(g, h, k);
    let f2 = negacyclic_term(h, g, k);
    assert forall|i: int, j: int|
        0 <= i < g.len() && 0 <= j < h.len() implies #[trigger] f(i, j) == f2(j, i) by {}
    lemma_grid_sum_exchange(f, f2, g.len() as int, h.len() as int);
}

/// Linear convolution with a single-coefficient polynomial scales the other
/// operand: coefficient `k` of [c] * h is `c * h[k]`; with c == 1 the
/// single-coefficient polynomial is the identity.
pub proof fn lemma_linear_convolve_singleton(g: Seq<u32>, h: Seq<u32>, k: int)
    requires
        g.len() == 1,
        0 <= k < h.len(),
    ensures
        linear_conv_at(g, h, k) == g[0] * h[k],
{
    let f = linear_term(g, h, k);
    lemma_row_sum_single(f, 0, h.len() as int, k);
    assert(grid_sum(f, 1, h.len() as int) == grid_sum(f, 0, h.len() as int) + row_sum(
        f,
        0,
        h.len() as int,
    ));
}

/// Cyclic convolution with a single-coefficient polynomial scales the other
/// operand.
pub proof fn lemma_cyclic_convolve_singleton(g: Seq<u32>, h: Seq<u32>, k: int)
    requires
        g.len() == 1,
        0 <= k < h.len(),
    ensures
        cyclic_conv_at(g, h, k) == g[0] * h[k],
{
    let f = cyclic_term(g, h, k);
    let n = wrap_len(g, h);
    assert forall|j: int| 0 <= j < h.len() && j != k implies #[trigger] f(0, j) == 0 by {
        lemma_small_mod_fact(j, n);
    }
    assert(f(0, k) == g[0] * h[k]) by {
        lemma_small_mod_fact(k, n);
    }
    lemma_row_sum_single(f, 0, h.len() as int, k);
    assert(grid_sum(f, 1, h.len() as int) == grid_sum(f, 0, h.len() as int) + row_sum(
        f,
        0,
        h.len() as int,
    ));
}

/// Negacyclic convolution with a single-coefficient polynomial scales the
/// other operand; no wrap occurs, so no sign flips.
pub proof fn lemma_negacyclic_convolve_singleton(g: Seq<i32>, h: Seq<i32>, k: int)
    requires
        g.len() == 1,
        0 <= k < h.len(),
    ensures
        negacyclic_conv_at(g, h, k) == g[0] * h[k],
{
    let f = negacyclic_term(g, h, k);
    let n = wrap_len(g, h);
    assert forall|j: int| 0 <= j < h.len() && j != k implies #[trigger] f(0, j) == 0 by {
        lemma_small_mod_fact(j, n);
    }
    assert(f(0, k) == g[0] * h[k]) by {
        lemma_small_mod_fact(k, n);
        lemma_small_div_fact(k, n);
    }
    lemma_row_sum_single(f, 0, h.len() as int, k);
    assert(grid_sum(f, 1, h.len() as int) == grid_sum(f, 0, h.len() as int) + row_sum(
        f,
        0,
        h.len() as int,
    ));
}

/// A value below the modulus is its own remainder.
proof fn lemma_small_mod_fact(x: int, m: int)
    requires
        0 <= x < m,
    ensures
        x % m == x,
{
    vstd::arithmetic::div_mod::lemma_small_mod(x as nat, m as nat);
}

/// A value below the divisor has quotient zero.
proof fn lemma_small_div_fact(x: int, m: int)
    requires
        0 <= x < m,
    ensures
        x / m == 0,
{
    vstd::arithmetic::div_mod::lemma_basic_div(x, m);
}

} // verus!
