//! Sums of integers and two's complement wrapping, as the kernels use them.
use vstd::arithmetic::div_mod::{lemma_fundamental_div_mod_converse, lemma_mod_multiples_vanish};
use vstd::prelude::*;

verus! {

/// The value of `x` reduced to a signed 32-bit lane.
pub open spec fn wrap_i32(x: int) -> int {
    (x + 0x8000_0000) % 0x1_0000_0000 - 0x8000_0000
}

/// `f(0) + f(1) + .. + f(n - 1)`.
pub open spec fn sum(n: int, f: spec_fn(int) -> int) -> int
    decreases n,
{
    if n <= 0 {
        0
    } else {
        sum(n - 1, f) + f(n - 1)
    }
}

/// A value that fits a signed 32-bit lane is not changed by wrapping.
pub proof fn lemma_wrap_small(x: int)
    requires
        -0x8000_0000 <= x < 0x8000_0000,
    ensures
        wrap_i32(x) == x,
{
}

/// Wrapping an addend before or after the addition makes no difference.
pub proof fn lemma_wrap_plus(x: int, y: int)
    ensures
        wrap_i32(wrap_i32(x) + y) == wrap_i32(x + y),
        wrap_i32(x + wrap_i32(y)) == wrap_i32(x + y),
{
}

/// Wrapping before or after a subtraction makes no difference.
pub proof fn lemma_wrap_minus(x: int, y: int)
    ensures
        wrap_i32(wrap_i32(x) - wrap_i32(y)) == wrap_i32(x - y),
{
}

/// Two accumulators that share a sum go on sharing it, whichever takes a term.
pub proof fn lemma_wrap_shared(lo: int, hi: int, s: int, t: int)
    requires
        wrap_i32(lo + hi) == wrap_i32(s),
    ensures
        wrap_i32(wrap_i32(lo + t) + hi) == wrap_i32(s + t),
        wrap_i32(lo + wrap_i32(hi + t)) == wrap_i32(s + t),
{
    lemma_wrap_plus(lo + t, hi);
    lemma_wrap_plus(lo, hi + t);
    lemma_wrap_plus(lo + hi, t);
    lemma_wrap_plus(s, t);
}

/// A multiple of 2^32 does not change the wrapped value.
pub proof fn lemma_wrap_multiple(x: int, k: int)
    ensures
        wrap_i32(x + 0x1_0000_0000 * k) == wrap_i32(x),
{
    lemma_mod_multiples_vanish(k, x + 0x8000_0000, 0x1_0000_0000);
}

/// One step of a wrapping accumulation.
pub fn acc_i32(acc: i32, term: i32) -> (r: i32)
    ensures
        r == wrap_i32(acc + term),
{
    acc.wrapping_add(term)
}

/// Sums of functions that agree on the summed range are equal.
pub proof fn lemma_sum_same(n: int, f: spec_fn(int) -> int, g: spec_fn(int) -> int)
    requires
        forall|i: int| 0 <= i < n ==> #[trigger] f(i) == g(i),
    ensures
        sum(n, f) == sum(n, g),
    decreases n,
{
    if n > 0 {
        lemma_sum_same(n - 1, f, g);
        assert(f(n - 1) == g(n - 1));
    }
}

/// The sum of a linear combination is the combination of the sums.
pub proof fn lemma_sum_linear(
    n: int,
    a: int,
    f: spec_fn(int) -> int,
    b: int,
    g: spec_fn(int) -> int,
    h: spec_fn(int) -> int,
)
    requires
        forall|i: int| 0 <= i < n ==> #[trigger] h(i) == a * f(i) + b * g(i),
    ensures
        sum(n, h) == a * sum(n, f) + b * sum(n, g),
    decreases n,
{
    if n > 0 {
        lemma_sum_linear(n - 1, a, f, b, g, h);
        assert(h(n - 1) == a * f(n - 1) + b * g(n - 1));
        let (sf, sg, x, y) = (sum(n - 1, f), sum(n - 1, g), f(n - 1), g(n - 1));
        assert(a * sf + b * sg + (a * x + b * y) == a * (sf + x) + b * (sg + y))
            by (nonlinear_arith);
    } else {
        assert(a * 0 + b * 0 == 0) by (nonlinear_arith);
    }
}

/// A sum over `m + n` terms splits into the first `m` and the last `n`.
pub proof fn lemma_sum_split(
    m: int,
    n: int,
    f: spec_fn(int) -> int,
    tail: spec_fn(int) -> int,
)
    requires
        0 <= m,
        0 <= n,
        forall|i: int| 0 <= i < n ==> #[trigger] tail(i) == f(m + i),
    ensures
        sum(m + n, f) == sum(m, f) + sum(n, tail),
    decreases n,
{
    if n > 0 {
        lemma_sum_split(m, n - 1, f, tail);
        assert(tail(n - 1) == f(m + (n - 1)));
    }
}

/// A sum over `n` groups of `k` terms is the sum of the groups' sums.
pub proof fn lemma_sum_groups(
    n: int,
    k: int,
    f: spec_fn(int) -> int,
    group: spec_fn(int) -> int,
    term: spec_fn(int) -> (spec_fn(int) -> int),
)
    requires
        0 <= n,
        0 <= k,
        forall|g: int| 0 <= g < n ==> #[trigger] group(g) == sum(k, term(g)),
        forall|g: int, i: int|
            0 <= g < n && 0 <= i < k ==> #[trigger] term(g)(i) == f(g * k + i),
    ensures
        sum(n * k, f) == sum(n, group),
    decreases n,
{
    if n > 0 {
        lemma_sum_groups(n - 1, k, f, group, term);
        assert(n * k == (n - 1) * k + k) by (nonlinear_arith);
        assert((n - 1) * k >= 0) by (nonlinear_arith)
            requires
                n >= 1,
                k >= 0,
        ;
        assert(group(n - 1) == sum(k, term(n - 1)));
        assert forall|i: int| 0 <= i < k implies #[trigger] term(n - 1)(i) == f((n - 1) * k + i) by {}
        lemma_sum_split((n - 1) * k, k, f, term(n - 1));
    } else {
        assert(n * k == 0) by (nonlinear_arith)
            requires
                n == 0,
        ;
    }
}

/// Terms within `lo ..= hi` sum to something within `n * lo ..= n * hi`.
pub proof fn lemma_sum_bounds(n: int, f: spec_fn(int) -> int, lo: int, hi: int)
    requires
        0 <= n,
        forall|i: int| 0 <= i < n ==> lo <= #[trigger] f(i) <= hi,
    ensures
        n * lo <= sum(n, f) <= n * hi,
    decreases n,
{
    if n > 0 {
        lemma_sum_bounds(n - 1, f, lo, hi);
        assert(lo <= f(n - 1) <= hi);
        assert(n * lo == (n - 1) * lo + lo) by (nonlinear_arith);
        assert(n * hi == (n - 1) * hi + hi) by (nonlinear_arith);
    } else {
        assert(n * lo == 0 && n * hi == 0) by (nonlinear_arith)
            requires
                n == 0,
        ;
    }
}

/// The product of a value within `0 ..= a` and one within `-b ..= b`.
pub proof fn lemma_product_bounds(x: int, y: int, a: int, b: int)
    requires
        -a <= x <= a,
        -b <= y <= b,
    ensures
        -(a * b) <= x * y <= a * b,
{
    assert(-(a * b) <= x * y <= a * b) by (nonlinear_arith)
        requires
            -a <= x <= a,
            -b <= y <= b,
    ;
}

/// Quotient and remainder of `q * d + r`.
pub proof fn lemma_div_mod_of(q: int, d: int, r: int)
    requires
        0 <= r < d,
    ensures
        (q * d + r) / d == q,
        (q * d + r) % d == r,
{
    lemma_fundamental_div_mod_converse(q * d + r, d, q, r);
}

} // verus!
