//! How work items are split among workers: runs of equal chunks, and cuts.
use vstd::arithmetic::div_mod::{lemma_div_is_ordered, lemma_fundamental_div_mod, lemma_fundamental_div_mod_converse};
use vstd::arithmetic::mul::lemma_mul_inequality;
use vstd::prelude::*;

verus! {

/// The quotient of `n` by `k`, rounded up.
pub open spec fn ceil_div(n: int, k: int) -> int {
    (n + k - 1) / k
}

/// `n` rounded up to a multiple of `k`.
pub open spec fn round_up(n: int, k: int) -> int {
    ceil_div(n, k) * k
}

/// Where run `t` of `size` items out of `n` starts.
pub open spec fn run_start(n: int, size: int, t: int) -> int {
    if t * size < n {
        t * size
    } else {
        n
    }
}

/// Item `i` is in run `t`, when `n` items are cut into runs of `size`.
pub open spec fn in_run(n: int, size: int, t: int, i: int) -> bool {
    run_start(n, size, t) <= i < run_start(n, size, t + 1)
}

/// `k` times the rounded-up quotient is at least `n`, and less than `n + k`.
pub proof fn lemma_ceil_div(n: int, k: int)
    requires
        0 <= n,
        0 < k,
    ensures
        n <= k * ceil_div(n, k) < n + k,
        0 <= ceil_div(n, k) <= n,
        n > 0 ==> ceil_div(n, k) > 0,
{
    let q = ceil_div(n, k);
    lemma_fundamental_div_mod(n + k - 1, k);
    vstd::arithmetic::div_mod::lemma_mod_bound(n + k - 1, k);
    assert(q <= n) by (nonlinear_arith)
        requires
            k * q <= n + k - 1,
            0 < k,
            0 <= n,
    ;
    assert(q >= 0) by (nonlinear_arith)
        requires
            k * q >= n,
            0 < k,
            0 <= n,
    ;
    if n > 0 {
        assert(q > 0) by (nonlinear_arith)
            requires
                k * q >= n,
                n > 0,
                0 < k,
        ;
    }
}

/// The quotient of `n` by `k`, rounded up.
pub fn div_up(n: usize, k: usize) -> (r: usize)
    requires
        0 < k,
    ensures
        r == ceil_div(n as int, k as int),
        r <= n,
        n > 0 ==> r > 0,
        n <= r * k < n + k,
{
    proof {
        let (ni, ki) = (n as int, k as int);
        lemma_ceil_div(ni, ki);
        let q = ceil_div(ni, ki);
        assert(ki * q == q * ki) by (nonlinear_arith);
        lemma_fundamental_div_mod(ni, ki);
        vstd::arithmetic::div_mod::lemma_mod_bound(ni, ki);
        let up = ni / ki + if ni % ki > 0 {
            1int
        } else {
            0int
        };
        assert(ki * (ni / ki + 1) == ki * (ni / ki) + ki) by (nonlinear_arith);
        assert(q == up) by (nonlinear_arith)
            requires
                ni <= ki * q < ni + ki,
                ni <= ki * up < ni + ki,
                ki > 0,
        ;
    }
    let whole: usize = n / k;
    if n % k > 0 {
        whole + 1
    } else {
        whole
    }
}

/// The run of chunk `t` when `n` items go to `workers` in equal chunks, or none
/// where the items have run out before it.
pub fn chunk(n: usize, workers: usize, t: usize) -> (r: Option<(usize, usize)>)
    requires
        t < workers,
    ensures
        ({
            let size = ceil_div(n as int, workers as int);
            match r {
                None => t * size >= n,
                Some((a, b)) => t * size < n && a == run_start(n as int, size, t as int) && b
                    == run_start(n as int, size, t + 1),
            }
        }),
        r matches Some((a, b)) ==> a < b <= n,
{
    let size: usize = div_up(n, workers);
    run(n, size, t)
}

/// The run `t` of `size` items out of `n`, or none where the items have run out.
pub fn run(n: usize, size: usize, t: usize) -> (r: Option<(usize, usize)>)
    requires
        n > 0 ==> size > 0,
    ensures
        match r {
            None => t * size >= n,
            Some((a, b)) => t * size < n && a == run_start(n as int, size as int, t as int) && b
                == run_start(n as int, size as int, t + 1),
        },
        r matches Some((a, b)) ==> a < b <= n,
{
    proof {
        assert(t * size >= 0) by (nonlinear_arith)
            requires
                0 <= t,
                0 <= size,
        ;
        assert((t + 1) * size == t * size + size) by (nonlinear_arith);
    }
    if n == 0 {
        return None;
    }
    let last: usize = (n - 1) / size;
    proof {
        let (ni, si) = (n - 1, size as int);
        lemma_fundamental_div_mod(ni, si);
        vstd::arithmetic::div_mod::lemma_mod_bound(ni, si);
        if t > last {
            assert(t * si >= si * (ni / si) + si) by (nonlinear_arith)
                requires
                    t >= ni / si + 1,
                    si > 0,
            ;
        } else {
            assert(t * si <= si * (ni / si)) by (nonlinear_arith)
                requires
                    t <= ni / si,
                    si > 0,
            ;
        }
    }
    if t > last {
        None
    } else {
        let a: usize = t * size;
        if size < n - a {
            Some((a, a + size))
        } else {
            Some((a, n))
        }
    }
}

/// Runs that together reach `n` give every item to exactly one of the workers.
pub proof fn runs_cover(n: int, size: int, workers: int, i: int) -> (t: int)
    requires
        0 <= i < n,
        0 < size,
        n <= size * workers,
    ensures
        0 <= t < workers,
        in_run(n, size, t, i),
        forall|u: int| #[trigger] in_run(n, size, u, i) ==> u == t,
{
    let t = i / size;
    lemma_fundamental_div_mod(i, size);
    vstd::arithmetic::div_mod::lemma_mod_bound(i, size);
    assert(size * t == t * size) by (nonlinear_arith);
    assert((t + 1) * size == t * size + size) by (nonlinear_arith);
    assert(t >= 0) by (nonlinear_arith)
        requires
            t * size + size > i,
            i >= 0,
            size > 0,
    ;
    assert(t < workers) by (nonlinear_arith)
        requires
            t * size <= i,
            i < size * workers,
            size > 0,
    ;
    assert forall|u: int| #[trigger] in_run(n, size, u, i) implies u == t by {
        if u < t {
            assert((u + 1) * size <= t * size) by (nonlinear_arith)
                requires
                    u + 1 <= t,
                    size > 0,
            ;
        } else if u > t {
            assert(u * size >= (t + 1) * size) by (nonlinear_arith)
                requires
                    u >= t + 1,
                    size > 0,
            ;
        }
    }
    t
}

/// Equal chunks give every item to exactly one worker.
pub proof fn chunks_cover(n: int, workers: int, i: int) -> (t: int)
    requires
        0 <= i < n,
        0 < workers,
    ensures
        0 <= t < workers,
        in_run(n, ceil_div(n, workers), t, i),
        forall|u: int| #[trigger] in_run(n, ceil_div(n, workers), u, i) ==> u == t,
{
    lemma_ceil_div(n, workers);
    let size = ceil_div(n, workers);
    assert(workers * size == size * workers) by (nonlinear_arith);
    runs_cover(n, size, workers, i)
}

/// Item `i` lies between the cuts `w` and `w + 1`.
pub open spec fn between_cuts(cut: spec_fn(int) -> int, w: int, i: int) -> bool {
    cut(w) <= i < cut(w + 1)
}

/// Rising cuts keep their order.
pub proof fn lemma_cuts_ordered(cut: spec_fn(int) -> int, workers: int, u: int, v: int)
    requires
        0 <= u <= v <= workers,
        forall|w: int| 0 <= w < workers ==> #[trigger] cut(w) <= cut(w + 1),
    ensures
        cut(u) <= cut(v),
    decreases v - u,
{
    if u < v {
        lemma_cuts_ordered(cut, workers, u, v - 1);
        assert(cut(v - 1) <= cut(v - 1 + 1));
    }
}

proof fn lemma_find_cut(cut: spec_fn(int) -> int, workers: int, i: int) -> (w: int)
    requires
        0 < workers,
        cut(0) <= i < cut(workers),
    ensures
        0 <= w < workers,
        between_cuts(cut, w, i),
    decreases workers,
{
    if workers == 1 {
        assert(between_cuts(cut, 0, i));
        0
    } else if i >= cut(workers - 1) {
        assert(cut(workers - 1 + 1) == cut(workers));
        workers - 1
    } else {
        lemma_find_cut(cut, workers - 1, i)
    }
}

/// Cuts that rise from 0 to `n` give every item to exactly one worker.
pub proof fn lemma_cuts_cover(cut: spec_fn(int) -> int, workers: int, n: int, i: int) -> (w: int)
    requires
        0 < workers,
        0 <= i < n,
        cut(0) == 0,
        cut(workers) == n,
        forall|w: int| 0 <= w < workers ==> #[trigger] cut(w) <= cut(w + 1),
    ensures
        0 <= w < workers,
        between_cuts(cut, w, i),
        forall|u: int| 0 <= u < workers && #[trigger] between_cuts(cut, u, i) ==> u == w,
{
    let w = lemma_find_cut(cut, workers, i);
    assert forall|u: int| 0 <= u < workers && #[trigger] between_cuts(cut, u, i) implies u == w by {
        if u < w {
            lemma_cuts_ordered(cut, workers, u + 1, w);
        } else if u > w {
            lemma_cuts_ordered(cut, workers, w + 1, u);
        }
    }
    w
}

/// Rounding a quotient down keeps the order of the numerators.
pub proof fn lemma_scaled_cut(n: int, u: int, v: int, total: int)
    requires
        0 <= n,
        0 <= u <= v <= total,
        0 < total,
    ensures
        0 <= n * u / total <= n * v / total <= n,
        n * 0 / total == 0,
        n * total / total == n,
{
    lemma_mul_inequality(u, v, n);
    assert(n * u == u * n && n * v == v * n) by (nonlinear_arith);
    assert(0 <= n * u) by (nonlinear_arith)
        requires
            0 <= n,
            0 <= u,
    ;
    lemma_div_is_ordered(n * u, n * v, total);
    vstd::arithmetic::div_mod::lemma_div_pos_is_pos(n * u, total);
    lemma_mul_inequality(v, total, n);
    assert(n * total == total * n) by (nonlinear_arith);
    lemma_div_is_ordered(n * v, n * total, total);
    vstd::arithmetic::div_mod::lemma_div_multiples_vanish(n, total);
    assert(n * 0 == 0) by (nonlinear_arith);
    lemma_fundamental_div_mod_converse(0, total, 0, 0);
}

} // verus!
