//! What the dense steps of a forward pass come to where nothing rounds: inner
//! products, norms and rotations.
use crate::algebra::{
    lemma_exchange, lemma_expand, lemma_group, lemma_quotient, lemma_sign, lemma_simple,
    lemma_spread, lemma_square, lemma_swap,
};
use crate::analytic::Analytic;
use crate::attention::{column_sum, lane_sum, lane_sums, lanes_total};
use crate::dense::{normed, products, turned};
use crate::ideal::{
    adds, is_ideal, lemma_series_factor, lemma_series_not_negative, lemma_series_same, series,
};
use crate::lanes::paired;
use crate::norm::{inverse_of, is_norm_run, squares_of};
use crate::scalar::Scalar;
use crate::tensors::{bf16_lane, bf16_pair, bf16_value};
use vstd::prelude::*;

verus! {

// --------------------------------------------------------------- inner products

/// Number `j` of one run times number `j` of another.
pub open spec fn pair_at<S>(
    v: spec_fn(S) -> real,
    w: Seq<S>,
    wat: int,
    x: Seq<S>,
    xat: int,
) -> spec_fn(int) -> real {
    |j: int| v(w[wat + j]) * v(x[xat + j])
}

/// Products that are added one after another come to what they started from plus the
/// inner product of the two runs.
pub proof fn products_add_up<S: Scalar>(
    v: spec_fn(S) -> real,
    acc: S,
    w: Seq<S>,
    wat: int,
    x: Seq<S>,
    xat: int,
    n: int,
)
    requires
        adds(v),
        0 <= n,
    ensures
        v(products(acc, w, wat, x, xat, n)) == v(acc) + series(n, pair_at(v, w, wat, x, xat)),
    decreases n,
{
    if n > 0 {
        products_add_up(v, acc, w, wat, x, xat, n - 1);
        assert(w[wat + (n - 1)] == w[wat + n - 1] && x[xat + (n - 1)] == x[xat + n - 1]);
    }
}

/// The sum of the squares of a run.
pub proof fn squares_add_up<S: Scalar>(v: spec_fn(S) -> real, x: Seq<S>, at: int, n: int)
    requires
        adds(v),
        0 <= n,
    ensures
        v(products(S::zero_spec(), x, at, x, at, n)) == series(
            n,
            |j: int| v(x[at + j]) * v(x[at + j]),
        ),
{
    products_add_up(v, S::zero_spec(), x, at, x, at, n);
    lemma_series_same(n, pair_at(v, x, at, x, at), |j: int| v(x[at + j]) * v(x[at + j]));
}

/// The numbers `r` are the image of `x` under a matrix of `rows` rows and `cols` columns,
/// plus the numbers `b`.
pub open spec fn is_image<S>(
    v: spec_fn(S) -> real,
    r: Seq<S>,
    w: Seq<S>,
    x: Seq<S>,
    b: Seq<S>,
    rows: int,
    cols: int,
) -> bool {
    &&& r.len() == rows
    &&& forall|i: int|
        0 <= i < rows ==> v(#[trigger] r[i]) == v(b[i]) + series(
            cols,
            |j: int| v(w[i * cols + j]) * v(x[j]),
        )
}

/// Whether the bias is added first or last, a matrix times a vector is row by row the
/// inner product with the whole vector, plus the bias of the row.
pub proof fn rows_are_inner_products<S: Scalar>(
    v: spec_fn(S) -> real,
    r: Seq<S>,
    w: Seq<S>,
    x: Seq<S>,
    b: Seq<S>,
    rows: int,
    cols: int,
)
    requires
        adds(v),
        0 <= cols,
        r.len() == rows,
        forall|i: int|
            0 <= i < rows ==> #[trigger] r[i] == products(b[i], w, i * cols, x, 0, cols) || r[i]
                == products(S::zero_spec(), w, i * cols, x, 0, cols).plus_spec(b[i]),
    ensures
        is_image(v, r, w, x, b, rows, cols),
{
    assert forall|i: int| 0 <= i < rows implies v(#[trigger] r[i]) == v(b[i]) + series(
        cols,
        |j: int| v(w[i * cols + j]) * v(x[j]),
    ) by {
        products_add_up(v, b[i], w, i * cols, x, 0, cols);
        products_add_up(v, S::zero_spec(), w, i * cols, x, 0, cols);
        lemma_series_same(
            cols,
            pair_at(v, w, i * cols, x, 0),
            |j: int| v(w[i * cols + j]) * v(x[j]),
        );
    }
}

/// One lane of a product after one more step.
proof fn lemma_lane_step<S: Scalar>(
    v: spec_fn(S) -> real,
    k: Seq<S>,
    kat: int,
    q: Seq<S>,
    qat: int,
    lane: int,
    n: int,
)
    requires
        adds(v),
        0 < n,
    ensures
        v(lane_sum(k, kat, q, qat, lane, n)) == v(lane_sum(k, kat, q, qat, lane, n - 1)) + pair_at(
            v,
            k,
            kat,
            q,
            qat,
        )(16 * (n - 1) + lane),
{
    let j: int = 16 * (n - 1) + lane;
    assert(kat + 16 * (n - 1) + lane == kat + j);
    assert(qat + 16 * (n - 1) + lane == qat + j);
}

/// Sixteen more terms of a sum.
proof fn lemma_sixteen(m: int, f: spec_fn(int) -> real)
    requires
        0 <= m,
    ensures
        series(m + 16, f) == series(m, f) + f(m) + f(m + 1) + f(m + 2) + f(m + 3) + f(m + 4) + f(
            m + 5,
        ) + f(m + 6) + f(m + 7) + f(m + 8) + f(m + 9) + f(m + 10) + f(m + 11) + f(m + 12) + f(
            m + 13,
        ) + f(m + 14) + f(m + 15),
{
    reveal_with_fuel(series, 17);
}

/// The sum of all lanes is the sum of the sixteen.
proof fn lemma_lanes_total<S: Scalar>(v: spec_fn(S) -> real, l: Seq<S>)
    requires
        adds(v),
    ensures
        v(lanes_total(l)) == v(l[0]) + v(l[1]) + v(l[2]) + v(l[3]) + v(l[4]) + v(l[5]) + v(l[6])
            + v(l[7]) + v(l[8]) + v(l[9]) + v(l[10]) + v(l[11]) + v(l[12]) + v(l[13]) + v(l[14])
            + v(l[15]),
{
    assert(v(column_sum(l, 0)) == v(l[0]) + v(l[4]) + v(l[8]) + v(l[12]));
    assert(v(column_sum(l, 1)) == v(l[1]) + v(l[5]) + v(l[9]) + v(l[13]));
    assert(v(column_sum(l, 2)) == v(l[2]) + v(l[6]) + v(l[10]) + v(l[14]));
    assert(v(column_sum(l, 3)) == v(l[3]) + v(l[7]) + v(l[11]) + v(l[15]));
}

#[verifier::rlimit(40)]
proof fn lemma_lanes<S: Scalar>(
    v: spec_fn(S) -> real,
    k: Seq<S>,
    kat: int,
    q: Seq<S>,
    qat: int,
    n: int,
)
    requires
        adds(v),
        0 <= n,
    ensures
        v(lanes_total(lane_sums(k, kat, q, qat, n))) == series(16 * n, pair_at(v, k, kat, q, qat)),
    decreases n,
{
    let f = pair_at(v, k, kat, q, qat);
    let now = lane_sums(k, kat, q, qat, n);
    lemma_lanes_total(v, now);
    if n == 0 {
        assert forall|lane: int| 0 <= lane < 16 implies v(#[trigger] now[lane]) == 0real by {}
    } else {
        let before = lane_sums(k, kat, q, qat, n - 1);
        lemma_lanes(v, k, kat, q, qat, n - 1);
        lemma_lanes_total(v, before);
        let m: int = 16 * (n - 1);
        assert forall|lane: int| 0 <= lane < 16 implies v(#[trigger] now[lane]) == v(before[lane])
            + f(m + lane) by {
            lemma_lane_step(v, k, kat, q, qat, lane, n);
        }
        lemma_sixteen(m, f);
        assert(m + 16 == 16 * n);
        assert(f(m + 0) == f(m));
    }
}

/// A key and a query of `hd` numbers are multiplied number by number, every number of
/// the one with the number in the same place of the other: their product in lanes is
/// the inner product of the whole of both, which is also what adding in order gives.
pub proof fn dot_is_the_inner_product<S: Scalar>(
    v: spec_fn(S) -> real,
    k: Seq<S>,
    kat: int,
    q: Seq<S>,
    qat: int,
    hd: int,
)
    requires
        adds(v),
        0 <= hd,
        hd % 16 == 0,
    ensures
        v(lanes_total(lane_sums(k, kat, q, qat, hd / 16))) == series(
            hd,
            |j: int| v(k[kat + j]) * v(q[qat + j]),
        ),
        v(lanes_total(lane_sums(k, kat, q, qat, hd / 16))) == v(
            products(S::zero_spec(), k, kat, q, qat, hd),
        ),
{
    lemma_lanes(v, k, kat, q, qat, hd / 16);
    products_add_up(v, S::zero_spec(), k, kat, q, qat, hd);
    assert(16 * (hd / 16) == hd);
    lemma_series_same(
        hd,
        pair_at(v, k, kat, q, qat),
        |j: int| v(k[kat + j]) * v(q[qat + j]),
    );
}

// ------------------------------------------------------------------------ norms

/// A sum of squares is not negative.
pub proof fn lemma_squares<S: Scalar>(v: spec_fn(S) -> real, x: Seq<S>, at: int, n: int)
    ensures
        series(n, pair_at(v, x, at, x, at)) >= 0real,
{
    let f = pair_at(v, x, at, x, at);
    assert forall|j: int| 0 <= j < n implies #[trigger] f(j) >= 0real by {
        lemma_square(v(x[at + j]));
    }
    lemma_series_not_negative(n, f);
}

/// What a norm multiplies with is positive, and its square times the mean of the `n`
/// squares and `eps` is one.
pub proof fn inverse_undoes_the_mean_square<S: Analytic>(
    v: spec_fn(S) -> real,
    squares: S,
    n: usize,
    eps: S,
)
    requires
        is_ideal(v),
        0 < n <= i64::MAX,
        v(squares) >= 0real,
        v(eps) >= 0real,
        v(squares) + v(eps) > 0real,
    ensures
        v(inverse_of(squares, n, eps)) > 0real,
        v(inverse_of(squares, n, eps)) * v(inverse_of(squares, n, eps)) * (v(squares) / (n as real)
            + v(eps)) == 1real,
        v(inverse_of(squares, n, eps)) * v(inverse_of(squares, n, eps)) * (v(squares) + n as real
            * v(eps)) == n as real,
{
    let count = S::of_int_spec(n as i64);
    let mean = squares.over_spec(count);
    let under = mean.plus_spec(eps);
    let root = under.root_spec();
    let one = S::of_int_spec(1);
    let inv = one.over_spec(root);
    assert(inv == inverse_of(squares, n, eps));
    let (s, e, q, m, t, r, c) = (
        v(squares),
        v(eps),
        v(mean),
        v(under),
        v(root),
        v(inv),
        n as real,
    );
    assert(v(count) == c && c > 0real);
    assert(q * c == s);
    lemma_sign(q, c);
    assert(q >= 0real);
    lemma_simple(c);
    assert(q > 0real || e > 0real);
    assert(m == q + e && m > 0real);
    assert(t >= 0real && t * t == m);
    lemma_simple(t);
    assert(t != 0real);
    assert(v(one) == 1real);
    assert(r * t == 1real);
    lemma_sign(r, t);
    assert(r > 0real);
    lemma_exchange(r, r, t, t);
    lemma_simple(1real);
    assert(r * r * m == 1real);
    lemma_quotient(q, c, s);
    lemma_swap(q, c);
    lemma_spread(q, e, c);
    assert(s + c * e == c * m);
    lemma_swap(c, m);
    lemma_group(r * r, m, c);
    assert(r * r * (s + c * e) == c);
}

/// The numbers `r` are those of `x` from place `a` on, each times the one factor `c`
/// and times its weight.
pub open spec fn scales_by<S>(
    v: spec_fn(S) -> real,
    c: real,
    r: Seq<S>,
    x: Seq<S>,
    w: Seq<S>,
    a: int,
) -> bool {
    forall|i: int| 0 <= i < r.len() ==> v(#[trigger] r[i]) == c * v(x[a + i]) * v(w[a + i])
}

/// The sum of the squares of numbers.
pub open spec fn squares_in<S>(v: spec_fn(S) -> real, x: Seq<S>) -> real {
    series(x.len() as int, |j: int| v(x[j]) * v(x[j]))
}

/// The sum of numbers.
pub open spec fn sum_in<S>(v: spec_fn(S) -> real, x: Seq<S>) -> real {
    series(x.len() as int, |j: int| v(x[j]))
}

/// Numbers of which `squares` is the sum of the squares can be normalized: it and `eps` are
/// not negative, and not both are zero.
pub open spec fn can_norm<S: Analytic>(
    v: spec_fn(S) -> real,
    squares: real,
    n: int,
    eps: S,
) -> bool {
    is_ideal(v) && 0 < n <= i64::MAX && squares >= 0real && v(eps) >= 0real && squares + v(eps)
        > 0real
}

/// The numbers `r` are those of `x` from place `a` on, normalized: each times the one
/// positive factor `c` and times its weight, where the square of the factor times the sum
/// of the squares, and `eps` for each of the `n` numbers, is `n`.
pub open spec fn norms_by<S: Analytic>(
    v: spec_fn(S) -> real,
    c: real,
    squares: real,
    n: int,
    eps: S,
    r: Seq<S>,
    x: Seq<S>,
    w: Seq<S>,
    a: int,
) -> bool {
    &&& c > 0real
    &&& c * c * (squares + n as real * v(eps)) == n as real
    &&& scales_by(v, c, r, x, w, a)
}

/// A norm multiplies all numbers of a vector with one positive factor, and each with
/// its weight: the square of the factor times the sum of the squares of the whole
/// vector, and `eps` for each number, is the width.
pub proof fn norm_is_one_factor<S: Analytic>(
    v: spec_fn(S) -> real,
    r: Seq<S>,
    x: Seq<S>,
    eps: S,
    w: Seq<S>,
    a: int,
    b: int,
) -> (c: real)
    requires
        is_ideal(v),
        0 < x.len() <= i64::MAX,
        x.len() <= usize::MAX,
        v(eps) >= 0real,
        series(x.len() as int, |j: int| v(x[j]) * v(x[j])) + v(eps) > 0real,
        is_norm_run(r, x, eps, w, a, b),
    ensures
        r.len() == b - a,
        c > 0real,
        c * c * (series(x.len() as int, |j: int| v(x[j]) * v(x[j])) + x.len() as real * v(eps))
            == x.len() as real,
        scales_by(v, c, r, x, w, a),
{
    let n = x.len() as usize;
    let squares = squares_of(x);
    products_add_up(v, S::zero_spec(), x, 0, x, 0, n as int);
    lemma_squares(v, x, 0, n as int);
    lemma_series_same(n as int, pair_at(v, x, 0, x, 0), |j: int| v(x[j]) * v(x[j]));
    inverse_undoes_the_mean_square(v, squares, n, eps);
    let inv = inverse_of(squares, n, eps);
    let c = v(inv);
    assert forall|i: int| 0 <= i < r.len() implies v(#[trigger] r[i]) == c * v(x[a + i]) * v(
        w[a + i],
    ) by {
        assert(r[i] == normed(x[a + i], inv, w[a + i]));
        lemma_swap(v(x[a + i]), c);
    }
    c
}

/// A vector that is normalized with weights of one and nothing added to the mean has
/// squares that add up to its width.
pub proof fn normalized_squares_add_up_to_the_width<S: Analytic>(
    v: spec_fn(S) -> real,
    r: Seq<S>,
    x: Seq<S>,
    eps: S,
    w: Seq<S>,
)
    requires
        is_ideal(v),
        0 < x.len() <= i64::MAX,
        x.len() <= usize::MAX,
        v(eps) == 0real,
        series(x.len() as int, |j: int| v(x[j]) * v(x[j])) > 0real,
        forall|i: int| 0 <= i < x.len() ==> v(#[trigger] w[i]) == 1real,
        is_norm_run(r, x, eps, w, 0, x.len() as int),
    ensures
        series(x.len() as int, |j: int| v(r[j]) * v(r[j])) == x.len() as real,
{
    let n = x.len() as int;
    let (f, g) = (|j: int| v(x[j]) * v(x[j]), |j: int| v(r[j]) * v(r[j]));
    let c = norm_is_one_factor(v, r, x, eps, w, 0, n);
    assert forall|j: int| 0 <= j < n implies #[trigger] g(j) == f(j) * (c * c) by {
        let (p, q) = (v(r[j]), v(x[0 + j]));
        assert(v(w[0 + j]) == 1real);
        assert(p == c * q * 1real);
        lemma_simple(c * q);
        lemma_exchange(c, q, c, q);
        lemma_swap(c * c, q * q);
        assert(p * p == (q * q) * (c * c));
    }
    lemma_series_factor(n, g, f, c * c);
    let (s, m) = (series(n, f), n as real);
    lemma_simple(m);
    assert(m * v(eps) == 0real);
    lemma_swap(s, c * c);
    assert(s * (c * c) == m);
}

// -------------------------------------------------------------------- rotations

/// Pair `k` of a table of cosines and sines is read without rounding.
pub open spec fn is_turning<S: Scalar>(
    v: spec_fn(S) -> real,
    table: Seq<S>,
    tat: int,
    k: int,
) -> bool {
    adds(v) && 0 <= tat + 2 * k && tat + 2 * k + 1 < table.len()
}

/// A rotation turns each pair of a head, number `k` of the first half with number `k`
/// of the second, by the angle of which the table holds the cosine and the sine, and
/// keeps the length of the pair.
pub proof fn rotation_turns_each_pair<S: Scalar>(
    v: spec_fn(S) -> real,
    x: Seq<S>,
    at: int,
    half: int,
    table: Seq<S>,
    tat: int,
    k: int,
)
    requires
        adds(v),
        0 <= k < half,
    ensures
        ({
            let (a, b) = (v(x[at + k]), v(x[at + half + k]));
            let (c, s) = (v(table[tat + 2 * k]), v(table[tat + 2 * k + 1]));
            let p = v(turned(x, at, half, table, tat, at + k));
            let q = v(turned(x, at, half, table, tat, at + half + k));
            &&& p == a * c - b * s
            &&& q == a * s + b * c
            &&& p * p + q * q == (a * a + b * b) * (c * c + s * s)
        }),
{
    let (a, b) = (v(x[at + k]), v(x[at + half + k]));
    let (c, s) = (v(table[tat + 2 * k]), v(table[tat + 2 * k + 1]));
    assert(at + k + half == at + half + k);
    assert(at + half + k - half == at + k);
    assert(at + half + k - at - half == k);
    assert(at + k - at == k);
    let p = v(turned(x, at, half, table, tat, at + k));
    let q = v(turned(x, at, half, table, tat, at + half + k));
    assert(p == a * c - b * s);
    assert(q == b * c + a * s);
    lemma_expand(a * c, b * s, a * c, b * s);
    lemma_expand(b * c, a * s, b * c, a * s);
    lemma_expand(a * a, b * b, c * c, s * s);
    lemma_exchange(a, c, a, c);
    lemma_exchange(b, s, b, s);
    lemma_exchange(b, c, b, c);
    lemma_exchange(a, s, a, s);
    lemma_exchange(a, c, b, s);
    lemma_exchange(b, c, a, s);
    lemma_swap(a, b);
    lemma_swap(a * c, b * s);
    lemma_swap(b * c, a * s);
}

/// The product of a turned key and a turned query depends on the difference of their
/// angles alone: turned by angles with the same difference, a pair of the one and a
/// pair of the other have the same product.
#[verifier::rlimit(40)]
pub proof fn turned_products_go_by_the_difference<S: Scalar>(
    v: spec_fn(S) -> real,
    x: Seq<S>,
    y: Seq<S>,
    at: int,
    half: int,
    table: Seq<S>,
    xat: int,
    yat: int,
    k: int,
)
    requires
        adds(v),
        0 <= k < half,
    ensures
        ({
            let (a, b) = (v(x[at + k]), v(x[at + half + k]));
            let (c, d) = (v(y[at + k]), v(y[at + half + k]));
            let (cx, sx) = (v(table[xat + 2 * k]), v(table[xat + 2 * k + 1]));
            let (cy, sy) = (v(table[yat + 2 * k]), v(table[yat + 2 * k + 1]));
            let (cosine, sine) = (cx * cy + sx * sy, sx * cy - cx * sy);
            v(turned(x, at, half, table, xat, at + k)) * v(
                turned(y, at, half, table, yat, at + k),
            ) + v(turned(x, at, half, table, xat, at + half + k)) * v(
                turned(y, at, half, table, yat, at + half + k),
            ) == (a * c + b * d) * cosine + (a * d - b * c) * sine
        }),
{
    rotation_turns_each_pair(v, x, at, half, table, xat, k);
    rotation_turns_each_pair(v, y, at, half, table, yat, k);
    let (a, b) = (v(x[at + k]), v(x[at + half + k]));
    let (c, d) = (v(y[at + k]), v(y[at + half + k]));
    let (cx, sx) = (v(table[xat + 2 * k]), v(table[xat + 2 * k + 1]));
    let (cy, sy) = (v(table[yat + 2 * k]), v(table[yat + 2 * k + 1]));
    lemma_expand(a * cx, b * sx, c * cy, d * sy);
    lemma_expand(a * sx, b * cx, c * sy, d * cy);
    lemma_expand(a * c, b * d, cx * cy, sx * sy);
    lemma_expand(a * d, b * c, sx * cy, cx * sy);
    lemma_exchange(a, cx, c, cy);
    lemma_exchange(a, cx, d, sy);
    lemma_exchange(b, sx, c, cy);
    lemma_exchange(b, sx, d, sy);
    lemma_exchange(a, sx, c, sy);
    lemma_exchange(a, sx, d, cy);
    lemma_exchange(b, cx, c, sy);
    lemma_exchange(b, cx, d, cy);
}

// ----------------------------------------------------------------- 16-bit floats

/// One of eight running sums after one more step.
proof fn lemma_bf16_step<S: Scalar>(
    v: spec_fn(S) -> real,
    blob: Seq<u8>,
    at: int,
    x: Seq<S>,
    l: int,
    n: int,
)
    requires
        adds(v),
        0 < n,
    ensures
        v(bf16_lane(blob, at, x, l, n)) == v(bf16_lane(blob, at, x, l, n - 1)) + v(
            bf16_value::<S>(blob, at, 8 * (n - 1) + l),
        ) * v(x[8 * (n - 1) + l]),
{
}

/// Eight more terms of a sum.
proof fn lemma_eight(m: int, f: spec_fn(int) -> real)
    requires
        0 <= m,
    ensures
        series(m + 8, f) == series(m, f) + f(m) + f(m + 1) + f(m + 2) + f(m + 3) + f(m + 4) + f(
            m + 5,
        ) + f(m + 6) + f(m + 7),
{
    reveal_with_fuel(series, 9);
}

/// The product of a run of 16-bit floats and as many numbers is the inner product of all
/// of them, up to the last eight whole ones.
#[verifier::rlimit(40)]
pub proof fn bf16_dot_is_the_inner_product<S: Scalar>(
    v: spec_fn(S) -> real,
    blob: Seq<u8>,
    at: int,
    x: Seq<S>,
    steps: int,
)
    requires
        adds(v),
        0 <= steps,
    ensures
        v(
            paired(
                bf16_pair(blob, at, x, 0, steps),
                bf16_pair(blob, at, x, 1, steps),
                bf16_pair(blob, at, x, 2, steps),
                bf16_pair(blob, at, x, 3, steps),
            ),
        ) == series(
            8 * steps,
            |j: int|
                v(
                    S::of_bits_spec(
                        (0x1_0000 * (blob[at + 2 * j] + 256 * blob[at + 2 * j + 1])) as u32,
                    ),
                ) * v(x[j]),
        ),
    decreases steps,
{
    let f = |j: int|
        v(
            S::of_bits_spec(
                (0x1_0000 * (blob[at + 2 * j] + 256 * blob[at + 2 * j + 1])) as u32,
            ),
        ) * v(x[j]);
    if steps > 0 {
        let k: int = steps - 1;
        bf16_dot_is_the_inner_product(v, blob, at, x, k);
        lemma_series_same(
            8 * k,
            |j: int|
                v(
                    S::of_bits_spec(
                        (0x1_0000 * (blob[at + 2 * j] + 256 * blob[at + 2 * j + 1])) as u32,
                    ),
                ) * v(x[j]),
            f,
        );
        lemma_eight(8 * k, f);
        assert forall|l: int| 0 <= l < 8 implies v(
            #[trigger] bf16_lane(blob, at, x, l, steps),
        ) == v(bf16_lane(blob, at, x, l, k)) + f(8 * k + l) by {
            lemma_bf16_step(v, blob, at, x, l, steps);
        }
        assert(f(8 * k + 0) == f(8 * k));
        assert(8 * k + 8 == 8 * steps);
    }
}

} // verus!
