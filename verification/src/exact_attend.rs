//! The products of keys and queries on numbers that stand for integers and do not round:
//! the order in which a product is added up makes no difference to it.
use crate::arith::{lemma_sum_same, sum, wrap_i32};
use crate::attention::{column_sum, lane_sum, lane_sums, lanes_total};
use crate::dense::{product_term, products, products_are_exact};
use crate::exact::{
    congruent, integers_are_exact, is_exact, lemma_congruent_flip, lemma_congruent_plus,
    lemma_congruent_same, lemma_congruent_through, multiple,
};
use crate::exact_gptoss::products_are_an_inner_product;
use crate::scalar::Scalar;
use vstd::prelude::*;

verus! {

/// What a lane holds after `n` steps: the products at every sixteenth place from `lane` on.
spec fn lane_whole(f: spec_fn(int) -> int, lane: int, n: int) -> int
    decreases n,
{
    if n <= 0 {
        0
    } else {
        lane_whole(f, lane, n - 1) + f(16 * (n - 1) + lane)
    }
}

proof fn lemma_lane<S: Scalar>(
    v: spec_fn(S) -> int,
    m: int,
    k: Seq<S>,
    kat: int,
    q: Seq<S>,
    qat: int,
    lane: int,
    n: int,
)
    requires
        is_exact(v, m),
    ensures
        congruent(
            v(lane_sum(k, kat, q, qat, lane, n)),
            lane_whole(|j: int| v(k[kat + j]) * v(q[qat + j]), lane, n),
            m,
        ),
    decreases n,
{
    let f = |j: int| v(k[kat + j]) * v(q[qat + j]);
    if n > 0 {
        lemma_lane(v, m, k, kat, q, qat, lane, n - 1);
        let before = lane_sum(k, kat, q, qat, lane, n - 1);
        let now = lane_sum(k, kat, q, qat, lane, n);
        let j: int = 16 * (n - 1) + lane;
        let (a, b) = (k[kat + j], q[qat + j]);
        assert(kat + 16 * (n - 1) + lane == kat + j && qat + 16 * (n - 1) + lane == qat + j);
        assert(now == before.fma_spec(a, b));
        let (s, p) = (lane_whole(f, lane, n - 1), v(a) * v(b));
        assert(f(j) == p);
        lemma_congruent_same(p, m);
        lemma_congruent_plus(v(before), s, p, p, m);
        lemma_congruent_through(v(now), v(before) + p, s + p, m);
    }
}

/// Two numbers added stand for the sum of what they stand for.
proof fn lemma_added<S: Scalar>(v: spec_fn(S) -> int, m: int, a: S, p: int, b: S, q: int)
    requires
        is_exact(v, m),
        congruent(v(a), p, m),
        congruent(v(b), q, m),
    ensures
        congruent(v(a.plus_spec(b)), p + q, m),
{
    lemma_congruent_plus(v(a), p, v(b), q, m);
    lemma_congruent_through(v(a.plus_spec(b)), v(a) + v(b), p + q, m);
}

proof fn lemma_column<S: Scalar>(v: spec_fn(S) -> int, m: int, l: Seq<S>, h: Seq<int>, c: int)
    requires
        is_exact(v, m),
        0 <= c < 4,
        l.len() == 16 && h.len() == 16,
        forall|i: int| 0 <= i < 16 ==> congruent(v(#[trigger] l[i]), h[i], m),
    ensures
        congruent(v(column_sum(l, c)), h[c] + h[4 + c] + (h[8 + c] + h[12 + c]), m),
{
    assert(congruent(v(l[c]), h[c], m) && congruent(v(l[4 + c]), h[4 + c], m));
    assert(congruent(v(l[8 + c]), h[8 + c], m) && congruent(v(l[12 + c]), h[12 + c], m));
    lemma_added(v, m, l[c], h[c], l[4 + c], h[4 + c]);
    lemma_added(v, m, l[8 + c], h[8 + c], l[12 + c], h[12 + c]);
    lemma_added(
        v,
        m,
        l[c].plus_spec(l[4 + c]),
        h[c] + h[4 + c],
        l[8 + c].plus_spec(l[12 + c]),
        h[8 + c] + h[12 + c],
    );
}

#[verifier::rlimit(40)]
proof fn lemma_total<S: Scalar>(v: spec_fn(S) -> int, m: int, l: Seq<S>, h: Seq<int>)
    requires
        is_exact(v, m),
        l.len() == 16 && h.len() == 16,
        forall|i: int| 0 <= i < 16 ==> congruent(v(#[trigger] l[i]), h[i], m),
    ensures
        congruent(
            v(lanes_total(l)),
            h[0] + h[1] + h[2] + h[3] + h[4] + h[5] + h[6] + h[7] + h[8] + h[9] + h[10] + h[11]
                + h[12] + h[13] + h[14] + h[15],
            m,
        ),
{
    lemma_column(v, m, l, h, 0);
    lemma_column(v, m, l, h, 1);
    lemma_column(v, m, l, h, 2);
    lemma_column(v, m, l, h, 3);
    let (a, b, c, d) = (
        h[0] + h[4] + (h[8] + h[12]),
        h[1] + h[5] + (h[9] + h[13]),
        h[2] + h[6] + (h[10] + h[14]),
        h[3] + h[7] + (h[11] + h[15]),
    );
    lemma_added(v, m, column_sum(l, 0), a, column_sum(l, 1), b);
    lemma_added(v, m, column_sum(l, 2), c, column_sum(l, 3), d);
    lemma_added(
        v,
        m,
        column_sum(l, 0).plus_spec(column_sum(l, 1)),
        a + b,
        column_sum(l, 2).plus_spec(column_sum(l, 3)),
        c + d,
    );
}

/// The lanes together hold all products.
#[verifier::rlimit(40)]
proof fn lemma_whole(f: spec_fn(int) -> int, n: int)
    requires
        0 <= n,
    ensures
        lane_whole(f, 0, n) + lane_whole(f, 1, n) + lane_whole(f, 2, n) + lane_whole(f, 3, n)
            + lane_whole(f, 4, n) + lane_whole(f, 5, n) + lane_whole(f, 6, n) + lane_whole(f, 7, n)
            + lane_whole(f, 8, n) + lane_whole(f, 9, n) + lane_whole(f, 10, n) + lane_whole(
            f,
            11,
            n,
        ) + lane_whole(f, 12, n) + lane_whole(f, 13, n) + lane_whole(f, 14, n) + lane_whole(
            f,
            15,
            n,
        ) == sum(16 * n, f),
    decreases n,
{
    if n > 0 {
        lemma_whole(f, n - 1);
        lemma_sixteen(16 * (n - 1), f);
        assert(16 * (n - 1) + 16 == 16 * n);
    }
}

proof fn lemma_sixteen(m: int, f: spec_fn(int) -> int)
    requires
        0 <= m,
    ensures
        sum(m + 16, f) == sum(m, f) + f(m) + f(m + 1) + f(m + 2) + f(m + 3) + f(m + 4) + f(m + 5)
            + f(m + 6) + f(m + 7) + f(m + 8) + f(m + 9) + f(m + 10) + f(m + 11) + f(m + 12) + f(
            m + 13,
        ) + f(m + 14) + f(m + 15),
{
    reveal_with_fuel(sum, 17);
}

/// The product of a key and a query in lanes is the inner product of the whole of both,
/// which is what adding in order gives too, on numbers that stand for integers.
#[verifier::rlimit(40)]
pub proof fn whole_dot_is_the_inner_product<S: Scalar>(
    v: spec_fn(S) -> int,
    m: int,
    k: Seq<S>,
    kat: int,
    q: Seq<S>,
    qat: int,
    hd: int,
)
    requires
        is_exact(v, m),
        0 <= hd,
        hd % 16 == 0,
    ensures
        congruent(
            v(lanes_total(lane_sums(k, kat, q, qat, hd / 16))),
            sum(hd, |j: int| v(k[kat + j]) * v(q[qat + j])),
            m,
        ),
        congruent(
            v(lanes_total(lane_sums(k, kat, q, qat, hd / 16))),
            v(products(S::zero_spec(), k, kat, q, qat, hd)),
            m,
        ),
{
    let n = hd / 16;
    let f = |j: int| v(k[kat + j]) * v(q[qat + j]);
    let l = lane_sums(k, kat, q, qat, n);
    let h = Seq::new(16, |lane: int| lane_whole(f, lane, n));
    assert forall|i: int| 0 <= i < 16 implies congruent(v(#[trigger] l[i]), h[i], m) by {
        lemma_lane(v, m, k, kat, q, qat, i, n);
    }
    lemma_total(v, m, l, h);
    lemma_whole(f, n);
    assert(16 * n == hd);
    let whole = sum(hd, f);
    assert(congruent(v(lanes_total(l)), whole, m));
    products_are_an_inner_product(v, m, S::zero_spec(), k, kat, q, qat, hd);
    lemma_sum_same(hd, |j: int| v(k[kat + j]) * v(q[qat + j]), f);
    let p = v(products(S::zero_spec(), k, kat, q, qat, hd));
    let zero = v(S::zero_spec());
    lemma_congruent_same(whole, m);
    lemma_congruent_plus(zero, 0, whole, whole, m);
    lemma_congruent_through(p, zero + whole, 0 + whole, m);
    lemma_congruent_flip(p, whole, m);
    lemma_congruent_through(v(lanes_total(l)), whole, p, m);
}

/// On 32-bit integers the product in lanes is the exact inner product, wrapped.
pub proof fn integer_dot_is_the_inner_product(
    k: Seq<i32>,
    kat: int,
    q: Seq<i32>,
    qat: int,
    hd: int,
)
    requires
        0 <= hd,
        hd % 16 == 0,
    ensures
        lanes_total(lane_sums(k, kat, q, qat, hd / 16)) == wrap_i32(
            sum(hd, |j: int| k[kat + j] * q[qat + j]),
        ),
{
    let v = |x: i32| x as int;
    let m = 0x1_0000_0000int;
    integers_are_exact();
    whole_dot_is_the_inner_product(v, m, k, kat, q, qat, hd);
    products_are_exact(0, k, kat, q, qat, hd);
    let f = |j: int| k[kat + j] * q[qat + j];
    lemma_sum_same(hd, product_term(k, kat, q, qat), f);
    let (a, b) = (
        lanes_total(lane_sums(k, kat, q, qat, hd / 16)),
        products(i32::zero_spec(), k, kat, q, qat, hd),
    );
    let t = choose|t: int| v(a) - v(b) == #[trigger] multiple(t, m);
    assert(a - b == t * m);
    assert(t == 0) by (nonlinear_arith)
        requires
            a - b == t * m,
            m == 0x1_0000_0000,
            -0x1_0000_0000 < a - b < 0x1_0000_0000,
    ;
}

} // verus!
