//! Dense vector steps of a forward pass, in the order of operations in which they
//! round: products of a matrix and a vector, norms, residuals and rotations.
use crate::arith::{lemma_wrap_plus, sum, wrap_i32};
use crate::ideal::{adds, series};
use crate::ideal_dense::{
    is_image, is_turning, rotation_turns_each_pair, rows_are_inner_products, squares_add_up,
};
use crate::scalar::Scalar;
use vstd::arithmetic::mul::{lemma_mul_inequality, lemma_mul_is_distributive_add_other_way};
use vstd::prelude::*;

verus! {

/// `acc` after `n` products of `w` from place `wat` on with `x` from place `xat`
/// on, each product rounded before it is added.
pub open spec fn products<S: Scalar>(
    acc: S,
    w: Seq<S>,
    wat: int,
    x: Seq<S>,
    xat: int,
    n: int,
) -> S
    decreases n,
{
    if n <= 0 {
        acc
    } else {
        products(acc, w, wat, x, xat, n - 1).mul_plus_spec(w[wat + n - 1], x[xat + n - 1])
    }
}

/// Adds `n` products to `acc`.
pub fn add_products<S: Scalar>(
    acc: S,
    w: &[S],
    wat: usize,
    x: &[S],
    xat: usize,
    n: usize,
) -> (r: S)
    requires
        wat + n <= w.len(),
        xat + n <= x.len(),
    ensures
        r == products(acc, w@, wat as int, x@, xat as int, n as int),
{
    let mut sum: S = acc;
    for j in 0..n
        invariant
            wat + n <= w.len(),
            xat + n <= x.len(),
            sum == products(acc, w@, wat as int, x@, xat as int, j as int),
    {
        assert(w@.len() == w.len() && x@.len() == x.len());
        sum = sum.mul_plus(w[wat + j], x[xat + j]);
    }
    sum
}

/// The rows of a matrix fit into `len` places.
proof fn lemma_row_fits(r: int, rows: int, cols: int, len: int)
    requires
        0 <= r < rows,
        0 <= cols,
        rows * cols <= len,
    ensures
        0 <= r * cols,
        r * cols + cols <= len,
{
    lemma_mul_inequality(r + 1, rows, cols);
    lemma_mul_is_distributive_add_other_way(cols, r, 1);
    assert(0 <= r * cols) by (nonlinear_arith)
        requires
            0 <= r,
            0 <= cols,
    ;
}

/// The product of a matrix and a vector, each row's sum started from the bias.
/// The router's logits are such a product.
pub fn matvec<S: Scalar>(w: &[S], x: &[S], b: &[S], rows: usize, cols: usize) -> (r: Vec<S>)
    requires
        rows * cols <= w.len(),
        rows > 0 ==> cols <= x.len(),
        rows <= b.len(),
    ensures
        r@.len() == rows,
        forall|i: int|
            0 <= i < rows ==> #[trigger] r@[i] == products(b@[i], w@, i * cols, x@, 0, cols as int),
        forall|v: spec_fn(S) -> real| #[trigger] adds(v) ==> is_image(
            v,
            r@,
            w@,
            x@,
            b@,
            rows as int,
            cols as int,
        ),
{
    let mut out: Vec<S> = Vec::new();
    for i in 0..rows
        invariant
            rows * cols <= w.len(),
            rows > 0 ==> cols <= x.len(),
            rows <= b.len(),
            out@.len() == i,
            forall|k: int|
                0 <= k < i ==> #[trigger] out@[k] == products(
                    b@[k],
                    w@,
                    k * cols,
                    x@,
                    0,
                    cols as int,
                ),
    {
        proof {
            lemma_row_fits(i as int, rows as int, cols as int, w@.len() as int);
        }
        assert(w@.len() == w.len());
        out.push(add_products(b[i], w, i * cols, x, 0, cols));
    }
    proof {
        assert forall|v: spec_fn(S) -> real| #[trigger] adds(v) implies is_image(
            v,
            out@,
            w@,
            x@,
            b@,
            rows as int,
            cols as int,
        ) by {
            rows_are_inner_products(v, out@, w@, x@, b@, rows as int, cols as int);
        }
    }
    out
}

/// The product of a matrix and a vector, each row's sum started from zero and the
/// bias added last.
pub fn matvec_bias_last<S: Scalar>(
    w: &[S],
    x: &[S],
    b: &[S],
    rows: usize,
    cols: usize,
) -> (r: Vec<S>)
    requires
        rows * cols <= w.len(),
        rows > 0 ==> cols <= x.len(),
        rows <= b.len(),
    ensures
        r@.len() == rows,
        forall|i: int|
            0 <= i < rows ==> #[trigger] r@[i] == products(
                S::zero_spec(),
                w@,
                i * cols,
                x@,
                0,
                cols as int,
            ).plus_spec(b@[i]),
        forall|v: spec_fn(S) -> real| #[trigger] adds(v) ==> is_image(
            v,
            r@,
            w@,
            x@,
            b@,
            rows as int,
            cols as int,
        ),
{
    let mut out: Vec<S> = Vec::new();
    for i in 0..rows
        invariant
            rows * cols <= w.len(),
            rows > 0 ==> cols <= x.len(),
            rows <= b.len(),
            out@.len() == i,
            forall|k: int|
                0 <= k < i ==> #[trigger] out@[k] == products(
                    S::zero_spec(),
                    w@,
                    k * cols,
                    x@,
                    0,
                    cols as int,
                ).plus_spec(b@[k]),
    {
        proof {
            lemma_row_fits(i as int, rows as int, cols as int, w@.len() as int);
        }
        assert(w@.len() == w.len());
        let sum: S = add_products(S::zero(), w, i * cols, x, 0, cols);
        out.push(sum.plus(b[i]));
    }
    proof {
        assert forall|v: spec_fn(S) -> real| #[trigger] adds(v) implies is_image(
            v,
            out@,
            w@,
            x@,
            b@,
            rows as int,
            cols as int,
        ) by {
            rows_are_inner_products(v, out@, w@, x@, b@, rows as int, cols as int);
        }
    }
    out
}

/// The sum of the squares of `x[a .. b]`.
pub fn sum_squares<S: Scalar>(x: &[S], a: usize, b: usize) -> (r: S)
    requires
        a <= b <= x.len(),
    ensures
        r == products(S::zero_spec(), x@, a as int, x@, a as int, b - a),
        forall|v: spec_fn(S) -> real| #[trigger]
            adds(v) ==> v(r) == series(b - a, |j: int| v(x@[a + j]) * v(x@[a + j])),
{
    proof {
        assert forall|v: spec_fn(S) -> real| #[trigger] adds(v) implies v(
            products(S::zero_spec(), x@, a as int, x@, a as int, b - a),
        ) == series(b - a, |j: int| v(x@[a + j]) * v(x@[a + j])) by {
            squares_add_up(v, x@, a as int, b - a);
        }
    }
    add_products(S::zero(), x, a, x, a, b - a)
}

/// A number times `inv` and then times its weight.
pub open spec fn normed<S: Scalar>(x: S, inv: S, w: S) -> S {
    x.times_spec(inv).times_spec(w)
}

/// The numbers `x[a .. b]`, each times `inv` and then times its weight.
pub fn rmsnorm<S: Scalar>(x: &[S], inv: S, w: &[S], a: usize, b: usize) -> (r: Vec<S>)
    requires
        a <= b <= x.len(),
        b <= w.len(),
    ensures
        r@.len() == b - a,
        forall|i: int|
            0 <= i < b - a ==> #[trigger] r@[i] == normed(x@[a + i], inv, w@[a + i]),
{
    let mut out: Vec<S> = Vec::new();
    for i in a..b
        invariant
            a <= b <= x.len(),
            b <= w.len(),
            out@.len() == i - a,
            forall|k: int|
                0 <= k < i - a ==> #[trigger] out@[k] == normed(x@[a + k], inv, w@[a + k]),
    {
        out.push(x[i].times(inv).times(w[i]));
    }
    out
}

/// Adds `w` times the `n` numbers of `y` from place `yat` on to `x` from place
/// `at` on.
pub fn add_scaled<S: Scalar>(x: &mut [S], at: usize, w: S, y: &[S], yat: usize, n: usize)
    requires
        at + n <= old(x)@.len(),
        yat + n <= y.len(),
    ensures
        final(x)@.len() == old(x)@.len(),
        forall|i: int|
            0 <= i < old(x)@.len() ==> #[trigger] final(x)@[i] == if at <= i < at + n {
                old(x)@[i].mul_plus_spec(w, y@[yat + i - at])
            } else {
                old(x)@[i]
            },
        forall|v: spec_fn(S) -> real, k: int|
            #![trigger v(final(x)@[at + k])]
            adds(v) && 0 <= k < n ==> v(final(x)@[at + k]) == v(old(x)@[at + k]) + v(w) * v(
                y@[yat + k],
            ),
{
    for k in 0..n
        invariant
            at + n <= x@.len(),
            yat + n <= y.len(),
            x@.len() == old(x)@.len(),
            forall|i: int|
                0 <= i < x@.len() ==> #[trigger] x@[i] == if at <= i < at + k {
                    old(x)@[i].mul_plus_spec(w, y@[yat + i - at])
                } else {
                    old(x)@[i]
                },
    {
        assert(x@.len() == x.len() && y@.len() == y.len());
        let sum: S = x[at + k].mul_plus(w, y[yat + k]);
        x[at + k] = sum;
    }
}

/// The first number of a pair after a turn by an angle with cosine `c` and sine
/// `s`.
pub open spec fn turned_first<S: Scalar>(a: S, b: S, c: S, s: S) -> S {
    a.times_spec(c).minus_spec(b.times_spec(s))
}

/// The second number of a pair after the turn.
pub open spec fn turned_second<S: Scalar>(a: S, b: S, c: S, s: S) -> S {
    b.times_spec(c).plus_spec(a.times_spec(s))
}

/// The places of a head's pairs: number `i` of the first half with number `i` of
/// the second.
pub open spec fn turned<S: Scalar>(
    v: Seq<S>,
    at: int,
    half: int,
    table: Seq<S>,
    tat: int,
    i: int,
) -> S {
    if at <= i < at + half {
        let k = i - at;
        turned_first(v[i], v[i + half], table[tat + 2 * k], table[tat + 2 * k + 1])
    } else {
        let k = i - at - half;
        turned_second(v[i - half], v[i], table[tat + 2 * k], table[tat + 2 * k + 1])
    }
}

/// Turns the `2 * half` numbers of a head, which start at place `at`, by the
/// cosines and sines that stand in pairs in `table` from place `tat` on.
pub fn rope<S: Scalar>(v: &mut [S], at: usize, half: usize, table: &[S], tat: usize)
    requires
        at + 2 * half <= old(v)@.len(),
        tat + 2 * half <= table.len(),
    ensures
        final(v)@.len() == old(v)@.len(),
        forall|i: int|
            0 <= i < old(v)@.len() ==> #[trigger] final(v)@[i] == if at <= i < at + 2 * half {
                turned(old(v)@, at as int, half as int, table@, tat as int, i)
            } else {
                old(v)@[i]
            },
        forall|value: spec_fn(S) -> real, k: int|
            0 <= k < half && #[trigger] is_turning(value, table@, tat as int, k) ==> ({
                let (a, b) = (value(old(v)@[at + k]), value(old(v)@[at + half + k]));
                let (c, s) = (value(table@[tat + 2 * k]), value(table@[tat + 2 * k + 1]));
                &&& value(final(v)@[at + k]) == a * c - b * s
                &&& value(final(v)@[at + half + k]) == a * s + b * c
            }),
{
    proof {
        assert forall|value: spec_fn(S) -> real, k: int|
            0 <= k < half && #[trigger] is_turning(value, table@, tat as int, k) implies ({
            let (a, b) = (value(old(v)@[at + k]), value(old(v)@[at + half + k]));
            let (c, s) = (value(table@[tat + 2 * k]), value(table@[tat + 2 * k + 1]));
            &&& value(
                turned(old(v)@, at as int, half as int, table@, tat as int, at + k),
            ) == a * c - b * s
            &&& value(
                turned(old(v)@, at as int, half as int, table@, tat as int, at + half + k),
            ) == a * s + b * c
        }) by {
            rotation_turns_each_pair(
                value,
                old(v)@,
                at as int,
                half as int,
                table@,
                tat as int,
                k,
            );
        }
    }
    assert(v@.len() == v.len());
    for k in 0..half
        invariant
            at + 2 * half <= v@.len(),
            v@.len() == v.len(),
            tat + 2 * half <= table.len(),
            v@.len() == old(v)@.len(),
            forall|i: int|
                0 <= i < v@.len() ==> #[trigger] v@[i] == if at <= i < at + k || at + half <= i
                    < at + half + k {
                    turned(old(v)@, at as int, half as int, table@, tat as int, i)
                } else {
                    old(v)@[i]
                },
    {
        assert(v@.len() == v.len() && table@.len() == table.len());
        let c: S = table[tat + 2 * k];
        let s: S = table[tat + 2 * k + 1];
        let a: S = v[at + k];
        let b: S = v[at + half + k];
        let first: S = a.times(c).minus(b.times(s));
        let second: S = b.times(c).plus(a.times(s));
        v[at + k] = first;
        v[at + half + k] = second;
    }
}

/// In `table` the cosine and the sine of each pair stand side by side, which in
/// `turns` stand among the cosines and among the sines of their position.
pub open spec fn is_turn_table<S: Scalar>(table: Seq<S>, turns: Seq<S>, half: int, n: int) -> bool {
    &&& table.len() == n * (2 * half)
    &&& forall|pos: int, i: int|
        #![trigger table[pos * (2 * half) + 2 * i]]
        0 <= pos < n && 0 <= i < half ==> table[pos * (2 * half) + 2 * i] == turns[pos * (2 * half)
            + i]
    &&& forall|pos: int, i: int|
        #![trigger table[pos * (2 * half) + 2 * i + 1]]
        0 <= pos < n && 0 <= i < half ==> table[pos * (2 * half) + 2 * i + 1] == turns[pos * (2
            * half) + half + i]
}

/// A turn by the table is the turn by the cosines and sines themselves: each pair
/// of a head at position `pos` is turned by those of the position.
pub proof fn table_turns_by_its_angles<S: Scalar>(
    v: Seq<S>,
    at: int,
    half: int,
    table: Seq<S>,
    turns: Seq<S>,
    n: int,
    pos: int,
    k: int,
)
    requires
        is_turn_table(table, turns, half, n),
        0 <= pos < n,
        0 <= k < half,
    ensures
        turned(v, at, half, table, pos * (2 * half), at + k) == turned_first(
            v[at + k],
            v[at + half + k],
            turns[pos * (2 * half) + k],
            turns[pos * (2 * half) + half + k],
        ),
        turned(v, at, half, table, pos * (2 * half), at + half + k) == turned_second(
            v[at + k],
            v[at + half + k],
            turns[pos * (2 * half) + k],
            turns[pos * (2 * half) + half + k],
        ),
{
    assert(at + k + half == at + half + k);
    assert(table[pos * (2 * half) + 2 * k] == turns[pos * (2 * half) + k]);
    assert(table[pos * (2 * half) + 2 * k + 1] == turns[pos * (2 * half) + half + k]);
}

/// A table of turns for the first `n` positions. For each position `turns` holds
/// the cosines of all pairs and then their sines; in the table each cosine stands
/// with its sine.
pub fn rope_init<S: Scalar>(turns: &[S], half: usize, n: usize) -> (table: Vec<S>)
    requires
        turns.len() == n * (2 * half),
    ensures
        is_turn_table(table@, turns@, half as int, n as int),
{
    let mut table: Vec<S> = Vec::new();
    if half == 0 {
        assert(n * 0 == 0);
        return table;
    }
    assert(turns@.len() == turns.len());
    assert(2 * half <= usize::MAX || n == 0) by (nonlinear_arith)
        requires
            n * (2 * half) <= usize::MAX,
    ;
    assert(0 * (2 * half) == 0);
    for pos in 0..n
        invariant
            0 < half,
            turns@.len() == turns.len(),
            turns@.len() == n * (2 * half),
            table@.len() == pos * (2 * half),
            forall|p: int, i: int|
                #![trigger table@[p * (2 * half) + 2 * i]]
                0 <= p < pos && 0 <= i < half ==> table@[p * (2 * half) + 2 * i] == turns@[p * (2
                    * half) + i],
            forall|p: int, i: int|
                #![trigger table@[p * (2 * half) + 2 * i + 1]]
                0 <= p < pos && 0 <= i < half ==> table@[p * (2 * half) + 2 * i + 1] == turns@[p
                    * (2 * half) + half + i],
    {
        proof {
            lemma_row_fits(pos as int, n as int, 2 * half, turns@.len() as int);
        }
        let base: usize = pos * (2 * half);
        let ghost before = table@;
        for i in 0..half
            invariant
                base == pos * (2 * half),
                base + 2 * half <= turns@.len(),
                turns@.len() == turns.len(),
                table@.len() == base + 2 * i,
                before.len() == base,
                forall|k: int| 0 <= k < base ==> #[trigger] table@[k] == before[k],
                forall|k: int|
                    #![trigger table@[base + 2 * k]]
                    0 <= k < i ==> table@[base + 2 * k] == turns@[base + k],
                forall|k: int|
                    #![trigger table@[base + 2 * k + 1]]
                    0 <= k < i ==> table@[base + 2 * k + 1] == turns@[base + half + k],
        {
            table.push(turns[base + i]);
            table.push(turns[base + half + i]);
        }
        proof {
            assert((pos + 1) * (2 * half) == base + 2 * half) by (nonlinear_arith)
                requires
                    base == pos * (2 * half),
            ;
            assert forall|p: int, i: int|
                0 <= p < pos + 1 && 0 <= i < half implies #[trigger] table@[p * (2 * half) + 2 * i]
                == turns@[p * (2 * half) + i] by {
                if p < pos {
                    lemma_row_fits(p, pos as int, 2 * half, base as int);
                    assert(before[p * (2 * half) + 2 * i] == turns@[p * (2 * half) + i]);
                } else {
                    assert(table@[base + 2 * i] == turns@[base + i]);
                }
            }
            assert forall|p: int, i: int|
                0 <= p < pos + 1 && 0 <= i < half implies #[trigger] table@[p * (2 * half) + 2 * i
                + 1] == turns@[p * (2 * half) + half + i] by {
                if p < pos {
                    lemma_row_fits(p, pos as int, 2 * half, base as int);
                    assert(before[p * (2 * half) + 2 * i + 1] == turns@[p * (2 * half) + half + i]);
                } else {
                    assert(table@[base + 2 * i + 1] == turns@[base + half + i]);
                }
            }
        }
    }
    table
}

/// Product `j` of two runs of 32-bit numbers.
pub open spec fn product_term(w: Seq<i32>, wat: int, x: Seq<i32>, xat: int) -> spec_fn(int) -> int {
    |j: int| w[wat + j] * x[xat + j]
}

/// On 32-bit integers the products add up to the exact sum, wrapped.
pub proof fn products_are_exact(
    acc: i32,
    w: Seq<i32>,
    wat: int,
    x: Seq<i32>,
    xat: int,
    n: int,
)
    requires
        0 <= n,
    ensures
        products(acc, w, wat, x, xat, n) == wrap_i32(acc + sum(n, product_term(w, wat, x, xat))),
    decreases n,
{
    if n > 0 {
        products_are_exact(acc, w, wat, x, xat, n - 1);
        let before = acc + sum(n - 1, product_term(w, wat, x, xat));
        lemma_wrap_plus(before, w[wat + n - 1] * x[xat + n - 1]);
    }
}

} // verus!
