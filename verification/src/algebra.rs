//! Small facts about products of reals, each from the one before.
use vstd::prelude::*;

verus! {

/// The order of two factors does not matter.
pub proof fn lemma_swap(a: real, b: real)
    ensures
        a * b == b * a,
{
    assert(a * b == b * a) by (nonlinear_arith);
}

/// Nor does it matter which of three factors are multiplied first.
pub proof fn lemma_group(a: real, b: real, c: real)
    ensures
        (a * b) * c == a * (b * c),
{
    assert((a * b) * c == a * (b * c)) by (nonlinear_arith);
}

/// A sum is multiplied term by term.
pub proof fn lemma_spread(a: real, b: real, c: real)
    ensures
        (a + b) * c == a * c + b * c,
        c * (a + b) == c * a + c * b,
        (a - b) * c == a * c - b * c,
        c * (a - b) == c * a - c * b,
{
    assert((a + b) * c == a * c + b * c) by (nonlinear_arith);
    assert(c * (a + b) == c * a + c * b) by (nonlinear_arith);
    assert((a - b) * c == a * c - b * c) by (nonlinear_arith);
    assert(c * (a - b) == c * a - c * b) by (nonlinear_arith);
}

/// One and zero as factors.
pub proof fn lemma_simple(a: real)
    ensures
        1real * a == a,
        a * 1real == a,
        0real * a == 0real,
        a * 0real == 0real,
{
    assert(1real * a == a) by (nonlinear_arith);
    assert(a * 1real == a) by (nonlinear_arith);
    assert(0real * a == 0real) by (nonlinear_arith);
    assert(a * 0real == 0real) by (nonlinear_arith);
}

/// The sign of a product.
pub proof fn lemma_sign(a: real, b: real)
    ensures
        a > 0real && b > 0real ==> a * b > 0real,
        a >= 0real && b >= 0real ==> a * b >= 0real,
        a <= 0real && b >= 0real ==> a * b <= 0real,
        a < 0real && b > 0real ==> a * b < 0real,
{
    if a > 0real && b > 0real {
        assert(a * b > 0real) by (nonlinear_arith)
            requires
                a > 0real,
                b > 0real,
        ;
    }
    if a < 0real && b > 0real {
        assert(a * b < 0real) by (nonlinear_arith)
            requires
                a < 0real,
                b > 0real,
        ;
    }
    lemma_simple(a);
    lemma_simple(b);
}

/// A square is not negative, and zero only for zero.
pub proof fn lemma_square(a: real)
    ensures
        a * a >= 0real,
        a != 0real ==> a * a > 0real,
{
    lemma_sign(a, a);
    lemma_sign(0real - a, 0real - a);
    assert((0real - a) * (0real - a) == a * a) by (nonlinear_arith);
    lemma_simple(a);
}

/// A common factor that is not zero can be taken from both sides.
pub proof fn lemma_cancel(a: real, b: real, c: real)
    requires
        c != 0real,
        a * c == b * c,
    ensures
        a == b,
{
    lemma_spread(a, b, c);
    let d = a - b;
    assert(d * c == 0real);
    if d != 0real {
        lemma_square(d);
        lemma_square(c);
        lemma_sign(d * d, c * c);
        lemma_group(d, d, c * c);
        lemma_group(d, c, c);
        lemma_simple(c);
        lemma_simple(d);
        assert((d * d) * (c * c) == d * (d * (c * c)));
        assert(d * (c * c) == (d * c) * c);
        assert((d * c) * c == 0real);
    }
}

/// Multiplied with the same positive number, the smaller stays the smaller.
pub proof fn lemma_keeps_order(a: real, b: real, c: real)
    requires
        c > 0real,
    ensures
        a <= b <==> a * c <= b * c,
        a < b <==> a * c < b * c,
{
    lemma_spread(b, a, c);
    lemma_sign(b - a, c);
    lemma_spread(a, b, c);
    lemma_sign(a - b, c);
    lemma_simple(c);
}

/// The product of two products, grouped the other way.
pub proof fn lemma_exchange(a: real, b: real, c: real, d: real)
    ensures
        (a * b) * (c * d) == (a * c) * (b * d),
{
    lemma_group(a, b, c * d);
    lemma_group(b, c, d);
    lemma_swap(b, c);
    lemma_group(c, b, d);
    lemma_group(a, c, b * d);
}

/// The product of two sums, and of two differences.
pub proof fn lemma_expand(a: real, b: real, c: real, d: real)
    ensures
        (a + b) * (c + d) == a * c + a * d + b * c + b * d,
        (a - b) * (c - d) == a * c - a * d - b * c + b * d,
{
    lemma_spread(a, b, c + d);
    lemma_spread(c, d, a);
    lemma_spread(c, d, b);
    lemma_spread(a, b, c - d);
}

/// A quotient is what times the divisor is the dividend.
pub proof fn lemma_quotient(q: real, c: real, s: real)
    requires
        c > 0real,
        q * c == s,
    ensures
        s / c == q,
{
    let r = s / c;
    assert(r * c == s) by (nonlinear_arith)
        requires
            c > 0real,
            r == s / c,
    ;
    lemma_cancel(r, q, c);
}

} // verus!
