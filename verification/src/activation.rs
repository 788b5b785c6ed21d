//! The gated activations of the experts.
use crate::analytic::Analytic;
use crate::ideal_levels::{
    clamped_gate_is_a_bounded_sigmoid, is_gated, is_opposite, plain_gate_is_a_sigmoid,
};
use crate::quantize::{in_range, level_of, quant_run, scale_of};
use crate::routing::{act_item, ActItem};
use vstd::prelude::*;

verus! {

/// Minus 1.702, in its single-precision encoding.
pub const MINUS_ALPHA: u32 = 0xbfd9_db23;

/// What bounds the operands of the clamped activation.
pub const LIMIT: i64 = 7;

/// The clamped gated activation: the gating operand is kept from above, and the other
/// from both sides.
pub open spec fn clamped_gate<S: Analytic>(g: S, u: S) -> S {
    let one = S::of_int_spec(1);
    let x = g.smaller_spec(S::of_int_spec(LIMIT));
    let y = u.clamped_spec(S::of_int_spec((-LIMIT) as i64), S::of_int_spec(LIMIT));
    x.over_spec(
        one.plus_spec(S::of_bits_spec(MINUS_ALPHA).times_spec(x).exp_spec()),
    ).times_spec(y.plus_spec(one))
}

/// The clamped gated activation.
pub fn swiglu<S: Analytic>(g: S, u: S) -> (r: S)
    ensures
        r == clamped_gate(g, u),
        forall|v: spec_fn(S) -> real, t: S| #[trigger]
            is_gated(v, g, t) ==> v(r) * (1real + v(t.exp_spec())) == (if v(g) < 7real {
                v(g)
            } else {
                7real
            }) * (1real + if v(u) < -7real {
                -7real
            } else if v(u) > 7real {
                7real
            } else {
                v(u)
            }),
{
    proof {
        assert forall|v: spec_fn(S) -> real, t: S| #[trigger] is_gated(v, g, t) implies v(
            clamped_gate(g, u),
        ) * (1real + v(t.exp_spec())) == (if v(g) < 7real {
            v(g)
        } else {
            7real
        }) * (1real + if v(u) < -7real {
            -7real
        } else if v(u) > 7real {
            7real
        } else {
            v(u)
        }) by {
            clamped_gate_is_a_bounded_sigmoid(v, g, u, t);
        }
    }
    let one: S = S::of_int(1);
    let x: S = g.smaller(S::of_int(LIMIT));
    let y: S = u.clamped(S::of_int(-LIMIT), S::of_int(LIMIT));
    x.over(one.plus(S::of_bits(MINUS_ALPHA).times(x).exp())).times(y.plus(one))
}

/// The gated activation without bounds.
pub open spec fn plain_gate<S: Analytic>(g: S, u: S) -> S {
    g.over_spec(
        S::of_int_spec(1).plus_spec(S::of_int_spec((-1int) as i64).times_spec(g).exp_spec()),
    ).times_spec(u)
}

/// The gated activation without bounds.
pub fn silu<S: Analytic>(g: S, u: S) -> (r: S)
    ensures
        r == plain_gate(g, u),
        forall|v: spec_fn(S) -> real, t: S| #[trigger]
            is_opposite(v, g, t) ==> v(r) * (1real + v(t.exp_spec())) == v(g) * v(u),
{
    proof {
        assert forall|v: spec_fn(S) -> real, t: S| #[trigger] is_opposite(v, g, t) implies v(
            plain_gate(g, u),
        ) * (1real + v(t.exp_spec())) == v(g) * v(u) by {
            plain_gate_is_a_sigmoid(v, g, u, t);
        }
    }
    g.over(S::of_int(1).plus(S::of_int(-1).times(g).exp())).times(u)
}

/// The clamped activations of the blocks of 32 at places `gate` and `up`.
pub open spec fn block_gates<S: Analytic>(gu: Seq<S>, gate: int, up: int) -> Seq<S> {
    Seq::new(32, |k: int| clamped_gate(gu[gate + k], gu[up + k]))
}

/// The clamped activations of the blocks of 32 at places `gate` and `up`, in levels,
/// with their scale.
pub fn activated<S: Analytic>(gu: &[S], gate: usize, up: usize) -> (r: (Vec<i8>, S))
    requires
        gate + 32 <= gu.len(),
        up + 32 <= gu.len(),
    ensures
        ({
            let h = block_gates(gu@, gate as int, up as int);
            &&& r.1 == scale_of(h, 0, 32)
            &&& r.0@.len() == 32
            &&& forall|k: int| 0 <= k < 32 ==> #[trigger] r.0@[k] == level_of(h[k], r.1)
            &&& in_range(r.0@)
        }),
{
    let mut h: Vec<S> = Vec::new();
    for k in 0..32usize
        invariant
            gate + 32 <= gu.len(),
            up + 32 <= gu.len(),
            h@.len() == k,
            forall|i: int|
                0 <= i < k ==> #[trigger] h@[i] == clamped_gate(gu@[gate + i], gu@[up + i]),
    {
        h.push(swiglu(gu[gate + k], gu[up + k]));
    }
    assert(h@ =~= block_gates(gu@, gate as int, up as int));
    quant_run(h.as_slice(), 0, 32)
}

/// Activation item `it`: its places, its levels and their scale. A row has `nb`
/// blocks of 32.
pub fn activate<S: Analytic>(gu: &[S], it: usize, nb: usize, topk: usize) -> (r: (
    ActItem,
    Vec<i8>,
    S,
))
    requires
        it < topk * nb,
        topk * (2 * (32 * nb)) <= gu.len(),
    ensures
        r.0.gate == (it / nb) * (2 * (32 * nb)) + 32 * (it % nb),
        r.0.up == r.0.gate + 32 * nb,
        r.0.out == 32 * it,
        r.0.scale == it,
        ({
            let h = block_gates(gu@, r.0.gate as int, r.0.up as int);
            &&& r.2 == scale_of(h, 0, 32)
            &&& r.1@.len() == 32
            &&& forall|k: int| 0 <= k < 32 ==> #[trigger] r.1@[k] == level_of(h[k], r.2)
            &&& in_range(r.1@)
        }),
{
    let a: ActItem = act_item(it, nb, topk);
    let (levels, scale) = activated(gu, a.gate, a.up);
    (a, levels, scale)
}

} // verus!
