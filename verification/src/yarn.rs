//! Rotation angles for contexts beyond the trained length: slow rotations are
//! slowed down by the stretch, fast ones keep their speed, and those between the
//! two bounds are mixed.
use crate::analytic::Analytic;
use crate::ideal::is_ideal;
use crate::ideal_levels::stretched_angle_falls_in_proportion;
use vstd::prelude::*;

verus! {

/// How far the context is stretched.
pub const STRETCH: i64 = 32;

/// The least distance between the bounds, 0.001, in its single-precision encoding.
pub const LEAST_RAMP: u32 = 0x3a83_126f;

/// How much of its own angle pair `i` keeps: all of it up to the bound `low`, and
/// nothing from the bound `high` on.
pub open spec fn kept<S: Analytic>(i: usize, low: S, high: S) -> S {
    let y = S::of_int_spec(i as i64).minus_spec(low).over_spec(
        high.minus_spec(low).larger_spec(S::of_bits_spec(LEAST_RAMP)),
    );
    S::of_int_spec(1).minus_spec(y.clamped_spec(S::zero_spec(), S::of_int_spec(1)))
}

/// The angle of pair `i`, mixed from its own angle and the slowed one.
pub open spec fn mixed_angle<S: Analytic>(angle: S, i: usize, low: S, high: S) -> S {
    let mix = kept(i, low, high);
    let slow = angle.over_spec(S::of_int_spec(STRETCH));
    slow.times_spec(S::of_int_spec(1).minus_spec(mix)).plus_spec(angle.times_spec(mix))
}

/// The angle of pair `i`, mixed from its own angle and the slowed one.
pub fn stretched<S: Analytic>(angle: S, i: usize, low: S, high: S) -> (r: S)
    ensures
        r == mixed_angle(angle, i, low, high),
        forall|v: spec_fn(S) -> real| #[trigger]
            is_ideal(v) && i <= i64::MAX && v(high) - v(low) >= v(S::of_bits_spec(LEAST_RAMP)) ==> {
                &&& i as real <= v(low) ==> v(r) == v(angle)
                &&& i as real >= v(high) ==> 32real * v(r) == v(angle)
                &&& v(low) <= i as real <= v(high) ==> 32real * v(r) * (v(high) - v(low)) == v(
                    angle,
                ) * ((v(high) - v(low)) + 31real * (v(high) - i as real))
            },
{
    proof {
        let r = mixed_angle(angle, i, low, high);
        assert forall|v: spec_fn(S) -> real| #[trigger]
            is_ideal(v) && i <= i64::MAX && v(high) - v(low) >= v(
                S::of_bits_spec(LEAST_RAMP),
            ) implies {
            &&& i as real <= v(low) ==> v(r) == v(angle)
            &&& i as real >= v(high) ==> 32real * v(r) == v(angle)
            &&& v(low) <= i as real <= v(high) ==> 32real * v(r) * (v(high) - v(low)) == v(angle)
                * ((v(high) - v(low)) + 31real * (v(high) - i as real))
        } by {
            stretched_angle_falls_in_proportion(v, angle, i, low, high);
        }
    }
    let one: S = S::of_int(1);
    let ramp: S = high.minus(low).larger(S::of_bits(LEAST_RAMP));
    let y: S = S::of_int(i as i64).minus(low).over(ramp);
    let mix: S = one.minus(y.clamped(S::zero(), one));
    let slow: S = angle.over(S::of_int(STRETCH));
    slow.times(one.minus(mix)).plus(angle.times(mix))
}

} // verus!
