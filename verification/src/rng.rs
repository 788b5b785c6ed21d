//! The random numbers of sampling: a 64-bit xorshift generator, and the mixing of
//! a request's seed into its first state.
use vstd::arithmetic::div_mod::{
    lemma_fundamental_div_mod, lemma_mod_multiples_vanish, lemma_mul_mod_noop_left, lemma_small_mod,
};
use vstd::arithmetic::mul::lemma_mul_is_associative;
use vstd::prelude::*;

verus! {

/// The first state where no request has set one.
pub const DEFAULT_STATE: u64 = 0x9E37_79B9_7F4A_7C15;

/// The state after `x`; it is also the random number that is drawn.
pub open spec fn xorshift(x: u64) -> u64 {
    let a = x ^ (x << 13);
    let b = a ^ (a >> 7);
    b ^ (b << 17)
}

/// Draws a random number: the state moves on, and the new state is the number.
pub fn rng_next(state: &mut u64) -> (r: u64)
    ensures
        r == xorshift(*old(state)),
        *final(state) == r,
{
    let mut x: u64 = *state;
    x = x ^ (x << 13);
    x = x ^ (x >> 7);
    x = x ^ (x << 17);
    *state = x;
    x
}

/// Draws a number of 53 bits, the numerator of a fraction of 2^53.
pub fn rng_fraction(state: &mut u64) -> (r: u64)
    ensures
        *final(state) == xorshift(*old(state)),
        r == xorshift(*old(state)) / 2048,
        r < 0x20_0000_0000_0000,
{
    let x: u64 = rng_next(state);
    assert(x >> 11 == x / 2048 && x >> 11 < 0x20_0000_0000_0000) by (bit_vector);
    x >> 11
}

/// Draws a number of 24 bits, the numerator of a fraction of 2^24.
pub fn rng_short_fraction(state: &mut u64) -> (r: u32)
    ensures
        *final(state) == xorshift(*old(state)),
        r == xorshift(*old(state)) / 0x100_0000_0000,
        r < 0x100_0000,
{
    let x: u64 = rng_next(state);
    assert(x >> 40 == x / 0x100_0000_0000 && x >> 40 < 0x100_0000) by (bit_vector);
    (x >> 40) as u32
}

/// Draws one of `experts` experts and adds it to the set, unless it is there
/// already.
pub fn draw_expert(set: &mut Vec<usize>, state: &mut u64, experts: usize) -> (added: bool)
    requires
        0 < experts,
    ensures
        *final(state) == xorshift(*old(state)),
        ({
            let e = (xorshift(*old(state)) % (experts as u64)) as usize;
            &&& e < experts
            &&& added == !old(set)@.contains(e)
            &&& final(set)@ == if added {
                old(set)@.push(e)
            } else {
                old(set)@
            }
        }),
        old(set)@.no_duplicates() ==> final(set)@.no_duplicates(),
{
    let e: usize = (rng_next(state) % (experts as u64)) as usize;
    for i in 0..set.len()
        invariant
            forall|k: int| 0 <= k < i ==> set@[k] != e,
            set@ == old(set)@,
            *state == xorshift(*old(state)),
            e == (xorshift(*old(state)) % (experts as u64)) as usize,
            e < experts,
    {
        if set[i] == e {
            assert(set@.contains(e));
            return false;
        }
    }
    set.push(e);
    true
}

/// Different states move on to different states.
pub proof fn xorshift_is_injective(x: u64, y: u64)
    requires
        xorshift(x) == xorshift(y),
    ensures
        x == y,
{
    let (a, c) = (x ^ (x << 13), y ^ (y << 13));
    let (b, d) = (a ^ (a >> 7), c ^ (c >> 7));
    assert(b ^ (b << 17) == d ^ (d << 17) ==> b == d) by (bit_vector);
    assert(a ^ (a >> 7) == c ^ (c >> 7) ==> a == c) by (bit_vector);
    assert(x ^ (x << 13) == y ^ (y << 13) ==> x == y) by (bit_vector);
}

/// From any state but zero, zero is never reached; from zero, nothing else is.
pub proof fn xorshift_keeps_nonzero(x: u64)
    ensures
        xorshift(x) == 0 <==> x == 0,
{
    assert(xorshift(0) == 0) by (bit_vector);
    if xorshift(x) == 0 {
        xorshift_is_injective(x, 0);
    }
}

/// The product of two 64-bit numbers, wrapped.
pub open spec fn times(x: u64, y: u64) -> u64 {
    ((x * y) % 0x1_0000_0000_0000_0000) as u64
}

/// The splitmix64 mix of a seed.
pub open spec fn mix(seed: u64) -> u64 {
    let a = ((seed + 0x9E37_79B9_7F4A_7C15) % 0x1_0000_0000_0000_0000) as u64;
    let b = times(a ^ (a >> 30), 0xBF58_476D_1CE4_E5B9);
    let c = times(b ^ (b >> 27), 0x94D0_49BB_1331_11EB);
    c ^ (c >> 31)
}

/// The first state of a request with this seed: the mix, with the last bit set
/// so that it is never zero.
pub fn seed_state(seed: u64) -> (state: u64)
    ensures
        state == mix(seed) | 1,
        state != 0,
        state % 2 == 1,
{
    let a: u64 = seed.wrapping_add(0x9E37_79B9_7F4A_7C15);
    let b: u64 = (a ^ (a >> 30)).wrapping_mul(0xBF58_476D_1CE4_E5B9);
    let c: u64 = (b ^ (b >> 27)).wrapping_mul(0x94D0_49BB_1331_11EB);
    let z: u64 = c ^ (c >> 31);
    assert(z | 1 != 0 && (z | 1) % 2 == 1) by (bit_vector);
    z | 1
}

/// Multiplication by a number with an inverse can be undone.
proof fn lemma_times_undo(x: u64, c: u64, inverse: u64)
    requires
        (c * inverse) % 0x1_0000_0000_0000_0000 == 1,
    ensures
        (times(x, c) * inverse) % 0x1_0000_0000_0000_0000 == x,
{
    let m = 0x1_0000_0000_0000_0000int;
    lemma_mul_mod_noop_left(x * c, inverse as int, m);
    lemma_mul_is_associative(x as int, c as int, inverse as int);
    let p = c * inverse;
    lemma_fundamental_div_mod(p, m);
    let k = p / m;
    assert(x * p == m * (x * k) + x) by (nonlinear_arith)
        requires
            p == m * k + 1,
    ;
    lemma_mod_multiples_vanish(x * k, x as int, m);
    lemma_small_mod(x as nat, m as nat);
}

/// No two seeds mix to the same number; so two seeds have the same first state
/// only where their mixes differ in the last bit alone.
pub proof fn mix_is_injective(s: u64, t: u64)
    requires
        mix(s) == mix(t),
    ensures
        s == t,
{
    let m = 0x1_0000_0000_0000_0000int;
    let (a, e) = (
        ((s + 0x9E37_79B9_7F4A_7C15) % m) as u64,
        ((t + 0x9E37_79B9_7F4A_7C15) % m) as u64,
    );
    let (f, g) = (a ^ (a >> 30), e ^ (e >> 30));
    let (b, h) = (times(f, 0xBF58_476D_1CE4_E5B9), times(g, 0xBF58_476D_1CE4_E5B9));
    let (i, j) = (b ^ (b >> 27), h ^ (h >> 27));
    let (c, k) = (times(i, 0x94D0_49BB_1331_11EB), times(j, 0x94D0_49BB_1331_11EB));
    assert(c ^ (c >> 31) == k ^ (k >> 31) ==> c == k) by (bit_vector);
    lemma_times_undo(i, 0x94D0_49BB_1331_11EB, 0x3196_42B2_D24D_8EC3);
    lemma_times_undo(j, 0x94D0_49BB_1331_11EB, 0x3196_42B2_D24D_8EC3);
    assert(b ^ (b >> 27) == h ^ (h >> 27) ==> b == h) by (bit_vector);
    lemma_times_undo(f, 0xBF58_476D_1CE4_E5B9, 0x96DE_1B17_3F11_9089);
    lemma_times_undo(g, 0xBF58_476D_1CE4_E5B9, 0x96DE_1B17_3F11_9089);
    assert(a ^ (a >> 30) == e ^ (e >> 30) ==> a == e) by (bit_vector);
}

/// The generator is linear in the bits of its state: states that are joined bit by bit
/// move on to what they move on to alone, joined in the same way.
pub proof fn xorshift_is_linear(x: u64, y: u64)
    ensures
        xorshift(x ^ y) == xorshift(x) ^ xorshift(y),
{
    assert(xorshift(x ^ y) == xorshift(x) ^ xorshift(y)) by (bit_vector);
}

/// The seed that a mix came from: each step of the mix undone, the last one first.
pub open spec fn unmixed(z: u64) -> u64 {
    let c = z ^ (z >> 31) ^ (z >> 62);
    let i = times(c, 0x3196_42B2_D24D_8EC3);
    let b = i ^ (i >> 27) ^ (i >> 54);
    let f = times(b, 0x96DE_1B17_3F11_9089);
    let a = f ^ (f >> 30) ^ (f >> 60);
    ((a + 0x1_0000_0000_0000_0000 - 0x9E37_79B9_7F4A_7C15) % 0x1_0000_0000_0000_0000) as u64
}

/// The mix of a seed can be undone, whatever the seed.
pub proof fn mix_is_undone(seed: u64)
    ensures
        unmixed(mix(seed)) == seed,
{
    let m = 0x1_0000_0000_0000_0000int;
    let a = ((seed + 0x9E37_79B9_7F4A_7C15) % m) as u64;
    let f = a ^ (a >> 30);
    let b = times(f, 0xBF58_476D_1CE4_E5B9);
    let i = b ^ (b >> 27);
    let c = times(i, 0x94D0_49BB_1331_11EB);
    let z = c ^ (c >> 31);
    assert(mix(seed) == z);
    assert(z ^ (z >> 31) ^ (z >> 62) == c) by (bit_vector)
        requires
            z == c ^ (c >> 31),
    ;
    lemma_times_undo(i, 0x94D0_49BB_1331_11EB, 0x3196_42B2_D24D_8EC3);
    assert(times(c, 0x3196_42B2_D24D_8EC3) == i);
    assert(i ^ (i >> 27) ^ (i >> 54) == b) by (bit_vector)
        requires
            i == b ^ (b >> 27),
    ;
    lemma_times_undo(f, 0xBF58_476D_1CE4_E5B9, 0x96DE_1B17_3F11_9089);
    assert(times(b, 0x96DE_1B17_3F11_9089) == f);
    assert(f ^ (f >> 30) ^ (f >> 60) == a) by (bit_vector)
        requires
            f == a ^ (a >> 30),
    ;
}

} // verus!
