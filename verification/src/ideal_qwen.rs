//! What the units of a forward pass of the model with normalized heads come to where
//! nothing rounds: its embedding, norms, levels, rotations and attention.
use crate::algebra::lemma_swap;
use crate::analytic::Analytic;
use crate::arith::{lemma_sum_bounds, lemma_sum_same, sum};
use crate::attend::{plain_scores_of, taken};
use crate::config::Cfg;
use crate::dense::{normed, products, turned};
use crate::even::NT;
use crate::exact_qwen::weight_at;
use crate::ideal::{is_ideal, lemma_series_same, series};
use crate::ideal_attend::{
    key_product, plain_scores_are_inner_products, shared_place, taken_is_the_mean,
};
use crate::ideal_dense::{
    inverse_undoes_the_mean_square, lemma_squares, pair_at, products_add_up,
    rotation_turns_each_pair,
};
use crate::ideal_levels::{levels_stand_for_their_run, stands_for};
use crate::ideal_softmax::{total_adds_up, values_in};
use crate::kmat::TYPE_Q4_K;
use crate::norm::inverse_of;
use crate::piece::Piece;
use crate::q8::block_term;
use crate::qwen::head_normed;
use crate::qwen_pass::{is_run, run_levels, sums_of, Model, Shared, Turn};
use crate::schedule::Phase;
use crate::softmax::total_of;
use vstd::prelude::*;

verus! {

/// A unit of the embedding is 256 columns of the token's row, dequantized.
pub proof fn embed_unit_is_its_columns<S: Analytic>(
    model: Model<S>,
    c: Cfg,
    blob: Seq<u8>,
    layer: int,
    t: Turn<S>,
    b: Shared<S>,
    it: int,
    out: Seq<Piece<S>>,
)
    requires
        model.embed.ttype == TYPE_Q4_K,
        model.is_written(c, blob, Phase::Embed, layer, t, b, it, out),
    ensures
        out.len() == 1 && out[0] is Reals && out[0]->Reals_0@.len() == 256,
        forall|l: int|
            0 <= l < 256 ==> #[trigger] out[0]->Reals_0@[l] == weight_at::<S>(
                model.embed,
                blob,
                t.tok as int,
                256 * it + l,
            ),
{
    assert forall|l: int| 0 <= l < 256 implies #[trigger] out[0]->Reals_0@[l] == weight_at::<S>(
        model.embed,
        blob,
        t.tok as int,
        256 * it + l,
    ) by {
        assert((256 * it + l) / 256 == it && (256 * it + l) % 256 == l);
    }
}

/// A unit of the squares is the sum of the squares of its worker's run of the stream.
pub proof fn squares_unit_is_its_run<S: Analytic>(
    v: spec_fn(S) -> real,
    model: Model<S>,
    c: Cfg,
    blob: Seq<u8>,
    phase: Phase,
    layer: int,
    t: Turn<S>,
    b: Shared<S>,
    it: int,
    out: Seq<Piece<S>>,
)
    requires
        is_ideal(v),
        phase == Phase::AttnSquares || phase == Phase::FfnSquares || phase == Phase::HeadSquares,
        t.run.0 <= t.run.1,
        model.is_written(c, blob, phase, layer, t, b, it, out),
    ensures
        out.len() == 1 && out[0] is Reals && out[0]->Reals_0@.len() == 1,
        v(out[0]->Reals_0@[0]) == series(
            t.run.1 - t.run.0,
            |j: int| v(b.stream@[t.run.0 + j]) * v(b.stream@[t.run.0 + j]),
        ),
{
    let (x, from, n) = (b.stream@, t.run.0 as int, t.run.1 - t.run.0);
    products_add_up(v, S::zero_spec(), x, from, x, from, n);
    lemma_series_same(
        n,
        pair_at(v, x, from, x, from),
        |j: int| v(b.stream@[t.run.0 + j]) * v(b.stream@[t.run.0 + j]),
    );
}

/// A sum that goes on after the first `m` terms.
proof fn lemma_series_split(m: int, n: int, f: spec_fn(int) -> real, g: spec_fn(int) -> real)
    requires
        0 <= m,
        0 <= n,
        forall|j: int| 0 <= j < n ==> #[trigger] g(j) == f(m + j),
    ensures
        series(m + n, f) == series(m, f) + series(n, g),
    decreases n,
{
    if n > 0 {
        lemma_series_split(m, n - 1, f, g);
        assert(g(n - 1) == f(m + (n - 1)));
    }
}

/// The squares of one worker's run: worker `w` has the places `cut(w) .. cut(w + 1)`.
pub open spec fn run_squares<S>(
    v: spec_fn(S) -> real,
    x: Seq<S>,
    cut: spec_fn(int) -> int,
    w: int,
) -> real {
    series(cut(w + 1) - cut(w), |j: int| v(x[cut(w) + j]) * v(x[cut(w) + j]))
}

/// Wherever the runs of the workers are cut, their sums of squares add up to that of the
/// whole stream: none is left out and none is counted twice.
pub proof fn squares_of_all_runs_add_up<S>(
    v: spec_fn(S) -> real,
    x: Seq<S>,
    cut: spec_fn(int) -> int,
    workers: int,
)
    requires
        0 <= workers,
        cut(0) == 0,
        forall|w: int| 0 <= w < workers ==> #[trigger] cut(w) <= cut(w + 1),
    ensures
        0 <= cut(workers),
        series(workers, |w: int| run_squares(v, x, cut, w)) == series(
            cut(workers),
            |j: int| v(x[j]) * v(x[j]),
        ),
    decreases workers,
{
    let f = |w: int| run_squares(v, x, cut, w);
    let g = |j: int| v(x[j]) * v(x[j]);
    if workers > 0 {
        let w: int = workers - 1;
        squares_of_all_runs_add_up(v, x, cut, w);
        lemma_series_same(w, |w: int| run_squares(v, x, cut, w), f);
        lemma_series_same(cut(w), |j: int| v(x[j]) * v(x[j]), g);
        assert(cut(w) <= cut(w + 1));
        lemma_series_split(
            cut(w),
            cut(w + 1) - cut(w),
            g,
            |j: int| v(x[cut(w) + j]) * v(x[cut(w) + j]),
        );
        assert(f(w) == run_squares(v, x, cut, w));
    }
}

/// A unit of a norm is its number of the stream times one positive factor, the same for
/// all units, and times its weight: the square of the factor times the sum of all
/// workers' squares, and `eps` for each number, is the width.
pub proof fn norm_unit_is_one_factor<S: Analytic>(
    v: spec_fn(S) -> real,
    model: Model<S>,
    c: Cfg,
    blob: Seq<u8>,
    phase: Phase,
    layer: int,
    t: Turn<S>,
    b: Shared<S>,
    it: int,
    out: Seq<Piece<S>>,
) -> (f: real)
    requires
        is_ideal(v),
        phase == Phase::AttnNorm || phase == Phase::FfnNorm || phase == Phase::HeadNorm,
        0 < c.d <= i64::MAX,
        v(model.eps) >= 0real,
        series(12, |k: int| v(b.squares@[k])) >= 0real,
        series(12, |k: int| v(b.squares@[k])) + v(model.eps) > 0real,
        model.is_written(c, blob, phase, layer, t, b, it, out),
    ensures
        f > 0real,
        f * f * (series(12, |k: int| v(b.squares@[k])) + c.d as real * v(model.eps)) == c.d as real,
        out.len() == 1 && out[0] is Reals && out[0]->Reals_0@.len() == 1,
        phase == Phase::AttnNorm ==> v(out[0]->Reals_0@[0]) == f * v(b.stream@[it]) * v(
            model.layers@[layer].attn_norm@[it],
        ),
        phase == Phase::FfnNorm ==> v(out[0]->Reals_0@[0]) == f * v(b.stream@[it]) * v(
            model.layers@[layer].ffn_norm@[it],
        ),
        phase == Phase::HeadNorm ==> v(out[0]->Reals_0@[0]) == f * v(b.stream@[it]) * v(
            model.out_norm@[it],
        ),
{
    let x = b.stream@;
    let squares = total_of(S::zero_spec(), b.squares@, NT as int);
    total_adds_up(v, S::zero_spec(), b.squares@, NT as int);
    lemma_series_same(12, values_in(v, b.squares@), |k: int| v(b.squares@[k]));
    inverse_undoes_the_mean_square(v, squares, c.d, model.eps);
    let inv = inverse_of(squares, c.d, model.eps);
    let w = if phase == Phase::AttnNorm {
        model.layers@[layer].attn_norm@
    } else if phase == Phase::FfnNorm {
        model.layers@[layer].ffn_norm@
    } else {
        model.out_norm@
    };
    assert(out[0]->Reals_0@[0] == normed(x[it], inv, w[it]));
    lemma_swap(v(x[it]), v(inv));
    v(inv)
}

/// The pieces of a run of levels stand for the run: its levels and its scale, and the
/// sums of the levels by 32.
#[verifier::rlimit(40)]
pub proof fn run_stands_for_its_numbers<S: Analytic>(
    v: spec_fn(S) -> real,
    x: Seq<S>,
    at: int,
    w: int,
    out: Seq<Piece<S>>,
)
    requires
        is_ideal(v),
        w == 32 || w == 256,
        is_run(x, at, w, out),
    ensures
        out.len() == 3 && out[0] is Levels && out[1] is Reals && out[2] is Sums,
        out[1]->Reals_0@.len() == 1 && out[2]->Sums_0@.len() == w / 32,
        stands_for(v, out[0]->Levels_0@, out[1]->Reals_0@[0], x, at, w),
        forall|b: int|
            0 <= b < w / 32 ==> #[trigger] out[2]->Sums_0@[b] == sum(
                32,
                |i: int| out[0]->Levels_0@[32 * b + i] as int,
            ),
{
    let q = run_levels(x, at, w);
    levels_stand_for_their_run(v, q, x, at, w);
    assert forall|b: int| 0 <= b < w / 32 implies #[trigger] out[2]->Sums_0@[b] == sum(
        32,
        |i: int| out[0]->Levels_0@[32 * b + i] as int,
    ) by {
        let f = |i: int| out[0]->Levels_0@[32 * b + i] as int;
        lemma_sum_same(32, block_term(q, b), f);
        lemma_sum_bounds(32, block_term(q, b), -128, 127);
        assert(out[2]->Sums_0@[b] == sums_of(q)[b]);
    }
}

/// The levels, the scale and the sums of a unit stand for its run of numbers: of the
/// normalized stream, of what the heads have taken, or of the hidden layers.
pub proof fn quant_unit_stands_for_its_run<S: Analytic>(
    v: spec_fn(S) -> real,
    model: Model<S>,
    c: Cfg,
    blob: Seq<u8>,
    phase: Phase,
    layer: int,
    t: Turn<S>,
    b: Shared<S>,
    it: int,
    out: Seq<Piece<S>>,
)
    requires
        is_ideal(v),
        phase == Phase::AttnQuant || phase == Phase::FfnQuant || phase == Phase::HeadQuant || phase
            == Phase::AttendQuant || phase == Phase::HiddenQuant,
        model.is_written(c, blob, phase, layer, t, b, it, out),
    ensures
        ({
            let w = model.grain.width();
            let x = if phase == Phase::AttendQuant {
                b.mixed@
            } else if phase == Phase::HiddenQuant {
                b.hidden@
            } else {
                b.normed@
            };
            &&& out.len() == 3 && out[0] is Levels && out[1] is Reals && out[2] is Sums
            &&& out[1]->Reals_0@.len() == 1 && out[2]->Sums_0@.len() == w / 32
            &&& stands_for(v, out[0]->Levels_0@, out[1]->Reals_0@[0], x, w * it, w)
            &&& forall|k: int|
                0 <= k < w / 32 ==> #[trigger] out[2]->Sums_0@[k] == sum(
                    32,
                    |i: int| out[0]->Levels_0@[32 * k + i] as int,
                )
        }),
{
    let w = model.grain.width();
    let x = if phase == Phase::AttendQuant {
        b.mixed@
    } else if phase == Phase::HiddenQuant {
        b.hidden@
    } else {
        b.normed@
    };
    run_stands_for_its_numbers(v, x, w * it, w, out);
}

/// The number that a unit of the rotations turns: number `j` of its head times the factor
/// `f` and its weight.
pub open spec fn scaled_at<S>(v: spec_fn(S) -> real, f: real, x: Seq<S>, w: Seq<S>, j: int) -> real {
    f * v(x[j]) * v(w[j])
}

/// A head is first normalized by itself: all its numbers are multiplied with one positive
/// factor, and each with its weight, and the square of the factor times the sum of the
/// squares of the head, and `eps` for each number, is the width. Then it is turned pair
/// by pair by the cosines and sines of the position. A key head goes to the cache as it
/// was turned, with the values of the same number as they are.
#[verifier::rlimit(40)]
pub proof fn rope_unit_turns_its_head<S: Analytic>(
    v: spec_fn(S) -> real,
    model: Model<S>,
    c: Cfg,
    blob: Seq<u8>,
    layer: int,
    t: Turn<S>,
    b: Shared<S>,
    it: int,
    out: Seq<Piece<S>>,
    k: int,
) -> (f: real)
    requires
        is_ideal(v),
        c.hd % 2 == 0,
        c.hd <= i64::MAX,
        0 <= k < c.hd as int / 2,
        b.own@.len() == c.hd,
        v(model.eps) >= 0real,
        series(c.hd as int, |j: int| v(b.own@[j]) * v(b.own@[j])) + v(model.eps) > 0real,
        it >= c.nh ==> 0 <= (it - c.nh) * c.hd && (it - c.nh) * c.hd + c.hd <= b.values@.len(),
        model.is_written(c, blob, Phase::Rope, layer, t, b, it, out),
    ensures
        f > 0real,
        f * f * (series(c.hd as int, |j: int| v(b.own@[j]) * v(b.own@[j])) + c.hd as real * v(
            model.eps,
        )) == c.hd as real,
        out.len() == if it < c.nh {
            1int
        } else {
            3
        },
        out[0] is Reals && out[0]->Reals_0@.len() == c.hd,
        ({
            let half = c.hd as int / 2;
            let l = model.layers@[layer];
            let w = if it < c.nh {
                l.q_norm@
            } else {
                l.k_norm@
            };
            let (x, y) = (
                scaled_at(v, f, b.own@, w, k),
                scaled_at(v, f, b.own@, w, half + k),
            );
            let at = t.pos * c.hd + 2 * k;
            let (cosine, sine) = (v(model.turns@[at]), v(model.turns@[at + 1]));
            let head = out[0]->Reals_0@;
            &&& v(head[k]) == x * cosine - y * sine
            &&& v(head[half + k]) == x * sine + y * cosine
        }),
        it >= c.nh ==> out[1] is Reals && out[1]->Reals_0@ == out[0]->Reals_0@,
        it >= c.nh ==> out[2] is Reals && out[2]->Reals_0@.len() == c.hd && forall|j: int|
            0 <= j < c.hd ==> #[trigger] out[2]->Reals_0@[j] == b.values@[(it - c.nh) * c.hd + j],
{
    let half = c.hd as int / 2;
    assert(2 * half == c.hd);
    let x = b.own@;
    let l = model.layers@[layer];
    let w = if it < c.nh {
        l.q_norm@
    } else {
        l.k_norm@
    };
    let squares = products(S::zero_spec(), x, 0, x, 0, 2 * half);
    products_add_up(v, S::zero_spec(), x, 0, x, 0, 2 * half);
    lemma_squares(v, x, 0, 2 * half);
    lemma_series_same(2 * half, pair_at(v, x, 0, x, 0), |j: int| v(x[j]) * v(x[j]));
    inverse_undoes_the_mean_square(v, squares, c.hd, model.eps);
    let inv = inverse_of(squares, c.hd, model.eps);
    let f = v(inv);
    let y = head_normed(x, 0, half, w, model.eps);
    assert((2 * half) as usize == c.hd);
    assert(y[k] == normed(x[k], inv, w[k]));
    assert(y[half + k] == normed(x[half + k], inv, w[half + k]));
    lemma_swap(v(x[k]), f);
    lemma_swap(v(x[half + k]), f);
    let tat = t.pos * c.hd;
    rotation_turns_each_pair(v, y, 0, half, model.turns@, tat, k);
    assert(0 + k == k && 0 + half + k == half + k);
    let head = out[0]->Reals_0@;
    assert(head[k] == turned(y, 0, half, model.turns@, tat, k));
    assert(head[half + k] == turned(y, 0, half, model.turns@, tat, half + k));
    f
}

/// A unit of the attention takes the mean of the values at all positions up to its own,
/// each counted by the exponential of its score. A score is the inner product of query
/// and key times one factor, of which the square times the width of a head is one; the
/// scores are given back with the factor.
#[verifier::rlimit(40)]
pub proof fn attend_unit_is_the_mean<S: Analytic>(
    v: spec_fn(S) -> real,
    model: Model<S>,
    c: Cfg,
    blob: Seq<u8>,
    layer: int,
    t: Turn<S>,
    b: Shared<S>,
    it: int,
    out: Seq<Piece<S>>,
) -> (r: (Seq<S>, real))
    requires
        is_ideal(v),
        0 < c.hd <= i64::MAX,
        model.is_written(c, blob, Phase::Attend, layer, t, b, it, out),
    ensures
        out.len() == 1 && out[0] is Reals && out[0]->Reals_0@.len() == c.hd,
        r.1 > 0real,
        r.1 * r.1 * (c.hd as real) == 1real,
        ({
            let seen = t.pos + 1;
            let base = layer * (4096 * c.nkv * c.hd);
            let s = r.0;
            &&& s.len() == seen
            &&& forall|i: int|
                0 <= i < seen ==> v(#[trigger] s[i]) == key_product(
                    v,
                    c,
                    it,
                    b.queries@,
                    b.key_cache@,
                    base,
                    i,
                ) * r.1
            &&& forall|j: int|
                0 <= j < c.hd ==> v(#[trigger] out[0]->Reals_0@[j]) * series(
                    seen,
                    |i: int| v(s[i].exp_spec()),
                ) == series(
                    seen,
                    |i: int|
                        v(b.value_cache@[shared_place(c, base, it, i, j)]) * v(s[i].exp_spec()),
                )
        }),
{
    let seen = t.pos + 1;
    let base = layer * (4096 * c.nkv * c.hd);
    let (q, kc, vc) = (b.queries@, b.key_cache@, b.value_cache@);
    let scale = plain_scores_are_inner_products(v, c, it, q, kc, base, seen);
    let s = plain_scores_of(c, it, q, kc, base, seen);
    assert forall|j: int| 0 <= j < c.hd implies v(#[trigger] out[0]->Reals_0@[j]) * series(
        seen,
        |i: int| v(s[i].exp_spec()),
    ) == series(
        seen,
        |i: int| v(vc[shared_place(c, base, it, i, j)]) * v(s[i].exp_spec()),
    ) by {
        taken_is_the_mean(v, c, it, q, kc, vc, base, seen, j);
        assert(out[0]->Reals_0@[j] == taken(c, it, q, kc, vc, base, seen, j));
    }
    (s, scale)
}

} // verus!
