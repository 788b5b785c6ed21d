//! The phases of a pass fit together: what one phase leaves stands where a later one
//! looks for it.
use crate::access::{
    gptoss_filled, gptoss_reads, gptoss_spans, held, qwen_filled, qwen_reads, qwen_spans,
    qwen_units_of, run_spans, Place, Store,
};
use crate::config::Cfg;
use crate::ideal_attend::shared_place;
use crate::kmat::Grain;
use crate::schedule::{gptoss_items_of, gptoss_layer, qwen_layer, Phase};
use vstd::arithmetic::div_mod::{lemma_fundamental_div_mod, lemma_mod_bound};
use vstd::prelude::*;

verus! {

/// The key and the value head that query head `h` shares are looked for, at any position,
/// where they were put at that position: head item `nh + k` writes head `k`, which is
/// shared by the `k`-th group of query heads.
pub proof fn caches_are_read_where_they_were_written(
    c: Cfg,
    grain: Grain,
    layer: int,
    pos: int,
    k: int,
    h: int,
    j: int,
)
    requires
        0 <= k,
        0 < c.nkv,
        c.nh % c.nkv == 0,
        k * (c.nh as int / c.nkv as int) <= h < (k + 1) * (c.nh as int / c.nkv as int),
        0 <= j < c.hd,
        0 <= shared_place(c, layer * (4096 * c.nkv * c.hd), h, pos, 0) <= usize::MAX,
    ensures
        ({
            let place = shared_place(c, layer * (4096 * c.nkv * c.hd), h, pos, j);
            let s = gptoss_spans(Phase::Rope, c, layer, pos, c.nh + k);
            &&& s.len() == 3
            &&& s[1].store == Store::KeyCache && s[1].at + j == place && s[1].len == c.hd
            &&& s[2].store == Store::ValueCache && s[2].at + j == place && s[2].len == c.hd
            &&& qwen_spans(Phase::Rope, c, grain, layer, pos, c.nh + k) == s
        }),
{
    let g = c.nh as int / c.nkv as int;
    assert(g > 0) by (nonlinear_arith)
        requires
            k * g <= h < (k + 1) * g,
    ;
    let q = h / g;
    lemma_fundamental_div_mod(h, g);
    lemma_mod_bound(h, g);
    assert(q == k) by (nonlinear_arith)
        requires
            h == g * q + h % g,
            0 <= h % g < g,
            k * g <= h < (k + 1) * g,
    ;
}

/// The numbers of a query head stand where the head's item of the rotations and of the
/// attention looks for them, and those of a key and of a value head likewise: the three
/// follow one another in the items of the input projections.
#[verifier::rlimit(40)]
pub proof fn heads_are_read_where_they_were_written(c: Cfg, layer: int, pos: int, h: int, j: int)
    requires
        0 <= h,
        0 <= j < c.hd,
        0 <= h * c.hd && h * c.hd + c.hd <= usize::MAX,
        0 <= c.nkv * c.hd,
    ensures
        h < c.nh ==> ({
            let s = gptoss_spans(Phase::Qkv, c, layer, pos, h * c.hd + j);
            let t = gptoss_spans(Phase::Rope, c, layer, pos, h);
            &&& s.len() == 1 && s[0].store == Store::Queries && s[0].len == 1
            &&& t.len() == 1 && t[0].store == Store::Queries && t[0].len == c.hd
            &&& s[0].at == t[0].at + j
        }),
        h < c.nkv ==> ({
            let s = gptoss_spans(Phase::Qkv, c, layer, pos, c.nh * c.hd + h * c.hd + j);
            let t = gptoss_spans(Phase::Rope, c, layer, pos, c.nh + h);
            let u = gptoss_spans(
                Phase::Qkv,
                c,
                layer,
                pos,
                c.nh * c.hd + c.nkv * c.hd + h * c.hd + j,
            );
            &&& s.len() == 1 && s[0].store == Store::Keys && s[0].len == 1
            &&& t.len() == 3 && t[0].store == Store::Keys && t[0].len == c.hd
            &&& s[0].at == t[0].at + j
            &&& u.len() == 1 && u[0].store == Store::Values && u[0].at == h * c.hd + j && u[0].len
                == 1
        }),
{
    if h < c.nh {
        assert(h * c.hd + j < c.nh * c.hd) by (nonlinear_arith)
            requires
                h + 1 <= c.nh,
                0 <= j < c.hd,
        ;
    }
    if h < c.nkv {
        assert(h * c.hd + j < c.nkv * c.hd) by (nonlinear_arith)
            requires
                h + 1 <= c.nkv,
                0 <= j < c.hd,
        ;
        assert(0 <= c.nh * c.hd) by (nonlinear_arith);
    }
}

/// For each chosen expert the gating numbers stand first and the others behind them: quad
/// `g` of the one and of the other projection of chosen expert `slot` goes where the
/// activations look for rows `4 * g` to `4 * g + 3`.
pub proof fn hidden_numbers_are_read_where_they_were_written(
    c: Cfg,
    layer: int,
    pos: int,
    slot: int,
    gate: bool,
    g: int,
)
    requires
        c.d % 4 == 0,
        0 <= slot,
        0 <= g < c.d as int / 4,
        0 <= slot * (2 * c.d) && slot * (2 * c.d) + 2 * c.d <= usize::MAX,
    ensures
        ({
            let dq = c.d as int / 4;
            let it = slot * (2 * dq) + (if gate {
                g
            } else {
                dq + g
            });
            let s = gptoss_spans(Phase::GateUp, c, layer, pos, it);
            &&& s.len() == 1 && s[0].store == Store::Hidden && s[0].len == 4
            &&& s[0].at == slot * (2 * c.d) + 4 * g + (if gate {
                0
            } else {
                c.d as int
            })
        }),
{
    let dq = c.d as int / 4;
    assert(4 * dq == c.d);
    assert(4 * (slot * (2 * dq)) == slot * (2 * (4 * dq))) by (nonlinear_arith);
}

/// Block `block` of the activations of chosen expert `slot` goes where the output
/// projections look for it, with its scale.
pub proof fn activations_are_read_where_they_were_written(
    c: Cfg,
    layer: int,
    pos: int,
    slot: int,
    block: int,
)
    requires
        c.d % 32 == 0,
        0 <= slot,
        0 <= block < c.d as int / 32,
        0 <= slot * c.d && slot * c.d + c.d <= usize::MAX,
    ensures
        ({
            let nb = c.d as int / 32;
            let s = gptoss_spans(Phase::Activate, c, layer, pos, slot * nb + block);
            &&& s.len() == 2
            &&& s[0].store == Store::HiddenLevels && s[0].len == 32
            &&& s[0].at == slot * c.d + 32 * block
            &&& s[1].store == Store::HiddenScales && s[1].len == 1
            &&& s[1].at == slot * nb + block
        }),
{
    let nb = c.d as int / 32;
    assert(32 * nb == c.d);
    assert(32 * (slot * nb) == slot * (32 * nb)) by (nonlinear_arith);
    assert(0 <= slot * nb) by (nonlinear_arith)
        requires
            0 <= slot,
            0 <= nb,
    ;
}

// ------------------------------------------------------------- nothing left out

/// The places that a phase of the model with an attention window has to fill: the whole of
/// its buffers, but of the caches only the run of the position.
pub open spec fn gptoss_fills_place(phase: Phase, c: Cfg, layer: int, pos: int, p: Place) -> bool {
    let run = layer * (4096 * c.nkv * c.hd) + pos * (c.nkv * c.hd);
    &&& 0 <= p.at <= usize::MAX
    &&& match phase {
        Phase::Embed | Phase::Project | Phase::Down => p.store == Store::Stream && p.at < c.d,
        Phase::AttnNorm | Phase::FfnNorm | Phase::HeadNorm => p.store == Store::Normed && p.at
            < c.d,
        Phase::AttnQuant | Phase::FfnQuant | Phase::HeadQuant => {
            ||| p.store == Store::Levels && p.at < c.d
            ||| p.store == Store::Scales && p.at < c.d as int / 32
        },
        Phase::Qkv => {
            ||| p.store == Store::Queries && p.at < c.nh * c.hd
            ||| p.store == Store::Keys && p.at < c.nkv * c.hd
            ||| p.store == Store::Values && p.at < c.nkv * c.hd
        },
        Phase::Rope => {
            ||| p.store == Store::Queries && p.at < c.nh * c.hd
            ||| p.store == Store::Keys && p.at < c.nkv * c.hd
            ||| (p.store == Store::KeyCache || p.store == Store::ValueCache) && 0 <= run <= p.at
                < run + c.nkv * c.hd
        },
        Phase::Attend => {
            ||| (p.store == Store::Mixed || p.store == Store::MixedLevels) && p.at < c.nh * c.hd
            ||| p.store == Store::MixedScales && p.at < c.nh * (c.hd as int / 32)
        },
        Phase::Route => p.store == Store::Router && p.at < c.ne,
        Phase::GateUp => p.store == Store::Hidden && p.at < c.topk * (2 * c.d),
        Phase::Activate => {
            ||| p.store == Store::HiddenLevels && p.at < c.topk * c.d
            ||| p.store == Store::HiddenScales && p.at < c.topk * (c.d as int / 32)
        },
        Phase::Head => p.store == Store::Logits && p.at < c.nvocab,
        _ => false,
    }
}

/// The run of `w` places that a place lies in, out of `n`.
proof fn lemma_run_of(at: int, n: int, w: int)
    requires
        0 <= at < n * w,
        0 < w,
    ensures
        0 <= at / w < n,
        0 <= (at / w) * w <= at < (at / w) * w + w,
{
    lemma_fundamental_div_mod(at, w);
    lemma_mod_bound(at, w);
    let q = at / w;
    assert(w * q == q * w) by (nonlinear_arith);
    assert(0 <= q < n) by (nonlinear_arith)
        requires
            0 <= at < n * w,
            at == w * q + at % w,
            0 <= at % w < w,
            0 < w,
    ;
    assert(0 <= q * w) by (nonlinear_arith)
        requires
            0 <= q,
            0 < w,
    ;
}

/// Where the places of a position's run in the caches stand, head by head.
proof fn lemma_cache_run(c: Cfg, layer: int, pos: int, at: int)
    requires
        0 < c.hd,
        ({
            let run = layer * (4096 * c.nkv * c.hd) + pos * (c.nkv * c.hd);
            0 <= run <= at < run + c.nkv * c.hd
        }),
    ensures
        ({
            let run = layer * (4096 * c.nkv * c.hd) + pos * (c.nkv * c.hd);
            let k = (at - run) / (c.hd as int);
            let from = layer * (4096 * c.nkv * c.hd) + (pos * c.nkv + k) * c.hd;
            0 <= k < c.nkv && 0 <= from <= at < from + c.hd
        }),
{
    let run = layer * (4096 * c.nkv * c.hd) + pos * (c.nkv * c.hd);
    let hd = c.hd as int;
    lemma_run_of(at - run, c.nkv as int, hd);
    let k = (at - run) / hd;
    assert((pos * c.nkv + k) * hd == pos * (c.nkv * hd) + k * hd) by (nonlinear_arith);
}

/// Every place that a phase of the model with an attention window has to fill is written by
/// one of its items: together the items leave nothing out.
#[verifier::rlimit(60)]
pub proof fn gptoss_items_leave_nothing_out(
    phase: Phase,
    c: Cfg,
    layer: int,
    pos: int,
    p: Place,
) -> (it: int)
    requires
        c.d % 32 == 0,
        c.hd % 32 == 0,
        0 < c.hd,
        gptoss_fills_place(phase, c, layer, pos, p),
    ensures
        0 <= it < gptoss_items_of(phase, c),
        held(gptoss_spans(phase, c, layer, pos, it), p),
{
    let (at, hd, nb) = (p.at, c.hd as int, c.hd as int / 32);
    let run = layer * (4096 * c.nkv * c.hd) + pos * (c.nkv * c.hd);
    assert(0 <= c.nh * c.hd && 0 <= c.nkv * c.hd) by (nonlinear_arith);
    assert(2 * c.nkv * c.hd == 2 * (c.nkv * c.hd)) by (nonlinear_arith);
    let (it, n): (int, int) = match phase {
        Phase::Down => (at / 4, 0),
        Phase::AttnQuant | Phase::FfnQuant | Phase::HeadQuant => if p.store == Store::Levels {
            (at / 32, 0)
        } else {
            (at, 1)
        },
        Phase::Qkv => if p.store == Store::Queries {
            (at, 0)
        } else if p.store == Store::Keys {
            (c.nh * c.hd + at, 0)
        } else {
            (c.nh * c.hd + c.nkv * c.hd + at, 0)
        },
        Phase::Rope => if p.store == Store::Queries {
            lemma_run_of(at, c.nh as int, hd);
            (at / hd, 0)
        } else if p.store == Store::Keys {
            lemma_run_of(at, c.nkv as int, hd);
            (c.nh + at / hd, 0)
        } else {
            lemma_cache_run(c, layer, pos, at);
            (c.nh + (at - run) / hd, if p.store == Store::KeyCache {
                1
            } else {
                2
            })
        },
        Phase::Attend => if p.store == Store::MixedScales {
            lemma_run_of(at, c.nh as int, nb);
            (at / nb, 2)
        } else {
            lemma_run_of(at, c.nh as int, hd);
            (at / hd, if p.store == Store::Mixed {
                0
            } else {
                1
            })
        },
        Phase::GateUp => {
            assert(c.topk * (2 * c.d) == (c.topk * (2 * (c.d as int / 4))) * 4) by (nonlinear_arith)
                requires
                    c.d == 4 * (c.d as int / 4),
            ;
            lemma_run_of(at, c.topk * (2 * (c.d as int / 4)), 4);
            (at / 4, 0)
        },
        Phase::Activate => if p.store == Store::HiddenLevels {
            assert(c.topk * c.d == (c.topk * (c.d as int / 32)) * 32) by (nonlinear_arith)
                requires
                    c.d == 32 * (c.d as int / 32),
            ;
            lemma_run_of(at, c.topk * (c.d as int / 32), 32);
            (at / 32, 0)
        } else {
            (at, 1)
        },
        _ => (at, 0),
    };
    let spans = gptoss_spans(phase, c, layer, pos, it);
    assert(0 <= n < spans.len() && spans[n].holds(p));
    it
}

/// The places that a phase of the model with normalized heads has to fill.
pub open spec fn qwen_fills_place(
    phase: Phase,
    c: Cfg,
    grain: Grain,
    layer: int,
    pos: int,
    p: Place,
) -> bool {
    let run = layer * (4096 * c.nkv * c.hd) + pos * (c.nkv * c.hd);
    let w = grain.width();
    &&& 0 <= p.at <= usize::MAX
    &&& match phase {
        Phase::Embed | Phase::Project | Phase::Down => p.store == Store::Stream && p.at < c.d,
        Phase::AttnSquares | Phase::FfnSquares | Phase::HeadSquares => p.store == Store::Squares
            && p.at < 12,
        Phase::AttnNorm | Phase::FfnNorm | Phase::HeadNorm => p.store == Store::Normed && p.at
            < c.d,
        Phase::AttnQuant | Phase::FfnQuant | Phase::HeadQuant => {
            ||| p.store == Store::Levels && p.at < c.d
            ||| p.store == Store::Scales && p.at < c.d as int / w
            ||| p.store == Store::Sums && p.at < c.d as int / 32
        },
        Phase::Qkv => {
            ||| p.store == Store::Queries && p.at < c.nh * c.hd
            ||| p.store == Store::Keys && p.at < c.nkv * c.hd
            ||| p.store == Store::Values && p.at < c.nkv * c.hd
        },
        Phase::Rope => {
            ||| p.store == Store::Queries && p.at < c.nh * c.hd
            ||| p.store == Store::Keys && p.at < c.nkv * c.hd
            ||| (p.store == Store::KeyCache || p.store == Store::ValueCache) && 0 <= run <= p.at
                < run + c.nkv * c.hd
        },
        Phase::Attend => p.store == Store::Mixed && p.at < c.nh * c.hd,
        Phase::AttendQuant => {
            ||| p.store == Store::MixedLevels && p.at < c.nh * c.hd
            ||| p.store == Store::MixedScales && p.at < (c.nh * c.hd) / w
            ||| p.store == Store::MixedSums && p.at < (c.nh * c.hd) / 32
        },
        Phase::Route => p.store == Store::Router && p.at < c.ne,
        Phase::GateUp => p.store == Store::Hidden && p.at < c.topk * c.ffexp,
        Phase::HiddenQuant => {
            ||| p.store == Store::HiddenLevels && p.at < c.topk * c.ffexp
            ||| p.store == Store::HiddenScales && p.at < (c.topk * c.ffexp) / w
            ||| p.store == Store::HiddenSums && p.at < (c.topk * c.ffexp) / 32
        },
        Phase::Head => p.store == Store::Bests && p.at < 12,
        _ => false,
    }
}

/// The run of levels that a place of the levels, the scales or the sums belongs to.
#[verifier::rlimit(60)]
proof fn lemma_grain_run(
    levels: Store,
    scales: Store,
    sums: Store,
    grain: Grain,
    len: int,
    p: Place,
) -> (it: int)
    requires
        len % 256 == 0,
        0 <= p.at <= usize::MAX,
        ({
            ||| p.store == levels && p.at < len
            ||| p.store == scales && p.at < len / grain.width()
            ||| p.store == sums && p.at < len / 32
        }),
    ensures
        0 <= it < len / grain.width(),
        held(run_spans(levels, scales, sums, grain, it), p),
{
    let (at, m) = (p.at, len / 256);
    assert(len == 256 * m && len / 32 == 8 * m);
    let spans = |it: int| run_spans(levels, scales, sums, grain, it);
    match grain {
        Grain::Super => {
            if p.store == levels && at < len {
                let it = at / 256;
                assert(0 <= it < m && 256 * it <= at < 256 * it + 256);
                assert(spans(it)[0].holds(p));
                it
            } else if p.store == scales && at < m {
                assert(spans(at)[1].holds(p));
                at
            } else {
                let it = at / 8;
                assert(0 <= it < m && 8 * it <= at < 8 * it + 8);
                assert(spans(it)[2].holds(p));
                it
            }
        },
        _ => {
            if p.store == levels && at < len {
                let it = at / 32;
                assert(0 <= it < 8 * m && 32 * it <= at < 32 * it + 32);
                assert(spans(it)[0].holds(p));
                it
            } else if p.store == scales && at < 8 * m {
                assert(spans(at)[1].holds(p));
                at
            } else {
                assert(spans(at)[2].holds(p));
                at
            }
        },
    }
}

/// Every place that a phase of the model with normalized heads has to fill is written by one
/// of its units.
#[verifier::rlimit(60)]
pub proof fn qwen_units_leave_nothing_out(
    phase: Phase,
    c: Cfg,
    grain: Grain,
    layer: int,
    pos: int,
    p: Place,
) -> (it: int)
    requires
        c.d % 256 == 0,
        (c.nh * c.hd) % 256 == 0,
        c.ffexp % 256 == 0,
        0 < c.hd,
        qwen_fills_place(phase, c, grain, layer, pos, p),
    ensures
        0 <= it < qwen_units_of(phase, c, grain),
        held(qwen_spans(phase, c, grain, layer, pos, it), p),
{
    let (at, hd) = (p.at, c.hd as int);
    let run = layer * (4096 * c.nkv * c.hd) + pos * (c.nkv * c.hd);
    assert(0 <= c.nh * c.hd && 0 <= c.nkv * c.hd) by (nonlinear_arith);
    assert(2 * c.nkv * c.hd == 2 * (c.nkv * c.hd)) by (nonlinear_arith);
    match phase {
        Phase::AttnQuant | Phase::FfnQuant | Phase::HeadQuant => {
            lemma_grain_run(Store::Levels, Store::Scales, Store::Sums, grain, c.d as int, p)
        },
        Phase::AttendQuant => {
            lemma_grain_run(
                Store::MixedLevels,
                Store::MixedScales,
                Store::MixedSums,
                grain,
                c.nh * c.hd,
                p,
            )
        },
        Phase::HiddenQuant => {
            assert((c.topk * c.ffexp) % 256 == 0) by {
                let f = c.ffexp as int / 256;
                assert(c.topk * c.ffexp == (c.topk * f) * 256) by (nonlinear_arith)
                    requires
                        c.ffexp == 256 * f,
                ;
            }
            lemma_grain_run(
                Store::HiddenLevels,
                Store::HiddenScales,
                Store::HiddenSums,
                grain,
                c.topk * c.ffexp,
                p,
            )
        },
        _ => {
            let (it, n): (int, int) = match phase {
                Phase::Embed => (at / 256, 0),
                Phase::Qkv => if p.store == Store::Queries {
                    (at, 0)
                } else if p.store == Store::Keys {
                    (c.nh * c.hd + at, 0)
                } else {
                    (c.nh * c.hd + c.nkv * c.hd + at, 0)
                },
                Phase::Rope => if p.store == Store::Queries {
                    lemma_run_of(at, c.nh as int, hd);
                    (at / hd, 0)
                } else if p.store == Store::Keys {
                    lemma_run_of(at, c.nkv as int, hd);
                    (c.nh + at / hd, 0)
                } else {
                    lemma_cache_run(c, layer, pos, at);
                    (c.nh + (at - run) / hd, if p.store == Store::KeyCache {
                        1
                    } else {
                        2
                    })
                },
                Phase::Attend => {
                    lemma_run_of(at, c.nh as int, hd);
                    (at / hd, 0)
                },
                _ => (at, 0),
            };
            let spans = qwen_spans(phase, c, grain, layer, pos, it);
            assert(0 <= n < spans.len() && spans[n].holds(p));
            it
        },
    }
}

// ------------------------------------------------------------------- in their order

/// The phase that leaves what a phase of a layer of the model with an attention window looks
/// for, beside the stream and the caches.
pub open spec fn gptoss_source(phase: Phase, store: Store) -> Phase {
    if store == Store::Router {
        Phase::Route
    } else {
        match phase {
            Phase::AttnQuant => Phase::AttnNorm,
            Phase::Qkv => Phase::AttnQuant,
            Phase::Rope => Phase::Qkv,
            Phase::Attend => Phase::Rope,
            Phase::Project => Phase::Attend,
            Phase::FfnQuant | Phase::Route => Phase::FfnNorm,
            Phase::GateUp => Phase::FfnQuant,
            Phase::Activate => Phase::GateUp,
            _ => Phase::Activate,
        }
    }
}

/// Each phase of a layer of the model with an attention window finds what it looks for as
/// the phase left it that it comes from: that phase goes before it in the layer, and none
/// between them writes into the same buffer.
#[verifier::rlimit(60)]
pub proof fn gptoss_phases_follow_their_sources(c: Cfg, i: int, it: int, p: Place) -> (j: int)
    requires
        0 <= i < gptoss_layer().len(),
        gptoss_reads(gptoss_layer()[i], c, it, p),
        p.store != Store::Stream && p.store != Store::KeyCache && p.store != Store::ValueCache,
    ensures
        0 <= j < i,
        gptoss_layer()[j] == gptoss_source(gptoss_layer()[i], p.store),
        gptoss_filled(gptoss_layer()[j], p.store),
        forall|k: int| j < k < i ==> !gptoss_filled(#[trigger] gptoss_layer()[k], p.store),
{
    let phases = gptoss_layer();
    if p.store == Store::Router {
        8
    } else {
        match phases[i] {
            Phase::AttnQuant => 0,
            Phase::Qkv => 1,
            Phase::Rope => 2,
            Phase::Attend => 3,
            Phase::Project => 4,
            Phase::FfnQuant | Phase::Route => 6,
            Phase::GateUp => 7,
            Phase::Activate => 9,
            _ => 10,
        }
    }
}

/// The phase that leaves what a phase of a layer of the model with normalized heads looks
/// for, beside the stream and the caches.
pub open spec fn qwen_source(phase: Phase, store: Store) -> Phase {
    if store == Store::Router {
        Phase::Route
    } else {
        match phase {
            Phase::AttnNorm => Phase::AttnSquares,
            Phase::AttnQuant => Phase::AttnNorm,
            Phase::Qkv => Phase::AttnQuant,
            Phase::Rope => Phase::Qkv,
            Phase::Attend => Phase::Rope,
            Phase::AttendQuant => Phase::Attend,
            Phase::Project => Phase::AttendQuant,
            Phase::FfnNorm => Phase::FfnSquares,
            Phase::FfnQuant | Phase::Route => Phase::FfnNorm,
            Phase::GateUp => Phase::FfnQuant,
            Phase::HiddenQuant => Phase::GateUp,
            _ => Phase::HiddenQuant,
        }
    }
}

/// Each phase of a layer of the model with normalized heads too finds what it looks for as
/// the phase left it that it comes from.
#[verifier::rlimit(60)]
pub proof fn qwen_phases_follow_their_sources(
    c: Cfg,
    grain: Grain,
    i: int,
    it: int,
    p: Place,
) -> (j: int)
    requires
        0 <= i < qwen_layer().len(),
        qwen_reads(qwen_layer()[i], c, grain, it, p),
        p.store != Store::Stream && p.store != Store::KeyCache && p.store != Store::ValueCache,
    ensures
        0 <= j < i,
        qwen_layer()[j] == qwen_source(qwen_layer()[i], p.store),
        qwen_filled(qwen_layer()[j], p.store),
        forall|k: int| j < k < i ==> !qwen_filled(#[trigger] qwen_layer()[k], p.store),
{
    let phases = qwen_layer();
    if p.store == Store::Router {
        11
    } else {
        match phases[i] {
            Phase::AttnNorm => 0,
            Phase::AttnQuant => 1,
            Phase::Qkv => 2,
            Phase::Rope => 3,
            Phase::Attend => 4,
            Phase::AttendQuant => 5,
            Phase::Project => 6,
            Phase::FfnNorm => 8,
            Phase::FfnQuant | Phase::Route => 9,
            Phase::GateUp => 10,
            Phase::HiddenQuant => 12,
            _ => 13,
        }
    }
}

} // verus!
