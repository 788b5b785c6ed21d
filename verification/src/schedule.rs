//! The order of a forward pass that all workers run together: a list of phases,
//! the number of work items of each, and the phases that end at a barrier.
use crate::config::Cfg;
use crate::kmat::Grain;
use vstd::arithmetic::div_mod::{
    lemma_fundamental_div_mod, lemma_fundamental_div_mod_converse, lemma_mod_bound,
};
use vstd::arithmetic::mul::{lemma_mul_inequality, lemma_mul_is_distributive_add_other_way};
use vstd::prelude::*;

verus! {

/// A phase of the forward pass of one token.
#[derive(Clone, Copy, Debug, PartialEq, Eq, Structural)]
pub enum Phase {
    /// The token's row of the embedding.
    Embed,
    /// The sums of squares of each worker's run, before the attention.
    AttnSquares,
    /// The normalized input of the attention.
    AttnNorm,
    /// The input in 8-bit blocks.
    AttnQuant,
    /// Queries, keys and values.
    Qkv,
    /// Rotations, and the write of the caches.
    Rope,
    /// Scores and mixed values of the query heads.
    Attend,
    /// The mixed values in 8-bit blocks.
    AttendQuant,
    /// The projection back to the residual stream.
    Project,
    /// The sums of squares before the experts.
    FfnSquares,
    /// The normalized input of the experts.
    FfnNorm,
    /// The input in 8-bit blocks.
    FfnQuant,
    /// The router's logits.
    Route,
    /// The gating and up projections of the chosen experts.
    GateUp,
    /// The activation, in 8-bit blocks.
    Activate,
    /// The hidden layer in 8-bit blocks.
    HiddenQuant,
    /// The down projections and the residual.
    Down,
    /// The sums of squares before the head.
    HeadSquares,
    /// The normalized input of the head.
    HeadNorm,
    /// The input in 8-bit blocks.
    HeadQuant,
    /// The logits.
    Head,
    /// The choice of the next token, by the first worker alone.
    Pick,
}

/// A phase and the layer that it works on.
#[derive(Clone, Copy, Debug, PartialEq, Eq, Structural)]
pub struct Step {
    pub phase: Phase,
    pub layer: usize,
}

/// The phase needs the weights or the place of a layer.
pub open spec fn of_layer(phase: Phase) -> bool {
    match phase {
        Phase::AttnNorm
        | Phase::Qkv
        | Phase::Rope
        | Phase::Attend
        | Phase::Project
        | Phase::FfnNorm
        | Phase::Route
        | Phase::GateUp
        | Phase::Down => true,
        _ => false,
    }
}

/// Whether the phase needs the weights or the place of a layer.
pub fn of_a_layer(phase: Phase) -> (r: bool)
    ensures
        r == of_layer(phase),
{
    match phase {
        Phase::AttnNorm
        | Phase::Qkv
        | Phase::Rope
        | Phase::Attend
        | Phase::Project
        | Phase::FfnNorm
        | Phase::Route
        | Phase::GateUp
        | Phase::Down => true,
        _ => false,
    }
}

// ------------------------------------------------------------------ the orders

/// The phases of a layer of the model with an attention window.
pub open spec fn gptoss_layer() -> Seq<Phase> {
    seq![
        Phase::AttnNorm,
        Phase::AttnQuant,
        Phase::Qkv,
        Phase::Rope,
        Phase::Attend,
        Phase::Project,
        Phase::FfnNorm,
        Phase::FfnQuant,
        Phase::Route,
        Phase::GateUp,
        Phase::Activate,
        Phase::Down,
    ]
}

/// The phases after the last layer, which are left out where no token is wanted.
pub open spec fn gptoss_head(want: bool) -> Seq<Phase> {
    if want {
        seq![Phase::HeadNorm, Phase::HeadQuant, Phase::Head, Phase::Pick]
    } else {
        seq![]
    }
}

/// The phases of a layer of the model with normalized heads.
pub open spec fn qwen_layer() -> Seq<Phase> {
    seq![
        Phase::AttnSquares,
        Phase::AttnNorm,
        Phase::AttnQuant,
        Phase::Qkv,
        Phase::Rope,
        Phase::Attend,
        Phase::AttendQuant,
        Phase::Project,
        Phase::FfnSquares,
        Phase::FfnNorm,
        Phase::FfnQuant,
        Phase::Route,
        Phase::GateUp,
        Phase::HiddenQuant,
        Phase::Down,
    ]
}

/// The phases after the last layer.
pub open spec fn qwen_head() -> Seq<Phase> {
    seq![Phase::HeadSquares, Phase::HeadNorm, Phase::HeadQuant, Phase::Head, Phase::Pick]
}

/// Step `k` of a pass: the embedding, then the phases of each layer in turn, then
/// those of the head.
pub open spec fn step_of(k: int, layer: Seq<Phase>, head: Seq<Phase>, nl: int) -> Option<
    (Phase, int),
> {
    if k == 0 {
        Some((Phase::Embed, 0))
    } else if k - 1 < nl * layer.len() {
        Some((layer[(k - 1) % (layer.len() as int)], (k - 1) / (layer.len() as int)))
    } else if k - 1 - nl * layer.len() < head.len() {
        Some((head[k - 1 - nl * layer.len()], nl))
    } else {
        None
    }
}

/// The heads are turned in a layer.
pub proof fn gptoss_turns_in_layers(k: int, want: bool, nl: int)
    requires
        0 <= k,
        step_of(k, gptoss_layer(), gptoss_head(want), nl) matches Some((Phase::Rope, _)),
    ensures
        step_of(k, gptoss_layer(), gptoss_head(want), nl) matches Some((_, layer)) && 0 <= layer < nl,
{
    let (ph, hd) = (gptoss_layer(), gptoss_head(want));
    assert(ph.len() == 12);
    assert(nl * ph.len() == 12 * nl);
    if k > 0 && k - 1 >= nl * ph.len() {
        let i = k - 1 - nl * ph.len();
        assert(hd[i] != Phase::Rope);
    }
}

/// The heads are turned in a layer.
pub proof fn qwen_turns_in_layers(k: int, nl: int)
    requires
        0 <= k,
        step_of(k, qwen_layer(), qwen_head(), nl) matches Some((Phase::Rope, _)),
    ensures
        step_of(k, qwen_layer(), qwen_head(), nl) matches Some((_, layer)) && 0 <= layer < nl,
{
    let (ph, hd) = (qwen_layer(), qwen_head());
    assert(ph.len() == 15);
    assert(nl * ph.len() == 15 * nl);
    if k > 0 && k - 1 >= nl * ph.len() {
        let i = k - 1 - nl * ph.len();
        assert(hd[i] != Phase::Rope);
    }
}

/// A step is the same as its description.
pub open spec fn is_step(s: Option<Step>, d: Option<(Phase, int)>) -> bool {
    match (s, d) {
        (Some(s), Some((p, l))) => s.phase == p && s.layer == l,
        (None, None) => true,
        _ => false,
    }
}

/// Step `k` of a pass whose layers have `per` phases and whose head has `tail`.
fn place(k: usize, per: usize, tail: usize, nl: usize) -> (r: Option<(usize, usize)>)
    requires
        0 < k,
        0 < per <= 16,
        tail <= 16,
        nl * per <= usize::MAX,
    ensures
        match r {
            Some((layer, i)) => {
                ||| layer < nl && i < per && layer == (k - 1) / per as int && i == (k - 1) % (
                per as int) && k - 1 < nl * per
                ||| layer == nl && i < tail && i == k - 1 - nl * per
            },
            None => k - 1 - nl * per >= tail,
        },
{
    let all: usize = nl * per;
    if k - 1 < all {
        proof {
            let q = (k - 1) / (per as int);
            lemma_fundamental_div_mod(k - 1, per as int);
            lemma_mod_bound(k - 1, per as int);
            assert(q < nl) by (nonlinear_arith)
                requires
                    k - 1 < nl * per,
                    k - 1 == per * q + (k - 1) % (per as int),
                    0 <= (k - 1) % (per as int),
                    per > 0,
            ;
        }
        Some(((k - 1) / per, (k - 1) % per))
    } else if k - 1 - all < tail {
        Some((nl, k - 1 - all))
    } else {
        None
    }
}

/// Step `k` of a pass of the model with an attention window, or none after the
/// last.
pub fn gptoss_step(k: usize, nl: usize, want: bool) -> (s: Option<Step>)
    requires
        nl * 12 <= usize::MAX,
    ensures
        is_step(s, step_of(k as int, gptoss_layer(), gptoss_head(want), nl as int)),
{
    if k == 0 {
        return Some(Step { phase: Phase::Embed, layer: 0 });
    }
    let tail: usize = if want {
        4
    } else {
        0
    };
    match place(k, 12, tail, nl) {
        None => None,
        Some((layer, i)) => {
            let phase = if layer < nl {
                match i {
                    0 => Phase::AttnNorm,
                    1 => Phase::AttnQuant,
                    2 => Phase::Qkv,
                    3 => Phase::Rope,
                    4 => Phase::Attend,
                    5 => Phase::Project,
                    6 => Phase::FfnNorm,
                    7 => Phase::FfnQuant,
                    8 => Phase::Route,
                    9 => Phase::GateUp,
                    10 => Phase::Activate,
                    _ => Phase::Down,
                }
            } else {
                match i {
                    0 => Phase::HeadNorm,
                    1 => Phase::HeadQuant,
                    2 => Phase::Head,
                    _ => Phase::Pick,
                }
            };
            Some(Step { phase, layer })
        },
    }
}

/// Step `k` of a pass of the model with normalized heads, or none after the last.
pub fn qwen_step(k: usize, nl: usize) -> (s: Option<Step>)
    requires
        nl * 15 <= usize::MAX,
    ensures
        is_step(s, step_of(k as int, qwen_layer(), qwen_head(), nl as int)),
{
    if k == 0 {
        return Some(Step { phase: Phase::Embed, layer: 0 });
    }
    match place(k, 15, 5, nl) {
        None => None,
        Some((layer, i)) => {
            let phase = if layer < nl {
                match i {
                    0 => Phase::AttnSquares,
                    1 => Phase::AttnNorm,
                    2 => Phase::AttnQuant,
                    3 => Phase::Qkv,
                    4 => Phase::Rope,
                    5 => Phase::Attend,
                    6 => Phase::AttendQuant,
                    7 => Phase::Project,
                    8 => Phase::FfnSquares,
                    9 => Phase::FfnNorm,
                    10 => Phase::FfnQuant,
                    11 => Phase::Route,
                    12 => Phase::GateUp,
                    13 => Phase::HiddenQuant,
                    _ => Phase::Down,
                }
            } else {
                match i {
                    0 => Phase::HeadSquares,
                    1 => Phase::HeadNorm,
                    2 => Phase::HeadQuant,
                    3 => Phase::Head,
                    _ => Phase::Pick,
                }
            };
            Some(Step { phase, layer })
        },
    }
}

// ---------------------------------------------------------------- work items

/// The number of work items of a phase of the model with an attention window.
/// Gate and up rows, and the rows of the down projection, go by fours.
pub open spec fn gptoss_items_of(phase: Phase, c: Cfg) -> int {
    match phase {
        Phase::Embed | Phase::AttnNorm | Phase::Project | Phase::FfnNorm | Phase::HeadNorm
            => c.d as int,
        Phase::AttnQuant | Phase::FfnQuant | Phase::HeadQuant => c.d as int / 32,
        Phase::Qkv => c.nh * c.hd + 2 * c.nkv * c.hd,
        Phase::Rope => c.nh + c.nkv,
        Phase::Attend => c.nh as int,
        Phase::Route => c.ne as int,
        Phase::GateUp => c.topk * (2 * (c.d as int / 4)),
        Phase::Activate => c.topk * (c.d as int / 32),
        Phase::Down => c.d as int / 4,
        Phase::Head => c.nvocab as int,
        _ => 0,
    }
}

/// The number of work items of a phase.
pub fn gptoss_items(phase: Phase, c: &Cfg) -> (n: usize)
    requires
        c.is_sound(),
    ensures
        n == gptoss_items_of(phase, *c),
{
    proof {
        assert(2 * c.nkv * c.hd == 2 * (c.nkv * c.hd)) by (nonlinear_arith);
        assert(0 <= c.nkv * c.hd) by (nonlinear_arith);
        lemma_smaller(c.topk as int, 2 * (c.d as int / 4), 2 * c.d);
        lemma_smaller(c.topk as int, c.d as int / 32, 2 * c.d);
    }
    match phase {
        Phase::Embed | Phase::AttnNorm | Phase::Project | Phase::FfnNorm | Phase::HeadNorm => c.d,
        Phase::AttnQuant | Phase::FfnQuant | Phase::HeadQuant => c.d / 32,
        Phase::Qkv => c.nh * c.hd + 2 * (c.nkv * c.hd),
        Phase::Rope => c.nh + c.nkv,
        Phase::Attend => c.nh,
        Phase::Route => c.ne,
        Phase::GateUp => c.topk * (2 * (c.d / 4)),
        Phase::Activate => c.topk * (c.d / 32),
        Phase::Down => c.d / 4,
        Phase::Head => c.nvocab,
        _ => 0,
    }
}

proof fn lemma_smaller(k: int, a: int, b: int)
    requires
        0 <= k,
        0 <= a <= b,
    ensures
        0 <= k * a <= k * b,
{
    assert(0 <= k * a <= k * b) by (nonlinear_arith)
        requires
            0 <= k,
            0 <= a <= b,
    ;
}

/// The number of work items of a phase of the model with normalized heads. The
/// embedding goes by blocks of 256, and the quantized vectors by the grain of their
/// scales.
pub open spec fn qwen_items_of(phase: Phase, c: Cfg, grain: Grain) -> int {
    match phase {
        Phase::Embed => c.d as int / 256,
        Phase::AttnSquares | Phase::AttnNorm | Phase::Project | Phase::FfnSquares | Phase::FfnNorm
        | Phase::Down | Phase::HeadSquares | Phase::HeadNorm => c.d as int,
        Phase::AttnQuant | Phase::FfnQuant | Phase::HeadQuant => c.d as int / grain.width(),
        Phase::Qkv => c.nh * c.hd + 2 * c.nkv * c.hd,
        Phase::Rope => c.nh + c.nkv,
        Phase::Attend => c.nh as int,
        Phase::AttendQuant => (c.nh * c.hd) / grain.width(),
        Phase::Route => c.ne as int,
        Phase::GateUp => c.topk * c.ffexp,
        Phase::HiddenQuant => (c.topk * c.ffexp) / grain.width(),
        Phase::Head => c.nvocab as int,
        _ => 0,
    }
}

/// The number of work items of a phase.
pub fn qwen_items(phase: Phase, c: &Cfg, grain: Grain) -> (n: usize)
    requires
        c.is_sound(),
    ensures
        n == qwen_items_of(phase, *c, grain),
{
    let w: usize = grain.levels();
    proof {
        assert(2 * c.nkv * c.hd == 2 * (c.nkv * c.hd)) by (nonlinear_arith);
        assert(0 <= c.nkv * c.hd) by (nonlinear_arith);
    }
    match phase {
        Phase::Embed => c.d / 256,
        Phase::AttnSquares | Phase::AttnNorm | Phase::Project | Phase::FfnSquares | Phase::FfnNorm
        | Phase::Down | Phase::HeadSquares | Phase::HeadNorm => c.d,
        Phase::AttnQuant | Phase::FfnQuant | Phase::HeadQuant => c.d / w,
        Phase::Qkv => c.nh * c.hd + 2 * (c.nkv * c.hd),
        Phase::Rope => c.nh + c.nkv,
        Phase::Attend => c.nh,
        Phase::AttendQuant => (c.nh * c.hd) / w,
        Phase::Route => c.ne,
        Phase::GateUp => c.topk * c.ffexp,
        Phase::HiddenQuant => (c.topk * c.ffexp) / w,
        Phase::Head => c.nvocab,
        _ => 0,
    }
}

// ------------------------------------------------------------------- barriers

/// A phase of the model with an attention window ends at a barrier: all but the
/// quantization before the router, which reads none of its results, and the
/// choice of the token.
pub open spec fn gptoss_syncs(phase: Phase) -> bool {
    phase != Phase::FfnQuant && phase != Phase::Pick
}

/// Whether a phase ends at a barrier.
pub fn gptoss_barrier(phase: Phase) -> (r: bool)
    ensures
        r == gptoss_syncs(phase),
{
    phase != Phase::FfnQuant && phase != Phase::Pick
}

/// A phase of the model with normalized heads ends at a barrier: all but the
/// choice of the token.
pub open spec fn qwen_syncs(phase: Phase) -> bool {
    phase != Phase::Pick
}

/// Whether a phase ends at a barrier.
pub fn qwen_barrier(phase: Phase) -> (r: bool)
    ensures
        r == qwen_syncs(phase),
{
    phase != Phase::Pick
}

/// The number of barriers in the first `k` steps of a pass.
pub open spec fn barriers(
    k: int,
    layer: Seq<Phase>,
    head: Seq<Phase>,
    nl: int,
    syncs: spec_fn(Phase) -> bool,
) -> int
    decreases k,
{
    if k <= 0 {
        0
    } else {
        barriers(k - 1, layer, head, nl, syncs) + match step_of(k - 1, layer, head, nl) {
            Some((phase, _)) => if syncs(phase) {
                1int
            } else {
                0int
            },
            None => 0int,
        }
    }
}

/// The number of phases among the first `n` of a list that end at a barrier.
pub open spec fn syncing(list: Seq<Phase>, n: int, syncs: spec_fn(Phase) -> bool) -> int
    decreases n,
{
    if n <= 0 {
        0
    } else {
        syncing(list, n - 1, syncs) + if syncs(list[n - 1]) {
            1int
        } else {
            0int
        }
    }
}

proof fn lemma_layers(
    l: int,
    i: int,
    layer: Seq<Phase>,
    head: Seq<Phase>,
    nl: int,
    syncs: spec_fn(Phase) -> bool,
)
    requires
        0 <= l <= nl,
        0 <= i <= layer.len(),
        l == nl ==> i == 0,
        0 < layer.len(),
        syncs(Phase::Embed),
    ensures
        barriers(1 + l * layer.len() + i, layer, head, nl, syncs) == 1 + l * syncing(
            layer,
            layer.len() as int,
            syncs,
        ) + syncing(layer, i, syncs),
    decreases l, i,
{
    let per = layer.len() as int;
    let each = syncing(layer, per, syncs);
    if i > 0 {
        lemma_layers(l, i - 1, layer, head, nl, syncs);
        let k = 1 + l * per + i;
        lemma_fundamental_div_mod_converse(l * per + (i - 1), per, l, i - 1);
        lemma_mul_inequality(l + 1, nl, per);
        lemma_mul_is_distributive_add_other_way(per, l, 1);
        assert(l * per >= 0) by (nonlinear_arith)
            requires
                l >= 0,
                per > 0,
        ;
        assert(step_of(k - 1, layer, head, nl) == Some((layer[i - 1], l)));
    } else if l > 0 {
        lemma_layers(l - 1, per, layer, head, nl, syncs);
        lemma_mul_is_distributive_add_other_way(per, l - 1, 1);
        lemma_mul_is_distributive_add_other_way(each, l - 1, 1);
    } else {
        assert(0 * per == 0 && 0 * each == 0);
        assert(barriers(0, layer, head, nl, syncs) == 0);
        assert(step_of(0, layer, head, nl) == Some((Phase::Embed, 0int)));
    }
}

proof fn lemma_head_barriers(
    i: int,
    layer: Seq<Phase>,
    head: Seq<Phase>,
    nl: int,
    syncs: spec_fn(Phase) -> bool,
)
    requires
        0 <= nl,
        0 <= i <= head.len(),
        0 < layer.len(),
        syncs(Phase::Embed),
    ensures
        barriers(1 + nl * layer.len() + i, layer, head, nl, syncs) == 1 + nl * syncing(
            layer,
            layer.len() as int,
            syncs,
        ) + syncing(head, i, syncs),
    decreases i,
{
    if i > 0 {
        lemma_head_barriers(i - 1, layer, head, nl, syncs);
        let all = nl * layer.len();
        assert(all >= 0) by (nonlinear_arith)
            requires
                nl >= 0,
                all == nl * layer.len(),
        ;
        assert(step_of(all + i, layer, head, nl) == Some((head[i - 1], nl)));
    } else {
        lemma_layers(nl, 0, layer, head, nl, syncs);
    }
}

/// A pass of the model with an attention window has one barrier for the
/// embedding, eleven for each layer, and three for the head where a token is
/// wanted.
pub proof fn gptoss_barrier_count(nl: int, want: bool)
    requires
        0 <= nl,
    ensures
        barriers(
            1 + nl * 12 + if want {
                4int
            } else {
                0int
            },
            gptoss_layer(),
            gptoss_head(want),
            nl,
            |p: Phase| gptoss_syncs(p),
        ) == 1 + nl * 11 + if want {
            3int
        } else {
            0int
        },
{
    let syncs = |p: Phase| gptoss_syncs(p);
    lemma_head_barriers(
        gptoss_head(want).len() as int,
        gptoss_layer(),
        gptoss_head(want),
        nl,
        syncs,
    );
    assert(syncing(gptoss_layer(), 12, syncs) == 11) by {
        reveal_with_fuel(syncing, 13);
    }
    assert(syncing(gptoss_head(want), gptoss_head(want).len() as int, syncs) == if want {
        3int
    } else {
        0int
    }) by {
        reveal_with_fuel(syncing, 5);
    }
}

/// A pass of the model with normalized heads has one barrier for the embedding,
/// fifteen for each layer, and four for the head.
pub proof fn qwen_barrier_count(nl: int)
    requires
        0 <= nl,
    ensures
        barriers(1 + nl * 15 + 5, qwen_layer(), qwen_head(), nl, |p: Phase| qwen_syncs(p)) == 1 + nl
            * 15 + 4,
{
    let syncs = |p: Phase| qwen_syncs(p);
    lemma_head_barriers(5, qwen_layer(), qwen_head(), nl, syncs);
    assert(syncing(qwen_layer(), 15, syncs) == 15) by {
        reveal_with_fuel(syncing, 16);
    }
    assert(syncing(qwen_head(), 5, syncs) == 4) by {
        reveal_with_fuel(syncing, 6);
    }
}

// ------------------------------------------------------------------ all in turn

/// A pass starts with the embedding and goes through all phases of every layer, layer after
/// layer and in their order.
pub proof fn layers_go_through_all_phases(
    layer: Seq<Phase>,
    head: Seq<Phase>,
    nl: int,
    l: int,
    i: int,
)
    requires
        0 <= l < nl,
        0 <= i < layer.len(),
    ensures
        step_of(0, layer, head, nl) == Some((Phase::Embed, 0int)),
        step_of(1 + l * layer.len() + i, layer, head, nl) == Some((layer[i], l)),
{
    let n = layer.len() as int;
    assert(l * n + i < nl * n) by (nonlinear_arith)
        requires
            l + 1 <= nl,
            0 <= i < n,
    ;
    assert(0 <= l * n) by (nonlinear_arith)
        requires
            0 <= l,
            0 <= n,
    ;
    vstd::arithmetic::div_mod::lemma_fundamental_div_mod_converse(l * n + i, n, l, i);
}

/// After the last layer a pass goes through the phases of the head, and then it is over.
pub proof fn head_follows_the_last_layer(layer: Seq<Phase>, head: Seq<Phase>, nl: int, i: int)
    requires
        0 <= nl,
        0 <= i,
    ensures
        step_of(1 + nl * layer.len() + i, layer, head, nl) == if i < head.len() {
            Some((head[i], nl))
        } else {
            None
        },
{
    let n = layer.len() as int;
    assert(0 <= nl * n) by (nonlinear_arith)
        requires
            0 <= nl,
            0 <= n,
    ;
}

} // verus!
