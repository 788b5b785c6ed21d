//! Which places of the shared buffers the work items of a phase read and write.
//!
//! The workers of a pass share their buffers without locks. Two items that may run
//! at the same time, that is with no barrier between them, never meet: what one
//! writes the other neither writes nor reads.
use crate::attention::{
    cache_at, cache_place, cache_place_fits, cache_places_are_disjoint, MAXSEQ,
};
use crate::config::Cfg;
use crate::even::NT;
use crate::kmat::Grain;
use crate::routing::{head_item, projected, qkv_row, HeadItem, Projection};
use crate::schedule::{
    gptoss_head, gptoss_items_of, gptoss_layer, gptoss_syncs, qwen_head, qwen_items_of, qwen_layer,
    qwen_syncs, step_of, Phase,
};
use vstd::arithmetic::mul::{lemma_mul_inequality, lemma_mul_is_distributive_add_other_way};
use vstd::prelude::*;

verus! {

/// A buffer that the workers share.
#[derive(Clone, Copy, Debug, PartialEq, Eq, Structural)]
pub enum Store {
    /// The residual stream.
    Stream,
    /// The normalized stream.
    Normed,
    /// The levels of the normalized stream.
    Levels,
    /// The scales of the levels.
    Scales,
    /// The sums of the levels by 32.
    Sums,
    Queries,
    Keys,
    Values,
    /// The mixed values of all heads.
    Mixed,
    MixedLevels,
    MixedScales,
    MixedSums,
    /// What the input projections of the chosen experts give.
    Hidden,
    HiddenLevels,
    HiddenScales,
    HiddenSums,
    /// The router's logits.
    Router,
    Logits,
    /// The sums of squares, one for each worker.
    Squares,
    /// The best scores, one for each worker.
    Bests,
    KeyCache,
    ValueCache,
}

/// A place of a buffer.
pub struct Place {
    pub store: Store,
    pub at: int,
}

/// A run of places of a buffer.
#[derive(Clone, Copy, Debug, PartialEq, Eq, Structural)]
pub struct Span {
    pub store: Store,
    pub at: usize,
    pub len: usize,
}

impl Span {
    /// The run holds the place.
    pub open spec fn holds(&self, p: Place) -> bool {
        within(p, self.store, self.at as int, self.len as int)
    }
}

/// The place is one of `len` places from `at` on.
pub open spec fn within(p: Place, store: Store, at: int, len: int) -> bool {
    p.store == store && at <= p.at < at + len
}

/// Some run holds the place.
pub open spec fn held(spans: Seq<Span>, p: Place) -> bool {
    exists|i: int| 0 <= i < spans.len() && #[trigger] spans[i].holds(p)
}

/// The buffer of a projection.
pub open spec fn store_of(p: Projection) -> Store {
    match p {
        Projection::Query => Store::Queries,
        Projection::Key => Store::Keys,
        Projection::Value => Store::Values,
    }
}

/// Where the numbers of key and value head `h` at position `pos` start in the
/// caches of all layers.
pub open spec fn cached_at(c: Cfg, layer: int, pos: int, h: int) -> int {
    layer * (4096 * c.nkv * c.hd) + cache_place(pos, h, c.nkv as int, c.hd as int)
}

/// The places that head item `it` writes: its own query head; or its own key head
/// and the entries of the caches.
pub open spec fn rope_writes(c: Cfg, layer: int, pos: int, it: int, p: Place) -> bool {
    let (h, hd) = (it - c.nh, c.hd as int);
    if it < c.nh {
        within(p, Store::Queries, it * hd, hd)
    } else {
        ||| within(p, Store::Keys, h * hd, hd)
        ||| within(p, Store::KeyCache, cached_at(c, layer, pos, h), hd)
        ||| within(p, Store::ValueCache, cached_at(c, layer, pos, h), hd)
    }
}

/// The places that head item `it` reads: its own heads.
pub open spec fn rope_reads(c: Cfg, it: int, p: Place) -> bool {
    let (h, hd) = (it - c.nh, c.hd as int);
    if it < c.nh {
        within(p, Store::Queries, it * hd, hd)
    } else {
        ||| within(p, Store::Keys, h * hd, hd)
        ||| within(p, Store::Values, h * hd, hd)
    }
}

/// The places that row `it` of the queries, keys and values writes.
pub open spec fn qkv_writes(c: Cfg, it: int, p: Place) -> bool {
    let (which, row) = projected(it, c.nh as int, c.nkv as int, c.hd as int);
    within(p, store_of(which), row, 1)
}

/// Item `it` of a phase of the model with an attention window writes the place.
pub open spec fn gptoss_writes(
    phase: Phase,
    c: Cfg,
    layer: int,
    pos: int,
    it: int,
    p: Place,
) -> bool {
    let hd = c.hd as int;
    match phase {
        Phase::Embed | Phase::Project => within(p, Store::Stream, it, 1),
        Phase::AttnNorm | Phase::FfnNorm | Phase::HeadNorm => within(p, Store::Normed, it, 1),
        Phase::AttnQuant | Phase::FfnQuant | Phase::HeadQuant => {
            within(p, Store::Levels, 32 * it, 32) || within(p, Store::Scales, it, 1)
        },
        Phase::Qkv => qkv_writes(c, it, p),
        Phase::Rope => rope_writes(c, layer, pos, it, p),
        Phase::Attend => {
            ||| within(p, Store::Mixed, it * hd, hd)
            ||| within(p, Store::MixedLevels, it * hd, hd)
            ||| within(p, Store::MixedScales, it * (hd / 32), hd / 32)
        },
        Phase::Route => within(p, Store::Router, it, 1),
        Phase::GateUp => within(p, Store::Hidden, 4 * it, 4),
        Phase::Activate => {
            within(p, Store::HiddenLevels, 32 * it, 32) || within(p, Store::HiddenScales, it, 1)
        },
        Phase::Down => within(p, Store::Stream, 4 * it, 4),
        Phase::Head => within(p, Store::Logits, it, 1),
        _ => false,
    }
}

/// Item `it` of a phase of the model with an attention window reads the place.
pub open spec fn gptoss_reads(phase: Phase, c: Cfg, it: int, p: Place) -> bool {
    let hd = c.hd as int;
    match phase {
        Phase::AttnNorm | Phase::FfnNorm | Phase::HeadNorm => p.store == Store::Stream,
        Phase::AttnQuant | Phase::FfnQuant | Phase::HeadQuant => {
            within(p, Store::Normed, 32 * it, 32)
        },
        Phase::Qkv | Phase::Head => p.store == Store::Levels || p.store == Store::Scales,
        Phase::Rope => rope_reads(c, it, p),
        Phase::Attend => {
            ||| within(p, Store::Queries, it * hd, hd)
            ||| p.store == Store::KeyCache
            ||| p.store == Store::ValueCache
        },
        Phase::Project => {
            ||| within(p, Store::Stream, it, 1)
            ||| p.store == Store::MixedLevels
            ||| p.store == Store::MixedScales
        },
        Phase::Route => p.store == Store::Normed,
        Phase::GateUp => {
            p.store == Store::Router || p.store == Store::Levels || p.store == Store::Scales
        },
        Phase::Activate => p.store == Store::Hidden,
        Phase::Down => {
            ||| within(p, Store::Stream, 4 * it, 4)
            ||| p.store == Store::Router
            ||| p.store == Store::HiddenLevels
            ||| p.store == Store::HiddenScales
        },
        Phase::Pick => p.store == Store::Logits,
        _ => false,
    }
}

/// The number of units of work of a phase of the model with normalized heads: a
/// worker is one unit where it sums up or compares its whole run.
pub open spec fn qwen_units_of(phase: Phase, c: Cfg, grain: Grain) -> int {
    match phase {
        Phase::AttnSquares | Phase::FfnSquares | Phase::HeadSquares | Phase::Head => NT as int,
        _ => qwen_items_of(phase, c, grain),
    }
}

/// Run `it` of the numbers of a buffer that share a scale.
pub open spec fn grain_at(store: Store, grain: Grain, it: int, p: Place) -> bool {
    match grain {
        Grain::Block | Grain::Split => within(p, store, 32 * it, 32),
        Grain::Super => within(p, store, 256 * it, 256),
    }
}

/// Run `it` of levels that share a scale, with that scale and their sums by 32.
pub open spec fn quantized_at(
    levels: Store,
    scales: Store,
    sums: Store,
    grain: Grain,
    it: int,
    p: Place,
) -> bool {
    ||| grain_at(levels, grain, it, p)
    ||| within(p, scales, it, 1)
    ||| match grain {
        Grain::Block | Grain::Split => within(p, sums, it, 1),
        Grain::Super => within(p, sums, 8 * it, 8),
    }
}

/// Unit `it` of a phase of the model with normalized heads writes the place.
pub open spec fn qwen_writes(
    phase: Phase,
    c: Cfg,
    grain: Grain,
    layer: int,
    pos: int,
    it: int,
    p: Place,
) -> bool {
    let hd = c.hd as int;
    match phase {
        Phase::Embed => within(p, Store::Stream, 256 * it, 256),
        Phase::AttnSquares | Phase::FfnSquares | Phase::HeadSquares => {
            within(p, Store::Squares, it, 1)
        },
        Phase::AttnNorm | Phase::FfnNorm | Phase::HeadNorm => within(p, Store::Normed, it, 1),
        Phase::AttnQuant | Phase::FfnQuant | Phase::HeadQuant => {
            quantized_at(Store::Levels, Store::Scales, Store::Sums, grain, it, p)
        },
        Phase::Qkv => qkv_writes(c, it, p),
        Phase::Rope => rope_writes(c, layer, pos, it, p),
        Phase::Attend => within(p, Store::Mixed, it * hd, hd),
        Phase::AttendQuant => {
            quantized_at(Store::MixedLevels, Store::MixedScales, Store::MixedSums, grain, it, p)
        },
        Phase::Project | Phase::Down => within(p, Store::Stream, it, 1),
        Phase::Route => within(p, Store::Router, it, 1),
        Phase::GateUp => within(p, Store::Hidden, it, 1),
        Phase::HiddenQuant => {
            quantized_at(Store::HiddenLevels, Store::HiddenScales, Store::HiddenSums, grain, it, p)
        },
        Phase::Head => within(p, Store::Bests, it, 1),
        _ => false,
    }
}

/// The place is in a buffer of levels, scales and sums of the stream.
pub open spec fn is_quantized(p: Place) -> bool {
    p.store == Store::Levels || p.store == Store::Scales || p.store == Store::Sums
}

/// Unit `it` of a phase of the model with normalized heads reads the place.
pub open spec fn qwen_reads(phase: Phase, c: Cfg, grain: Grain, it: int, p: Place) -> bool {
    let hd = c.hd as int;
    match phase {
        Phase::AttnSquares | Phase::FfnSquares | Phase::HeadSquares => p.store == Store::Stream,
        Phase::AttnNorm | Phase::FfnNorm | Phase::HeadNorm => {
            p.store == Store::Stream || p.store == Store::Squares
        },
        Phase::AttnQuant | Phase::FfnQuant | Phase::HeadQuant => {
            grain_at(Store::Normed, grain, it, p)
        },
        Phase::Qkv | Phase::Head => is_quantized(p),
        Phase::Rope => rope_reads(c, it, p),
        Phase::Attend => {
            ||| within(p, Store::Queries, it * hd, hd)
            ||| p.store == Store::KeyCache
            ||| p.store == Store::ValueCache
        },
        Phase::AttendQuant => grain_at(Store::Mixed, grain, it, p),
        Phase::Project => {
            ||| within(p, Store::Stream, it, 1)
            ||| p.store == Store::MixedLevels
            ||| p.store == Store::MixedScales
            ||| p.store == Store::MixedSums
        },
        Phase::Route => p.store == Store::Normed,
        Phase::GateUp => p.store == Store::Router || is_quantized(p),
        Phase::HiddenQuant => grain_at(Store::Hidden, grain, it, p),
        Phase::Down => {
            ||| within(p, Store::Stream, it, 1)
            ||| p.store == Store::Router
            ||| p.store == Store::HiddenLevels
            ||| p.store == Store::HiddenScales
            ||| p.store == Store::HiddenSums
        },
        Phase::Pick => p.store == Store::Bests,
        _ => false,
    }
}

// --------------------------------------------------------- what a phase fills

/// A phase of the model with an attention window writes into the buffer.
pub open spec fn gptoss_filled(phase: Phase, store: Store) -> bool {
    match phase {
        Phase::Embed | Phase::Project | Phase::Down => store == Store::Stream,
        Phase::AttnNorm | Phase::FfnNorm | Phase::HeadNorm => store == Store::Normed,
        Phase::AttnQuant | Phase::FfnQuant | Phase::HeadQuant => {
            store == Store::Levels || store == Store::Scales
        },
        Phase::Qkv => store == Store::Queries || store == Store::Keys || store == Store::Values,
        Phase::Rope => {
            ||| store == Store::Queries
            ||| store == Store::Keys
            ||| store == Store::KeyCache
            ||| store == Store::ValueCache
        },
        Phase::Attend => {
            ||| store == Store::Mixed
            ||| store == Store::MixedLevels
            ||| store == Store::MixedScales
        },
        Phase::Route => store == Store::Router,
        Phase::GateUp => store == Store::Hidden,
        Phase::Activate => store == Store::HiddenLevels || store == Store::HiddenScales,
        Phase::Head => store == Store::Logits,
        _ => false,
    }
}

/// A phase of the model with normalized heads writes into the buffer.
pub open spec fn qwen_filled(phase: Phase, store: Store) -> bool {
    match phase {
        Phase::Embed | Phase::Project | Phase::Down => store == Store::Stream,
        Phase::AttnSquares | Phase::FfnSquares | Phase::HeadSquares => store == Store::Squares,
        Phase::AttnNorm | Phase::FfnNorm | Phase::HeadNorm => store == Store::Normed,
        Phase::AttnQuant | Phase::FfnQuant | Phase::HeadQuant => {
            store == Store::Levels || store == Store::Scales || store == Store::Sums
        },
        Phase::Qkv => store == Store::Queries || store == Store::Keys || store == Store::Values,
        Phase::Rope => {
            ||| store == Store::Queries
            ||| store == Store::Keys
            ||| store == Store::KeyCache
            ||| store == Store::ValueCache
        },
        Phase::Attend => store == Store::Mixed,
        Phase::AttendQuant => {
            ||| store == Store::MixedLevels
            ||| store == Store::MixedScales
            ||| store == Store::MixedSums
        },
        Phase::Route => store == Store::Router,
        Phase::GateUp => store == Store::Hidden,
        Phase::HiddenQuant => {
            ||| store == Store::HiddenLevels
            ||| store == Store::HiddenScales
            ||| store == Store::HiddenSums
        },
        Phase::Head => store == Store::Bests,
        _ => false,
    }
}

/// Whether a phase of the model with an attention window writes into the buffer.
pub fn gptoss_fills(phase: Phase, store: Store) -> (r: bool)
    ensures
        r == gptoss_filled(phase, store),
{
    match phase {
        Phase::Embed | Phase::Project | Phase::Down => store == Store::Stream,
        Phase::AttnNorm | Phase::FfnNorm | Phase::HeadNorm => store == Store::Normed,
        Phase::AttnQuant | Phase::FfnQuant | Phase::HeadQuant => {
            store == Store::Levels || store == Store::Scales
        },
        Phase::Qkv => store == Store::Queries || store == Store::Keys || store == Store::Values,
        Phase::Rope => {
            store == Store::Queries || store == Store::Keys || store == Store::KeyCache || store
                == Store::ValueCache
        },
        Phase::Attend => {
            store == Store::Mixed || store == Store::MixedLevels || store == Store::MixedScales
        },
        Phase::Route => store == Store::Router,
        Phase::GateUp => store == Store::Hidden,
        Phase::Activate => store == Store::HiddenLevels || store == Store::HiddenScales,
        Phase::Head => store == Store::Logits,
        _ => false,
    }
}

/// Whether a phase of the model with normalized heads writes into the buffer.
pub fn qwen_fills(phase: Phase, store: Store) -> (r: bool)
    ensures
        r == qwen_filled(phase, store),
{
    match phase {
        Phase::Embed | Phase::Project | Phase::Down => store == Store::Stream,
        Phase::AttnSquares | Phase::FfnSquares | Phase::HeadSquares => store == Store::Squares,
        Phase::AttnNorm | Phase::FfnNorm | Phase::HeadNorm => store == Store::Normed,
        Phase::AttnQuant | Phase::FfnQuant | Phase::HeadQuant => {
            store == Store::Levels || store == Store::Scales || store == Store::Sums
        },
        Phase::Qkv => store == Store::Queries || store == Store::Keys || store == Store::Values,
        Phase::Rope => {
            store == Store::Queries || store == Store::Keys || store == Store::KeyCache || store
                == Store::ValueCache
        },
        Phase::Attend => store == Store::Mixed,
        Phase::AttendQuant => {
            store == Store::MixedLevels || store == Store::MixedScales || store
                == Store::MixedSums
        },
        Phase::Route => store == Store::Router,
        Phase::GateUp => store == Store::Hidden,
        Phase::HiddenQuant => {
            store == Store::HiddenLevels || store == Store::HiddenScales || store
                == Store::HiddenSums
        },
        Phase::Head => store == Store::Bests,
        _ => false,
    }
}

/// The places that a phase writes are places of the buffers that it fills.
pub proof fn writes_are_filled(
    phase: Phase,
    c: Cfg,
    grain: Grain,
    layer: int,
    pos: int,
    it: int,
    p: Place,
)
    ensures
        gptoss_writes(phase, c, layer, pos, it, p) ==> gptoss_filled(phase, p.store),
        qwen_writes(phase, c, grain, layer, pos, it, p) ==> qwen_filled(phase, p.store),
{
}

// ---------------------------------------------------------------- no two meet

/// Runs of the same length that start at different multiples of it are apart.
proof fn lemma_runs_apart(i: int, j: int, w: int, at: int)
    requires
        i != j,
        i * w <= at < i * w + w,
    ensures
        !(j * w <= at < j * w + w),
{
    if i < j {
        lemma_mul_inequality(i + 1, j, w);
        lemma_mul_is_distributive_add_other_way(w, i, 1);
    } else {
        lemma_mul_inequality(j + 1, i, w);
        lemma_mul_is_distributive_add_other_way(w, j, 1);
    }
}

proof fn lemma_rope_apart(c: Cfg, layer: int, pos: int, i: int, j: int, p: Place)
    requires
        0 <= i < c.nh + c.nkv,
        0 <= j < c.nh + c.nkv,
        i != j,
        0 <= pos,
        rope_writes(c, layer, pos, i, p),
    ensures
        !rope_writes(c, layer, pos, j, p),
        !rope_reads(c, j, p),
{
    let hd = c.hd as int;
    if i < c.nh {
        if j < c.nh {
            lemma_runs_apart(i, j, hd, p.at);
        }
    } else if j >= c.nh {
        let (a, b) = (i - c.nh, j - c.nh);
        if p.store == Store::Keys {
            lemma_runs_apart(a, b, hd, p.at);
        } else {
            let (x, y) = (cached_at(c, layer, pos, a), cached_at(c, layer, pos, b));
            if y <= p.at < y + hd {
                cache_places_are_disjoint(
                    pos,
                    a,
                    pos,
                    b,
                    c.nkv as int,
                    hd,
                    p.at - x,
                    p.at - y,
                );
            }
        }
    }
}

/// No barrier stands between step `k` and a step `l` that is not before it.
pub open spec fn unparted(
    k: int,
    l: int,
    layer: Seq<Phase>,
    head: Seq<Phase>,
    nl: int,
    syncs: spec_fn(Phase) -> bool,
) -> bool {
    &&& k <= l
    &&& forall|m: int|
        k <= m < l ==> match #[trigger] step_of(m, layer, head, nl) {
            Some((phase, _)) => !syncs(phase),
            None => true,
        }
}

/// Two items of a pass of the model with an attention window that no barrier parts
/// never meet, whichever of them comes first: what one writes the other neither
/// writes nor reads. `k` and `l` are the steps of the items `i` and `j`.
pub proof fn gptoss_items_never_meet(
    c: Cfg,
    nl: int,
    want: bool,
    pos: int,
    k: int,
    l: int,
    i: int,
    j: int,
    p: Place,
)
    requires
        0 <= nl,
        0 <= pos,
        0 <= k,
        0 <= l,
        unparted(k, l, gptoss_layer(), gptoss_head(want), nl, |f: Phase| gptoss_syncs(f))
            || unparted(l, k, gptoss_layer(), gptoss_head(want), nl, |f: Phase| gptoss_syncs(f)),
        (k, i) != (l, j),
        step_of(k, gptoss_layer(), gptoss_head(want), nl) matches Some((f, layer)) && 0 <= i
            < gptoss_items_of(f, c) && gptoss_writes(f, c, layer, pos, i, p),
        step_of(l, gptoss_layer(), gptoss_head(want), nl) matches Some((g, _)) && 0 <= j
            < gptoss_items_of(g, c),
    ensures
        step_of(l, gptoss_layer(), gptoss_head(want), nl) matches Some((g, layer))
            && !gptoss_writes(g, c, layer, pos, j, p) && !gptoss_reads(g, c, j, p),
{
    let (ph, hd) = (gptoss_layer(), gptoss_head(want));
    let syncs = |f: Phase| gptoss_syncs(f);
    let (f, la) = step_of(k, ph, hd, nl)->0;
    let (g, lb) = step_of(l, ph, hd, nl)->0;
    if k == l {
        lemma_gptoss_apart(f, c, la, pos, i, j, p);
    } else {
        let (lo, hi) = if k < l {
            (k, l)
        } else {
            (l, k)
        };
        let (low, _) = step_of(lo, ph, hd, nl)->0;
        assert(!syncs(low));
        assert(low == Phase::FfnQuant || low == Phase::Pick);
        lemma_after_quant(lo, want, nl);
        if hi > lo + 1 {
            assert(step_of(lo + 1, ph, hd, nl) matches Some((x, _)) ==> !syncs(x));
        }
    }
}

/// After the quantization before the router comes the router, and after the
/// choice of a token nothing.
proof fn lemma_after_quant(k: int, want: bool, nl: int)
    requires
        0 <= k,
        0 <= nl,
    ensures
        step_of(k, gptoss_layer(), gptoss_head(want), nl) matches Some((Phase::FfnQuant, layer))
            ==> step_of(k + 1, gptoss_layer(), gptoss_head(want), nl) == Some(
            (Phase::Route, layer),
        ),
        step_of(k, gptoss_layer(), gptoss_head(want), nl) matches Some((Phase::Pick, _)) ==> forall|
            m: int,
        |
            k < m ==> #[trigger] step_of(m, gptoss_layer(), gptoss_head(want), nl) is None,
{
    let n = k - 1;
    assert(gptoss_layer().len() == 12);
    if 0 < k && n < nl * 12 {
        vstd::arithmetic::div_mod::lemma_fundamental_div_mod(n, 12);
        if n % 12 == 7 {
            assert((n + 1) % 12 == 8 && (n + 1) / 12 == n / 12);
            assert(n + 1 < nl * 12);
        }
    }
}

proof fn lemma_qkv_apart(c: Cfg, i: int, j: int, p: Place)
    requires
        i != j,
        qkv_writes(c, i, p),
    ensures
        !qkv_writes(c, j, p),
{
}

proof fn lemma_gptoss_apart(phase: Phase, c: Cfg, layer: int, pos: int, i: int, j: int, p: Place)
    requires
        0 <= pos,
        i != j,
        0 <= i < gptoss_items_of(phase, c),
        0 <= j < gptoss_items_of(phase, c),
        gptoss_writes(phase, c, layer, pos, i, p),
    ensures
        !gptoss_writes(phase, c, layer, pos, j, p),
        !gptoss_reads(phase, c, j, p),
{
    let hd = c.hd as int;
    match phase {
        Phase::Qkv => lemma_qkv_apart(c, i, j, p),
        Phase::Rope => lemma_rope_apart(c, layer, pos, i, j, p),
        Phase::Attend => {
            if p.store == Store::MixedScales {
                lemma_runs_apart(i, j, hd / 32, p.at);
            } else {
                lemma_runs_apart(i, j, hd, p.at);
            }
        },
        _ => {},
    }
}

/// Two units of a pass of the model with normalized heads that no barrier parts
/// never meet: what one writes the other neither writes nor reads. `k` and `l` are
/// the steps of the units `i` and `j`.
pub proof fn qwen_units_never_meet(
    c: Cfg,
    grain: Grain,
    nl: int,
    pos: int,
    k: int,
    l: int,
    i: int,
    j: int,
    p: Place,
)
    requires
        0 <= nl,
        0 <= pos,
        0 <= k,
        0 <= l,
        unparted(k, l, qwen_layer(), qwen_head(), nl, |f: Phase| qwen_syncs(f)) || unparted(
            l,
            k,
            qwen_layer(),
            qwen_head(),
            nl,
            |f: Phase| qwen_syncs(f),
        ),
        (k, i) != (l, j),
        step_of(k, qwen_layer(), qwen_head(), nl) matches Some((f, layer)) && 0 <= i
            < qwen_units_of(f, c, grain) && qwen_writes(f, c, grain, layer, pos, i, p),
        step_of(l, qwen_layer(), qwen_head(), nl) matches Some((g, _)) && 0 <= j < qwen_units_of(
            g,
            c,
            grain,
        ),
    ensures
        step_of(l, qwen_layer(), qwen_head(), nl) matches Some((g, layer)) && !qwen_writes(
            g,
            c,
            grain,
            layer,
            pos,
            j,
            p,
        ) && !qwen_reads(g, c, grain, j, p),
{
    let (ph, hd) = (qwen_layer(), qwen_head());
    let syncs = |f: Phase| qwen_syncs(f);
    let (f, la) = step_of(k, ph, hd, nl)->0;
    if k == l {
        match f {
            Phase::Qkv => lemma_qkv_apart(c, i, j, p),
            Phase::Rope => lemma_rope_apart(c, la, pos, i, j, p),
            Phase::Attend => lemma_runs_apart(i, j, c.hd as int, p.at),
            _ => {},
        }
    } else {
        let lo = if k < l {
            k
        } else {
            l
        };
        let (low, _) = step_of(lo, ph, hd, nl)->0;
        assert(!syncs(low));
    }
}

// ------------------------------------------------------------ what is written

/// The number of places of a buffer of the model with an attention window.
pub open spec fn gptoss_len(store: Store, c: Cfg) -> int {
    match store {
        Store::Stream | Store::Normed | Store::Levels => c.d as int,
        Store::Scales => c.d as int / 32,
        Store::Queries | Store::Mixed | Store::MixedLevels => c.nh * c.hd,
        Store::Keys | Store::Values => c.nkv * c.hd,
        Store::MixedScales => c.nh * (c.hd as int / 32),
        Store::Hidden => c.topk * (2 * c.d),
        Store::HiddenLevels => c.topk * c.d,
        Store::HiddenScales => c.topk * (c.d as int / 32),
        Store::Router => c.ne as int,
        Store::Logits => c.nvocab as int,
        Store::KeyCache | Store::ValueCache => c.nl * (4096 * c.nkv * c.hd),
        _ => 0,
    }
}

/// The runs are the places that an item writes, and all of them lie inside their
/// buffers.
pub open spec fn are_targets(
    spans: Seq<Span>,
    writes: spec_fn(Place) -> bool,
    len: spec_fn(Store) -> int,
) -> bool {
    &&& forall|p: Place| #![trigger held(spans, p)] writes(p) <==> held(spans, p)
    &&& forall|i: int|
        0 <= i < spans.len() ==> (#[trigger] spans[i]).at + spans[i].len <= len(spans[i].store)
}

/// One run.
fn one(store: Store, at: usize, len: usize) -> (r: Vec<Span>)
    ensures
        r@ == seq![Span { store, at, len }],
        forall|p: Place| held(r@, p) <==> within(p, store, at as int, len as int),
{
    let a = Span { store, at, len };
    let r: Vec<Span> = vec![a];
    proof {
        assert(r@ =~= seq![a]);
        assert forall|p: Place| held(r@, p) <==> within(p, store, at as int, len as int) by {
            if a.holds(p) {
                assert(r@[0].holds(p));
            }
        }
    }
    r
}

/// The runs with one more after them.
fn and(runs: Vec<Span>, store: Store, at: usize, len: usize) -> (r: Vec<Span>)
    requires
        runs.len() < 8,
    ensures
        r@ == runs@.push(Span { store, at, len }),
        forall|p: Place|
            held(r@, p) <==> held(runs@, p) || within(p, store, at as int, len as int),
{
    let a = Span { store, at, len };
    let ghost before = runs@;
    let mut r: Vec<Span> = runs;
    r.push(a);
    proof {
        assert forall|p: Place|
            held(r@, p) <==> held(before, p) || within(p, store, at as int, len as int) by {
            if held(before, p) {
                let i = choose|i: int| 0 <= i < before.len() && #[trigger] before[i].holds(p);
                assert(r@[i].holds(p));
            }
            if within(p, store, at as int, len as int) {
                assert(r@[before.len() as int].holds(p));
            }
            if held(r@, p) {
                let i = choose|i: int| 0 <= i < r@.len() && #[trigger] r@[i].holds(p);
                if i < before.len() {
                    assert(before[i].holds(p));
                }
            }
        }
    }
    r
}

/// Run `it` of `n` runs of `w` places lies among `n * w` places.
proof fn lemma_run_inside(it: int, n: int, w: int)
    requires
        0 <= it < n,
        0 <= w,
    ensures
        0 <= it * w,
        it * w + w <= n * w,
{
    lemma_mul_inequality(it + 1, n, w);
    lemma_mul_is_distributive_add_other_way(w, it, 1);
    assert(0 <= it * w) by (nonlinear_arith)
        requires
            0 <= it,
            0 <= w,
    ;
}

/// A run of places.
pub open spec fn span(store: Store, at: int, len: int) -> Span {
    Span { store, at: at as usize, len: len as usize }
}

/// The runs of places that head item `it` writes.
pub open spec fn rope_spans(c: Cfg, layer: int, pos: int, it: int) -> Seq<Span> {
    let (h, hd) = (it - c.nh, c.hd as int);
    if it < c.nh {
        seq![span(Store::Queries, it * hd, hd)]
    } else {
        let at = cached_at(c, layer, pos, h);
        seq![
            span(Store::Keys, h * hd, hd),
            span(Store::KeyCache, at, hd),
            span(Store::ValueCache, at, hd),
        ]
    }
}

/// The runs of places that item `it` of a phase of the model with an attention
/// window writes.
pub open spec fn gptoss_spans(phase: Phase, c: Cfg, layer: int, pos: int, it: int) -> Seq<Span> {
    let (hd, nb) = (c.hd as int, c.hd as int / 32);
    match phase {
        Phase::Embed | Phase::Project => seq![span(Store::Stream, it, 1)],
        Phase::AttnNorm | Phase::FfnNorm | Phase::HeadNorm => seq![span(Store::Normed, it, 1)],
        Phase::AttnQuant | Phase::FfnQuant | Phase::HeadQuant => {
            seq![span(Store::Levels, 32 * it, 32), span(Store::Scales, it, 1)]
        },
        Phase::Qkv => {
            let (which, row) = projected(it, c.nh as int, c.nkv as int, hd);
            seq![span(store_of(which), row, 1)]
        },
        Phase::Rope => rope_spans(c, layer, pos, it),
        Phase::Attend => seq![
            span(Store::Mixed, it * hd, hd),
            span(Store::MixedLevels, it * hd, hd),
            span(Store::MixedScales, it * nb, nb),
        ],
        Phase::Route => seq![span(Store::Router, it, 1)],
        Phase::GateUp => seq![span(Store::Hidden, 4 * it, 4)],
        Phase::Activate => {
            seq![span(Store::HiddenLevels, 32 * it, 32), span(Store::HiddenScales, it, 1)]
        },
        Phase::Down => seq![span(Store::Stream, 4 * it, 4)],
        Phase::Head => seq![span(Store::Logits, it, 1)],
        _ => Seq::empty(),
    }
}

/// The runs of places that head item `it` writes.
fn rope_targets(c: &Cfg, layer: usize, pos: usize, it: usize) -> (r: Vec<Span>)
    requires
        c.is_sound(),
        layer < c.nl,
        pos < MAXSEQ,
        it < c.nh + c.nkv,
    ensures
        r@ == rope_spans(*c, layer as int, pos as int, it as int),
        are_targets(
            r@,
            |p: Place| rope_writes(*c, layer as int, pos as int, it as int, p),
            |s: Store| gptoss_len(s, *c),
        ),
        are_targets(
            r@,
            |p: Place| rope_writes(*c, layer as int, pos as int, it as int, p),
            |s: Store| qwen_len(s, *c, Grain::Block),
        ),
        are_targets(
            r@,
            |p: Place| rope_writes(*c, layer as int, pos as int, it as int, p),
            |s: Store| qwen_len(s, *c, Grain::Split),
        ),
        are_targets(
            r@,
            |p: Place| rope_writes(*c, layer as int, pos as int, it as int, p),
            |s: Store| qwen_len(s, *c, Grain::Super),
        ),
{
    match head_item(it, c.nh, c.nkv) {
        HeadItem::Query(h) => {
            proof {
                lemma_run_inside(h as int, c.nh as int, c.hd as int);
            }
            one(Store::Queries, h * c.hd, c.hd)
        },
        HeadItem::KeyValue(h) => {
            proof {
                lemma_run_inside(h as int, c.nkv as int, c.hd as int);
            }
            let at: usize = cache_at(c.nl, layer, pos, h, c.nkv, c.hd);
            let keys: Vec<Span> = one(Store::Keys, h * c.hd, c.hd);
            and(and(keys, Store::KeyCache, at, c.hd), Store::ValueCache, at, c.hd)
        },
    }
}

/// The run of places that row `it` of the queries, keys and values writes.
fn qkv_targets(c: &Cfg, it: usize) -> (r: Vec<Span>)
    requires
        c.is_sound(),
        it < c.nh * c.hd + 2 * c.nkv * c.hd,
    ensures
        ({
            let (which, row) = projected(it as int, c.nh as int, c.nkv as int, c.hd as int);
            r@ == seq![span(store_of(which), row, 1)]
        }),
        are_targets(r@, |p: Place| qkv_writes(*c, it as int, p), |s: Store| gptoss_len(s, *c)),
        are_targets(
            r@,
            |p: Place| qkv_writes(*c, it as int, p),
            |s: Store| qwen_len(s, *c, Grain::Block),
        ),
        are_targets(
            r@,
            |p: Place| qkv_writes(*c, it as int, p),
            |s: Store| qwen_len(s, *c, Grain::Split),
        ),
        are_targets(
            r@,
            |p: Place| qkv_writes(*c, it as int, p),
            |s: Store| qwen_len(s, *c, Grain::Super),
        ),
{
    let (which, row) = qkv_row(it, c.nh, c.nkv, c.hd);
    match which {
        Projection::Query => one(Store::Queries, row, 1),
        Projection::Key => one(Store::Keys, row, 1),
        Projection::Value => one(Store::Values, row, 1),
    }
}

/// The runs of places that item `it` of a phase of the model with an attention
/// window writes.
pub fn gptoss_targets(phase: Phase, c: &Cfg, layer: usize, pos: usize, it: usize) -> (r: Vec<Span>)
    requires
        c.is_sound(),
        phase == Phase::Rope ==> layer < c.nl,
        pos < MAXSEQ,
        it < gptoss_items_of(phase, *c),
    ensures
        r@ == gptoss_spans(phase, *c, layer as int, pos as int, it as int),
        are_targets(
            r@,
            |p: Place| gptoss_writes(phase, *c, layer as int, pos as int, it as int, p),
            |s: Store| gptoss_len(s, *c),
        ),
{
    match phase {
        Phase::Embed | Phase::Project => one(Store::Stream, it, 1),
        Phase::AttnNorm | Phase::FfnNorm | Phase::HeadNorm => one(Store::Normed, it, 1),
        Phase::AttnQuant | Phase::FfnQuant | Phase::HeadQuant => {
            and(one(Store::Levels, 32 * it, 32), Store::Scales, it, 1)
        },
        Phase::Qkv => qkv_targets(c, it),
        Phase::Rope => rope_targets(c, layer, pos, it),
        Phase::Attend => {
            let nb: usize = c.hd / 32;
            proof {
                lemma_run_inside(it as int, c.nh as int, c.hd as int);
                lemma_run_inside(it as int, c.nh as int, nb as int);
                assert(it * nb <= it * c.hd) by (nonlinear_arith)
                    requires
                        nb <= c.hd,
                ;
            }
            let mixed: Vec<Span> = one(Store::Mixed, it * c.hd, c.hd);
            and(and(mixed, Store::MixedLevels, it * c.hd, c.hd), Store::MixedScales, it * nb, nb)
        },
        Phase::Route => one(Store::Router, it, 1),
        Phase::GateUp => {
            proof {
                lemma_four_fit(*c, it as int);
            }
            one(Store::Hidden, 4 * it, 4)
        },
        Phase::Activate => {
            proof {
                lemma_blocks_fit(*c, it as int);
            }
            and(one(Store::HiddenLevels, 32 * it, 32), Store::HiddenScales, it, 1)
        },
        Phase::Down => one(Store::Stream, 4 * it, 4),
        Phase::Head => one(Store::Logits, it, 1),
        _ => Vec::new(),
    }
}

/// The entries of a head in the caches lie inside them.
proof fn lemma_cached_inside(c: Cfg, layer: int, pos: int, h: int)
    requires
        c.is_sound(),
        0 <= layer < c.nl,
        0 <= pos < MAXSEQ,
        0 <= h < c.nkv,
    ensures
        0 <= cached_at(c, layer, pos, h),
        cached_at(c, layer, pos, h) + c.hd <= c.nl * (4096 * c.nkv * c.hd),
{
    let per = 4096 * c.nkv * c.hd;
    cache_place_fits(pos, h, c.nkv as int, c.hd as int, 4096);
    assert(0 <= per) by (nonlinear_arith)
        requires
            per == 4096 * c.nkv * c.hd,
            0 <= c.nkv,
            0 <= c.hd,
    ;
    lemma_run_inside(layer, c.nl as int, per);
}

/// The runs of head item `it` hold no place but those that it writes.
proof fn lemma_rope_held(c: Cfg, layer: int, pos: int, it: int, p: Place)
    requires
        c.is_sound(),
        0 <= layer < c.nl,
        0 <= pos < MAXSEQ,
        0 <= it < c.nh + c.nkv,
        held(rope_spans(c, layer, pos, it), p),
    ensures
        rope_writes(c, layer, pos, it, p),
{
    let spans = rope_spans(c, layer, pos, it);
    let i = choose|i: int| 0 <= i < spans.len() && #[trigger] spans[i].holds(p);
    let (h, hd) = (it - c.nh, c.hd as int);
    if it < c.nh {
        lemma_run_inside(it, c.nh as int, hd);
    } else {
        lemma_run_inside(h, c.nkv as int, hd);
        lemma_cached_inside(c, layer, pos, h);
        assert(i == 0 || i == 1 || i == 2);
    }
}

/// The runs of item `it` of a phase of the model with an attention window hold no
/// place but those that it writes.
pub proof fn gptoss_runs_are_written(phase: Phase, c: Cfg, layer: int, pos: int, it: int, p: Place)
    requires
        c.is_sound(),
        phase == Phase::Rope ==> 0 <= layer < c.nl,
        0 <= pos < MAXSEQ,
        0 <= it < gptoss_items_of(phase, c),
        held(gptoss_spans(phase, c, layer, pos, it), p),
    ensures
        gptoss_writes(phase, c, layer, pos, it, p),
{
    let spans = gptoss_spans(phase, c, layer, pos, it);
    let i = choose|i: int| 0 <= i < spans.len() && #[trigger] spans[i].holds(p);
    match phase {
        Phase::Rope => {
            lemma_rope_held(c, layer, pos, it, p);
        },
        Phase::Attend => {
            let nb = c.hd as int / 32;
            lemma_run_inside(it, c.nh as int, c.hd as int);
            lemma_run_inside(it, c.nh as int, nb);
            assert(it * nb <= it * c.hd) by (nonlinear_arith)
                requires
                    nb <= c.hd,
                    0 <= it,
            ;
            assert(i == 0 || i == 1 || i == 2);
        },
        Phase::GateUp => {
            lemma_four_fit(c, it);
        },
        Phase::Activate => {
            lemma_blocks_fit(c, it);
            assert(i == 0 || i == 1);
        },
        Phase::AttnQuant | Phase::FfnQuant | Phase::HeadQuant => {
            assert(i == 0 || i == 1);
        },
        _ => {},
    }
}

/// The four results of an item of the input projections lie in their buffer.
proof fn lemma_four_fit(c: Cfg, it: int)
    requires
        c.is_sound(),
        0 <= it < c.topk * (2 * (c.d as int / 4)),
    ensures
        4 * it + 4 <= c.topk * (2 * c.d),
        4 * it + 4 <= usize::MAX,
{
    assert(c.topk * (2 * c.d) == 4 * (c.topk * (2 * (c.d as int / 4)))) by (nonlinear_arith)
        requires
            c.d == 4 * (c.d as int / 4),
    ;
}

/// The block of an item of the activation lies in its buffer.
proof fn lemma_blocks_fit(c: Cfg, it: int)
    requires
        c.is_sound(),
        0 <= it < c.topk * (c.d as int / 32),
    ensures
        32 * it + 32 <= c.topk * c.d,
        32 * it + 32 <= usize::MAX,
{
    assert(c.topk * c.d == 32 * (c.topk * (c.d as int / 32))) by (nonlinear_arith)
        requires
            c.d == 32 * (c.d as int / 32),
    ;
    assert(c.topk * c.d <= c.topk * (2 * c.d)) by (nonlinear_arith);
}

/// The number of places of a buffer of the model with an attention window.
pub fn gptoss_room(store: Store, c: &Cfg) -> (n: usize)
    requires
        c.is_sound(),
    ensures
        n == gptoss_len(store, *c),
{
    proof {
        assert(c.nh * (c.hd as int / 32) <= c.nh * c.hd) by (nonlinear_arith)
            requires
                c.hd as int / 32 <= c.hd,
        ;
        assert(c.topk * c.d <= c.topk * (2 * c.d)) by (nonlinear_arith);
        assert(c.topk * (c.d as int / 32) <= c.topk * (2 * c.d)) by (nonlinear_arith)
            requires
                c.d as int / 32 <= 2 * c.d,
        ;
        assert(0 <= c.nkv * c.hd <= c.nl * (4096 * c.nkv * c.hd) || c.nl == 0) by (nonlinear_arith);
    }
    match store {
        Store::Stream | Store::Normed | Store::Levels => c.d,
        Store::Scales => c.d / 32,
        Store::Queries | Store::Mixed | Store::MixedLevels => c.nh * c.hd,
        Store::Keys | Store::Values => c.nkv * c.hd,
        Store::MixedScales => c.nh * (c.hd / 32),
        Store::Hidden => if c.topk == 0 {
            assert(0 * (2 * c.d) == 0) by (nonlinear_arith);
            0
        } else {
            assert(2 * c.d <= c.topk * (2 * c.d)) by (nonlinear_arith)
                requires
                    c.topk > 0,
            ;
            c.topk * (2 * c.d)
        },
        Store::HiddenLevels => c.topk * c.d,
        Store::HiddenScales => c.topk * (c.d / 32),
        Store::Router => c.ne,
        Store::Logits => c.nvocab,
        Store::KeyCache | Store::ValueCache => cache_room(c),
        _ => 0,
    }
}

/// The number of places of the caches of all layers.
fn cache_room(c: &Cfg) -> (n: usize)
    requires
        c.is_sound(),
    ensures
        n == c.nl * (4096 * c.nkv * c.hd),
{
    if c.nl == 0 {
        assert(0 * (4096 * c.nkv * c.hd) == 0) by (nonlinear_arith);
        return 0;
    }
    proof {
        let per = 4096 * c.nkv * c.hd;
        assert(0 <= 4096 * c.nkv <= per <= c.nl * per) by (nonlinear_arith)
            requires
                per == 4096 * c.nkv * c.hd,
                c.hd > 0,
                c.nl > 0,
        ;
    }
    c.nl * (4096 * c.nkv * c.hd)
}

// --------------------------------------------- the model with normalized heads

/// The number of places of a buffer of the model with normalized heads.
pub open spec fn qwen_len(store: Store, c: Cfg, grain: Grain) -> int {
    let w = grain.width();
    match store {
        Store::Stream | Store::Normed | Store::Levels => c.d as int,
        Store::Scales => c.d as int / w,
        Store::Sums => c.d as int / 32,
        Store::Queries | Store::Mixed | Store::MixedLevels => c.nh * c.hd,
        Store::Keys | Store::Values => c.nkv * c.hd,
        Store::MixedScales => (c.nh * c.hd) / w,
        Store::MixedSums => (c.nh * c.hd) / 32,
        Store::Hidden | Store::HiddenLevels => c.topk * c.ffexp,
        Store::HiddenScales => (c.topk * c.ffexp) / w,
        Store::HiddenSums => (c.topk * c.ffexp) / 32,
        Store::Router => c.ne as int,
        Store::Squares | Store::Bests => NT as int,
        Store::KeyCache | Store::ValueCache => c.nl * (4096 * c.nkv * c.hd),
        _ => 0,
    }
}

/// The number of places of a buffer of the model with normalized heads.
pub fn qwen_room(store: Store, c: &Cfg, grain: Grain) -> (n: usize)
    requires
        c.is_sound(),
    ensures
        n == qwen_len(store, *c, grain),
{
    let w: usize = grain.levels();
    match store {
        Store::Stream | Store::Normed | Store::Levels => c.d,
        Store::Scales => c.d / w,
        Store::Sums => c.d / 32,
        Store::Queries | Store::Mixed | Store::MixedLevels => c.nh * c.hd,
        Store::Keys | Store::Values => c.nkv * c.hd,
        Store::MixedScales => (c.nh * c.hd) / w,
        Store::MixedSums => (c.nh * c.hd) / 32,
        Store::Hidden | Store::HiddenLevels => c.topk * c.ffexp,
        Store::HiddenScales => (c.topk * c.ffexp) / w,
        Store::HiddenSums => (c.topk * c.ffexp) / 32,
        Store::Router => c.ne,
        Store::Squares | Store::Bests => NT,
        Store::KeyCache | Store::ValueCache => cache_room(c),
        _ => 0,
    }
}

/// The runs of run `it` of levels that share a scale.
pub open spec fn run_spans(levels: Store, scales: Store, sums: Store, grain: Grain, it: int) -> Seq<
    Span,
> {
    match grain {
        Grain::Block | Grain::Split => seq![span(levels, 32 * it, 32), span(scales, it, 1), span(sums, it, 1)],
        Grain::Super => {
            seq![span(levels, 256 * it, 256), span(scales, it, 1), span(sums, 8 * it, 8)]
        },
    }
}

/// The runs of places that unit `it` of a phase of the model with normalized heads
/// writes.
pub open spec fn qwen_spans(
    phase: Phase,
    c: Cfg,
    grain: Grain,
    layer: int,
    pos: int,
    it: int,
) -> Seq<Span> {
    let hd = c.hd as int;
    match phase {
        Phase::Embed => seq![span(Store::Stream, 256 * it, 256)],
        Phase::AttnSquares | Phase::FfnSquares | Phase::HeadSquares => {
            seq![span(Store::Squares, it, 1)]
        },
        Phase::AttnNorm | Phase::FfnNorm | Phase::HeadNorm => seq![span(Store::Normed, it, 1)],
        Phase::AttnQuant | Phase::FfnQuant | Phase::HeadQuant => {
            run_spans(Store::Levels, Store::Scales, Store::Sums, grain, it)
        },
        Phase::Qkv => {
            let (which, row) = projected(it, c.nh as int, c.nkv as int, hd);
            seq![span(store_of(which), row, 1)]
        },
        Phase::Rope => rope_spans(c, layer, pos, it),
        Phase::Attend => seq![span(Store::Mixed, it * hd, hd)],
        Phase::AttendQuant => {
            run_spans(Store::MixedLevels, Store::MixedScales, Store::MixedSums, grain, it)
        },
        Phase::Project | Phase::Down => seq![span(Store::Stream, it, 1)],
        Phase::Route => seq![span(Store::Router, it, 1)],
        Phase::GateUp => seq![span(Store::Hidden, it, 1)],
        Phase::HiddenQuant => {
            run_spans(Store::HiddenLevels, Store::HiddenScales, Store::HiddenSums, grain, it)
        },
        Phase::Head => seq![span(Store::Bests, it, 1)],
        _ => Seq::empty(),
    }
}

/// The runs of run `it` of levels hold no place but those of its levels, its scale
/// and its sums.
proof fn lemma_quantized_held(
    levels: Store,
    scales: Store,
    sums: Store,
    grain: Grain,
    it: int,
    n: int,
    p: Place,
)
    requires
        0 <= it < n / grain.width(),
        n <= usize::MAX,
        held(run_spans(levels, scales, sums, grain, it), p),
    ensures
        quantized_at(levels, scales, sums, grain, it, p),
{
    let spans = run_spans(levels, scales, sums, grain, it);
    let i = choose|i: int| 0 <= i < spans.len() && #[trigger] spans[i].holds(p);
    assert(i == 0 || i == 1 || i == 2);
}

/// The runs of unit `it` of a phase of the model with normalized heads hold no
/// place but those that it writes.
pub proof fn qwen_runs_are_written(
    phase: Phase,
    c: Cfg,
    grain: Grain,
    layer: int,
    pos: int,
    it: int,
    p: Place,
)
    requires
        c.is_sound(),
        phase == Phase::Rope ==> 0 <= layer < c.nl,
        0 <= pos < MAXSEQ,
        0 <= it < qwen_units_of(phase, c, grain),
        held(qwen_spans(phase, c, grain, layer, pos, it), p),
    ensures
        qwen_writes(phase, c, grain, layer, pos, it, p),
{
    let spans = qwen_spans(phase, c, grain, layer, pos, it);
    match phase {
        Phase::AttnQuant | Phase::FfnQuant | Phase::HeadQuant => {
            lemma_quantized_held(Store::Levels, Store::Scales, Store::Sums, grain, it, c.d as int, p);
        },
        Phase::AttendQuant => {
            let (levels, scales) = (Store::MixedLevels, Store::MixedScales);
            lemma_quantized_held(levels, scales, Store::MixedSums, grain, it, c.nh * c.hd, p);
        },
        Phase::HiddenQuant => {
            let (levels, scales) = (Store::HiddenLevels, Store::HiddenScales);
            lemma_quantized_held(levels, scales, Store::HiddenSums, grain, it, c.topk * c.ffexp, p);
        },
        Phase::Rope => {
            lemma_rope_held(c, layer, pos, it, p);
        },
        Phase::Attend => {
            lemma_run_inside(it, c.nh as int, c.hd as int);
        },
        _ => {},
    }
}

/// The runs of run `it` of levels that share a scale, where there are `n` levels.
fn run_targets(
    levels: Store,
    scales: Store,
    sums: Store,
    grain: Grain,
    it: usize,
    n: usize,
) -> (r: Vec<Span>)
    requires
        it < n as int / grain.width(),
    ensures
        r@ == run_spans(levels, scales, sums, grain, it as int),
        r@.len() == 3,
        r@[0].store == levels && r@[0].at + r@[0].len <= n,
        r@[1].store == scales && r@[1].at + r@[1].len <= n as int / grain.width(),
        r@[2].store == sums && r@[2].at + r@[2].len <= n as int / 32,
        forall|p: Place|
            held(r@, p) <==> quantized_at(levels, scales, sums, grain, it as int, p),
{
    match grain {
        Grain::Block | Grain::Split => and(and(one(levels, 32 * it, 32), scales, it, 1), sums, it, 1),
        Grain::Super => and(and(one(levels, 256 * it, 256), scales, it, 1), sums, 8 * it, 8),
    }
}

/// The runs of places that unit `it` of a phase of the model with normalized heads
/// writes.
pub fn qwen_targets(
    phase: Phase,
    c: &Cfg,
    grain: Grain,
    layer: usize,
    pos: usize,
    it: usize,
) -> (r: Vec<Span>)
    requires
        c.is_sound(),
        phase == Phase::Rope ==> layer < c.nl,
        pos < MAXSEQ,
        it < qwen_units_of(phase, *c, grain),
    ensures
        r@ == qwen_spans(phase, *c, grain, layer as int, pos as int, it as int),
        are_targets(
            r@,
            |p: Place| qwen_writes(phase, *c, grain, layer as int, pos as int, it as int, p),
            |s: Store| qwen_len(s, *c, grain),
        ),
{
    match phase {
        Phase::Embed => one(Store::Stream, 256 * it, 256),
        Phase::AttnSquares | Phase::FfnSquares | Phase::HeadSquares => one(Store::Squares, it, 1),
        Phase::AttnNorm | Phase::FfnNorm | Phase::HeadNorm => one(Store::Normed, it, 1),
        Phase::AttnQuant | Phase::FfnQuant | Phase::HeadQuant => {
            run_targets(Store::Levels, Store::Scales, Store::Sums, grain, it, c.d)
        },
        Phase::Qkv => qkv_targets(c, it),
        Phase::Rope => rope_targets(c, layer, pos, it),
        Phase::Attend => {
            proof {
                lemma_run_inside(it as int, c.nh as int, c.hd as int);
            }
            one(Store::Mixed, it * c.hd, c.hd)
        },
        Phase::AttendQuant => {
            let (levels, scales) = (Store::MixedLevels, Store::MixedScales);
            run_targets(levels, scales, Store::MixedSums, grain, it, c.nh * c.hd)
        },
        Phase::Project | Phase::Down => one(Store::Stream, it, 1),
        Phase::Route => one(Store::Router, it, 1),
        Phase::GateUp => one(Store::Hidden, it, 1),
        Phase::HiddenQuant => {
            let (levels, scales) = (Store::HiddenLevels, Store::HiddenScales);
            run_targets(levels, scales, Store::HiddenSums, grain, it, c.topk * c.ffexp)
        },
        Phase::Head => one(Store::Bests, it, 1),
        _ => Vec::new(),
    }
}

} // verus!
