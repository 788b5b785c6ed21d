//! The order of a batched pass: all tokens of a prompt go through a layer together,
//! and the stages that go over the weights do so once for each tile of tokens.
use crate::partition::{ceil_div, div_up, lemma_ceil_div};
use crate::routing::TILE;
use vstd::arithmetic::div_mod::{lemma_fundamental_div_mod, lemma_mod_bound};
use vstd::prelude::*;

verus! {

/// A stage of a batched pass.
#[derive(Clone, Copy, Debug, PartialEq, Eq, Structural)]
pub enum Stage {
    /// The rows of the embedding.
    Embed,
    /// The normalized inputs of the attention, in 8-bit blocks.
    Norm,
    /// Queries, keys and values of a tile.
    Qkv,
    /// Rotations, and the write of the caches.
    Rope,
    /// Scores and mixed values of the query heads of all tokens.
    Attend,
    /// The mixed values in 8-bit blocks.
    Mix,
    /// The projection back to the streams of a tile.
    Project,
    /// The normalized inputs of the experts, in 8-bit blocks, the choices of all tokens
    /// and their groups.
    Route,
    /// The gating and up projections for a tile.
    GateUp,
    /// The activations of all slots, in 8-bit blocks.
    Hidden,
    /// The down projections for a tile.
    Down,
    /// What the experts give, added to the streams.
    Add,
    /// The logits of the last token, and the choice of the next.
    Head,
}

/// The stage goes tile by tile.
pub open spec fn is_tiled(stage: Stage) -> bool {
    stage == Stage::Qkv || stage == Stage::Project || stage == Stage::GateUp || stage == Stage::Down
}

/// A stage once for each tile.
pub open spec fn by_tiles(stage: Stage, tiles: int) -> Seq<(Stage, int)> {
    Seq::new(tiles as nat, |t: int| (stage, t))
}

/// The stages of a layer, each with its tile; the tile is 0 where the stage serves all
/// tokens.
pub open spec fn batch_layer(tiles: int) -> Seq<(Stage, int)> {
    seq![(Stage::Norm, 0int)] + by_tiles(Stage::Qkv, tiles) + seq![
        (Stage::Rope, 0int),
        (Stage::Attend, 0int),
        (Stage::Mix, 0int),
    ] + by_tiles(Stage::Project, tiles) + seq![(Stage::Route, 0int)] + by_tiles(
        Stage::GateUp,
        tiles,
    ) + seq![(Stage::Hidden, 0int)] + by_tiles(Stage::Down, tiles) + seq![(Stage::Add, 0int)]
}

/// The number of steps of a layer.
pub open spec fn layer_steps(tiles: int) -> int {
    7 + 4 * tiles
}

/// Step `k` of a batched pass: a stage, its tile, and its layer.
pub open spec fn batch_step_of(k: int, nl: int, tiles: int) -> Option<(Stage, int, int)> {
    let per = layer_steps(tiles);
    if k == 0 {
        Some((Stage::Embed, 0, 0))
    } else if k - 1 < nl * per {
        let (stage, tile) = batch_layer(tiles)[(k - 1) % per];
        Some((stage, tile, (k - 1) / per))
    } else if k - 1 == nl * per {
        Some((Stage::Head, 0, nl))
    } else {
        None
    }
}

/// A step of a batched pass. `from .. to` are the tokens that it serves.
#[derive(Clone, Copy, Debug, PartialEq, Eq, Structural)]
pub struct BatchStep {
    pub stage: Stage,
    pub layer: usize,
    pub from: usize,
    pub to: usize,
}

/// The tokens that a stage serves: those of its tile, or all `bsz`.
pub open spec fn served_tokens(stage: Stage, tile: int, bsz: int) -> (int, int) {
    if is_tiled(stage) {
        (
            8 * tile,
            if 8 * tile + 8 < bsz {
                8 * tile + 8
            } else {
                bsz
            },
        )
    } else {
        (0, bsz)
    }
}

/// The stages of a layer by their places.
proof fn lemma_stages(tiles: int, r: int)
    requires
        0 <= tiles,
        0 <= r < layer_steps(tiles),
    ensures
        batch_layer(tiles).len() == layer_steps(tiles),
        batch_layer(tiles)[r] == if r == 0 {
            (Stage::Norm, 0int)
        } else if r <= tiles {
            (Stage::Qkv, r - 1)
        } else if r == tiles + 1 {
            (Stage::Rope, 0int)
        } else if r == tiles + 2 {
            (Stage::Attend, 0int)
        } else if r == tiles + 3 {
            (Stage::Mix, 0int)
        } else if r < 2 * tiles + 4 {
            (Stage::Project, r - tiles - 4)
        } else if r == 2 * tiles + 4 {
            (Stage::Route, 0int)
        } else if r < 3 * tiles + 5 {
            (Stage::GateUp, r - 2 * tiles - 5)
        } else if r == 3 * tiles + 5 {
            (Stage::Hidden, 0int)
        } else if r < 4 * tiles + 6 {
            (Stage::Down, r - 3 * tiles - 6)
        } else {
            (Stage::Add, 0int)
        },
{
}

/// Step `k` of a batched pass of `bsz` tokens through `nl` layers, or none after the
/// last.
pub fn batch_step(k: usize, nl: usize, bsz: usize) -> (s: Option<BatchStep>)
    requires
        nl * layer_steps(ceil_div(bsz as int, 8)) <= usize::MAX,
        layer_steps(ceil_div(bsz as int, 8)) <= usize::MAX,
    ensures
        match batch_step_of(k as int, nl as int, ceil_div(bsz as int, 8)) {
            Some((stage, tile, layer)) => s matches Some(b) && b.stage == stage && b.layer == layer
                && (b.from as int, b.to as int) == served_tokens(stage, tile, bsz as int),
            None => s is None,
        },
        s matches Some(b) ==> b.from <= b.to <= bsz,
        s matches Some(b) ==> (b.layer < nl || b.stage == Stage::Embed || b.stage == Stage::Head),
{
    let tiles: usize = div_up(bsz, TILE);
    let per: usize = 7 + 4 * tiles;
    let all: usize = nl * per;
    if k == 0 {
        return Some(BatchStep { stage: Stage::Embed, layer: 0, from: 0, to: bsz });
    }
    if k - 1 == all {
        return Some(BatchStep { stage: Stage::Head, layer: nl, from: 0, to: bsz });
    }
    if k - 1 > all {
        return None;
    }
    let (layer, r): (usize, usize) = ((k - 1) / per, (k - 1) % per);
    proof {
        lemma_ceil_div(bsz as int, 8);
        lemma_fundamental_div_mod(k - 1, per as int);
        lemma_mod_bound(k - 1, per as int);
        assert(layer < nl) by (nonlinear_arith)
            requires
                k - 1 < nl * per,
                k - 1 == per * layer + r,
                0 <= r,
                per > 0,
        ;
        lemma_stages(tiles as int, r as int);
    }
    let (stage, tile): (Stage, usize) = if r == 0 {
        (Stage::Norm, 0)
    } else if r <= tiles {
        (Stage::Qkv, r - 1)
    } else if r == tiles + 1 {
        (Stage::Rope, 0)
    } else if r == tiles + 2 {
        (Stage::Attend, 0)
    } else if r == tiles + 3 {
        (Stage::Mix, 0)
    } else if r < 2 * tiles + 4 {
        (Stage::Project, r - tiles - 4)
    } else if r == 2 * tiles + 4 {
        (Stage::Route, 0)
    } else if r < 3 * tiles + 5 {
        (Stage::GateUp, r - 2 * tiles - 5)
    } else if r == 3 * tiles + 5 {
        (Stage::Hidden, 0)
    } else if r < 4 * tiles + 6 {
        (Stage::Down, r - 3 * tiles - 6)
    } else {
        (Stage::Add, 0)
    };
    let tiled: bool = match stage {
        Stage::Qkv | Stage::Project | Stage::GateUp | Stage::Down => true,
        _ => false,
    };
    if tiled {
        let from: usize = TILE * tile;
        let to: usize = if bsz - from > TILE {
            from + TILE
        } else {
            bsz
        };
        Some(BatchStep { stage, layer, from, to })
    } else {
        Some(BatchStep { stage, layer, from: 0, to: bsz })
    }
}

/// Each token is in one tile: a stage that goes tile by tile serves it once.
pub proof fn tiles_serve_each_token_once(stage: Stage, bsz: int, b: int) -> (tile: int)
    requires
        is_tiled(stage),
        0 <= b < bsz,
    ensures
        0 <= tile < ceil_div(bsz, 8),
        served_tokens(stage, tile, bsz).0 <= b < served_tokens(stage, tile, bsz).1,
        forall|t: int|
            0 <= t && #[trigger] served_tokens(stage, t, bsz).0 <= b < served_tokens(
                stage,
                t,
                bsz,
            ).1 ==> t == tile,
{
    lemma_ceil_div(bsz, 8);
    b / 8
}

/// In every layer the keys and values of all tokens are in the caches before any head
/// attends, all tokens have chosen before any expert works, and all slots have their
/// activations before the down projections read them.
pub proof fn stages_follow_one_another(tiles: int, i: int, j: int)
    requires
        0 <= tiles,
        0 <= i < layer_steps(tiles),
        0 <= j < layer_steps(tiles),
    ensures
        ({
            let (a, b) = (batch_layer(tiles)[i].0, batch_layer(tiles)[j].0);
            &&& a == Stage::Norm && b == Stage::Qkv ==> i < j
            &&& a == Stage::Qkv && b == Stage::Rope ==> i < j
            &&& a == Stage::Rope && b == Stage::Attend ==> i < j
            &&& a == Stage::Attend && b == Stage::Mix ==> i < j
            &&& a == Stage::Mix && b == Stage::Project ==> i < j
            &&& a == Stage::Project && b == Stage::Route ==> i < j
            &&& a == Stage::Route && b == Stage::GateUp ==> i < j
            &&& a == Stage::GateUp && b == Stage::Hidden ==> i < j
            &&& a == Stage::Hidden && b == Stage::Down ==> i < j
            &&& a == Stage::Down && b == Stage::Add ==> i < j
        }),
{
    lemma_stages(tiles, i);
    lemma_stages(tiles, j);
}

} // verus!
