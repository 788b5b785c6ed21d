//! Slices, schedules, barriers and the work items of each phase.
use cpubrrr::barrier::{last_in, may_pass, turn, wait, Wait};
use cpubrrr::batch_steps::{batch_step, BatchStep, Stage};
use cpubrrr::config::{load_cfg, Cfg};
use cpubrrr::even;
use cpubrrr::kmat::Grain;
use cpubrrr::partition::{chunk, div_up, run};
use cpubrrr::pool::PoolState;
use cpubrrr::routing::{
    act_item, batch_down_place, batch_head, batch_item, batch_place, expert_row, flat_quad, gate_up_item, head_item, qkv_row, tile_members,
    HeadItem, Projection, TILE,
};
use cpubrrr::schedule::{
    gptoss_barrier, gptoss_items, gptoss_step, qwen_barrier, qwen_items, qwen_step, Phase,
};
use cpubrrr::weighted;
use cpubrrr::work::{gptoss_work, pool_run, qwen_work, Before, Work};

#[test]
fn equal_chunks_cover() {
    assert_eq!(div_up(10, 3), 4);
    assert_eq!(div_up(0, 3), 0);
    for (n, workers) in [(10usize, 3usize), (3, 12), (0, 4), (24, 12), (25, 12)] {
        let mut next = 0;
        for t in 0..workers {
            if let Some((a, b)) = chunk(n, workers, t) {
                assert_eq!(a, next);
                assert!(a < b);
                next = b;
            }
        }
        assert_eq!(next, n);
    }
    assert_eq!(run(20, 8, 2), Some((16, 20)));
    assert_eq!(run(16, 8, 2), None);
    // sizes at the end of the range
    let max = usize::MAX;
    assert_eq!(run(max, max, 0), Some((0, max)));
    assert_eq!(run(max, 2, max), None);
    assert_eq!(div_up(max, 2), max / 2 + 1);
    assert_eq!(chunk(max, 2, 1), Some((max / 2 + 1, max)));
    assert_eq!(chunk(3, max, 2), Some((2, 3)));
    assert_eq!(chunk(3, max, max - 1), None);
}

#[test]
fn even_slices_cover() {
    for n in [0usize, 1, 11, 12, 13, 5000] {
        let mut next = 0;
        for w in 0..12 {
            let (a, b) = even::sl(w, n);
            assert_eq!(a, next);
            assert!(b - a == n / 12 || b - a == n / 12 + 1);
            next = b;
        }
        assert_eq!(next, n);
    }
    assert_eq!(even::sl(0, 13), (0, 2));
    assert_eq!(even::sl(11, 13), (12, 13));
}

#[test]
fn even_slices_are_balanced() {
    for n in [0usize, 7, 12, 5003, usize::MAX, usize::MAX - 11] {
        let mut last = usize::MAX;
        for w in 0..12 {
            let (a, b) = even::sl(w, n);
            assert_eq!(b - a, n / 12 + usize::from(w < n % 12));
            // an earlier slice is as long, or longer by one
            assert!(w == 0 || (b - a <= last && last <= b - a + 1));
            last = b - a;
        }
        assert_eq!(even::sl(11, n).1, n);
    }
}

#[test]
fn batch_places_do_not_meet() {
    let c = Cfg { d: 64, topk: 3, ..cfg() };
    assert_eq!(batch_place(&c, 0, 0, 0), (0, 0));
    assert_eq!(batch_place(&c, 4, 2, 5), (14, 14 * 128 + 20));
    assert_eq!(batch_down_place(&c, 4, 2, 5), (14, 14 * 64 + 20));
    assert_eq!(batch_head(11, 4), (2, 3));
    let mut hit = vec![0; 2 * 3 * 128];
    for (b, ei, quad) in (0..2 * 3 * 16).map(|i| (i / 48, i / 16 % 3, i % 16)) {
        let at = batch_place(&c, b, ei, quad).1;
        for k in 0..4 {
            hit[at + k] += 1;
            hit[at + 64 + k] += 1;
        }
    }
    assert!(hit.iter().all(|&n| n == 1));
}

#[test]
fn weighted_slices_cover() {
    assert_eq!(weighted::wunits(3), (15, 5));
    assert_eq!(weighted::wunits(13), (62, 2));
    assert_eq!(weighted::total_units(12), 60);
    assert_eq!(weighted::total_units(16), 68);
    for workers in [1usize, 5, 12, 16, 32] {
        for n in [0usize, 1, 100, 2880] {
            let mut next = 0;
            for w in 0..workers {
                let (a, b) = weighted::sl(w, n, workers);
                assert_eq!(a, next);
                next = b;
            }
            assert_eq!(next, n);
        }
    }
    assert_eq!(weighted::sl(99, 60, 12), (55, 60));
    assert_eq!(weighted::worker_count(None), 12);
    assert_eq!(weighted::worker_count(Some(0)), 1);
    assert_eq!(weighted::worker_count(Some(99)), 32);
    assert_eq!(weighted::worker_count(Some(14)), 14);
    assert_eq!(weighted::load_workers(4), 12);
    assert_eq!(weighted::load_workers(20), 20);
}

#[test]
fn barrier_lets_all_through_together() {
    // three workers in one thread, each a little machine
    let n = 3;
    let (mut count, mut sense) = (0usize, false);
    let mut own = [false; 3];
    let mut passed = [0; 3];
    for round in 1..=5 {
        for w in 0..n {
            turn(&mut own[w]);
            let before = count;
            count += 1;
            if last_in(before, n) {
                count = 0;
                sense = own[w];
                passed[w] += 1;
            } else {
                assert!(!may_pass(sense, own[w]));
            }
        }
        for w in 0..n - 1 {
            assert!(may_pass(sense, own[w]));
            passed[w] += 1;
        }
        assert_eq!(passed, [round; 3]);
    }
    assert_eq!(wait(1), Wait::Spin);
    assert_eq!(wait(1023), Wait::Spin);
    assert_eq!(wait(1024), Wait::Yield);
}

#[test]
fn pool_counts_its_workers() {
    let mut p = PoolState::new();
    let mut seen = [0u64; 3];
    assert!(!p.take(&mut seen[0]));
    for task in 1..=4 {
        p.submit(3);
        assert!(!p.done());
        for w in 0..3 {
            assert!(p.take(&mut seen[w]));
            assert!(!p.take(&mut seen[w]));
            assert_eq!(seen[w], task);
            assert_eq!(p.finish(), w == 2);
        }
        assert!(p.done());
    }
}

fn cfg() -> Cfg {
    let text: Vec<char> = "n_embd 2880\nn_head 64\nn_head_kv 8\nhead_dim 64\nn_layer 3\nn_expert 32\nn_expert_used 4\nn_ff_exp 2880\nn_vocab 1000\nrope_freq_base 1\nrms_eps 1\n"
        .chars()
        .collect();
    load_cfg(&text, true).unwrap().cfg
}

#[test]
fn gptoss_schedule_visits_every_layer() {
    let mut steps = Vec::new();
    while let Some(s) = gptoss_step(steps.len(), 3, true) {
        steps.push(s);
    }
    assert_eq!(steps.len(), 1 + 3 * 12 + 4);
    assert_eq!(steps[0].phase, Phase::Embed);
    assert_eq!((steps[1].phase, steps[1].layer), (Phase::AttnNorm, 0));
    assert_eq!((steps[24].phase, steps[24].layer), (Phase::Down, 1));
    assert_eq!(steps[36].phase, Phase::Down);
    assert_eq!(steps[37].phase, Phase::HeadNorm);
    assert_eq!(steps[40].phase, Phase::Pick);
    let barriers = steps.iter().filter(|s| gptoss_barrier(s.phase)).count();
    assert_eq!(barriers, 1 + 3 * 11 + 3);
    assert!(gptoss_step(37, 3, false).is_none());
    assert!(gptoss_step(36, 3, false).is_some());
}

#[test]
fn qwen_schedule_visits_every_layer() {
    let mut steps = Vec::new();
    while let Some(s) = qwen_step(steps.len(), 2) {
        steps.push(s);
    }
    assert_eq!(steps.len(), 1 + 2 * 15 + 5);
    assert_eq!((steps[1].phase, steps[1].layer), (Phase::AttnSquares, 0));
    assert_eq!((steps[30].phase, steps[30].layer), (Phase::Down, 1));
    assert_eq!(steps[31].phase, Phase::HeadSquares);
    let barriers = steps.iter().filter(|s| qwen_barrier(s.phase)).count();
    assert_eq!(barriers, 1 + 2 * 15 + 4);
}

#[test]
fn phases_have_their_items() {
    let c = cfg();
    assert_eq!(gptoss_items(Phase::Embed, &c), 2880);
    assert_eq!(gptoss_items(Phase::Qkv, &c), 80 * 64);
    assert_eq!(gptoss_items(Phase::Rope, &c), 72);
    assert_eq!(gptoss_items(Phase::GateUp, &c), 4 * 1440);
    assert_eq!(gptoss_items(Phase::Activate, &c), 360);
    assert_eq!(gptoss_items(Phase::Down, &c), 720);
    assert_eq!(gptoss_items(Phase::Head, &c), 1000);
    assert_eq!(gptoss_items(Phase::Pick, &c), 0);
    assert_eq!(qwen_items(Phase::Embed, &c, Grain::Block), 11);
    assert_eq!(qwen_items(Phase::AttendQuant, &c, Grain::Block), 128);
    assert_eq!(qwen_items(Phase::GateUp, &c, Grain::Block), 11520);
    assert_eq!(qwen_items(Phase::HiddenQuant, &c, Grain::Block), 360);
    assert_eq!(qwen_items(Phase::Down, &c, Grain::Block), 2880);
    assert_eq!(qwen_items(Phase::Route, &c, Grain::Block), 32);
}

#[test]
fn projection_rows_are_routed_once() {
    let (nh, nkv, hd) = (4, 2, 3);
    let mut seen = std::collections::HashSet::new();
    for r in 0..nh * hd + 2 * nkv * hd {
        let (p, row) = qkv_row(r, nh, nkv, hd);
        let name = match p {
            Projection::Query => 0,
            Projection::Key => 1,
            Projection::Value => 2,
        };
        assert!(seen.insert((name, row)));
    }
    assert_eq!(qkv_row(12, nh, nkv, hd), (Projection::Key, 0));
    assert_eq!(qkv_row(18, nh, nkv, hd), (Projection::Value, 0));
    assert_eq!(head_item(3, 4, 2), HeadItem::Query(3));
    assert_eq!(head_item(5, 4, 2), HeadItem::KeyValue(1));
}

#[test]
fn gate_and_up_quads_fill_their_buffer() {
    let (d, ne) = (8, 5);
    let top = [3usize, 1];
    let mut out = vec![0; 2 * 2 * d];
    for it in 0..2 * 2 * (d / 4) {
        let g = gate_up_item(it, &top, d, ne);
        assert_eq!(g.quad / 2, top[g.slot]);
        assert_eq!(g.row, 4 * g.quad);
        for i in 0..4 {
            out[g.out + i] += 1;
        }
    }
    assert!(out.iter().all(|&n| n == 1));
    let g = gate_up_item(3, &top, d, ne);
    assert_eq!((g.slot, g.gate, g.quad, g.out), (0, false, 7, 12));
    let g = gate_up_item(4, &top, d, ne);
    assert_eq!((g.slot, g.gate, g.quad, g.out), (1, true, 2, 16));
}

#[test]
fn other_expert_items_find_their_rows() {
    let top = [3usize, 0, 4];
    assert_eq!(expert_row(0, &top, 10, 5), (0, 30));
    assert_eq!(expert_row(19, &top, 10, 5), (1, 9));
    assert_eq!(expert_row(20, &top, 10, 5), (2, 40));
    let a = act_item(4, 3, 2);
    assert_eq!((a.gate, a.up, a.out, a.scale), (192 + 32, 192 + 32 + 96, 128, 4));
    let f = flat_quad(3 * 4 * 1 + 4 + 2, &[7, 9], 3, 4);
    assert_eq!((f.active, f.expert, f.mat, f.quad), (4, 9, 1, 2));
}

#[test]
fn batches_meet_every_quad_once() {
    let active = [2usize, 5];
    let mut met = Vec::new();
    for it in 0..active.len() * 8 {
        if let Some(m) = batch_item(it, &active, 8) {
            met.push(m);
        }
    }
    assert_eq!(met, vec![(2, 0), (2, 1), (5, 0), (5, 1)]);
    let group = [(0usize, 1usize), (3, 0), (8, 1), (9, 0)];
    assert_eq!(tile_members(&group, 0, TILE), vec![(0, 1), (3, 0)]);
    assert_eq!(tile_members(&group, 8, 10), vec![(8, 1), (9, 0)]);
    assert_eq!(tile_members(&group, 4, 8), vec![]);
}

#[test]
fn a_batch_goes_stage_by_stage() {
    let steps: Vec<BatchStep> = (0..).map_while(|k| batch_step(k, 2, 11)).collect();
    let layer = [
        (Stage::Norm, 0, 11),
        (Stage::Qkv, 0, 8),
        (Stage::Qkv, 8, 11),
        (Stage::Rope, 0, 11),
        (Stage::Attend, 0, 11),
        (Stage::Mix, 0, 11),
        (Stage::Project, 0, 8),
        (Stage::Project, 8, 11),
        (Stage::Route, 0, 11),
        (Stage::GateUp, 0, 8),
        (Stage::GateUp, 8, 11),
        (Stage::Hidden, 0, 11),
        (Stage::Down, 0, 8),
        (Stage::Down, 8, 11),
        (Stage::Add, 0, 11),
    ];
    let mut want = vec![BatchStep { stage: Stage::Embed, layer: 0, from: 0, to: 11 }];
    for il in 0..2 {
        want.extend(layer.map(|(stage, from, to)| BatchStep { stage, layer: il, from, to }));
    }
    want.push(BatchStep { stage: Stage::Head, layer: 2, from: 0, to: 11 });
    assert_eq!(steps, want);
    assert_eq!(batch_step(32, 2, 11), None);
    assert_eq!(batch_step(usize::MAX, 2, 11), None);
    // no layers, and one tile that is full
    assert_eq!(batch_step(1, 0, 8).map(|s| s.stage), Some(Stage::Head));
    assert_eq!(batch_step(2, 1, 8).map(|s| (s.stage, s.from, s.to)), Some((Stage::Qkv, 0, 8)));
    assert_eq!(batch_step(3, 1, 8).map(|s| s.stage), Some(Stage::Rope));
}

#[test]
fn workers_know_their_part() {
    let work = |before, from, to, best, waits| Work { before, from, to, best, waits };
    assert_eq!(gptoss_work(Phase::GateUp, 7, (3, 9)), work(Before::Choose, 3, 9, false, true));
    assert_eq!(gptoss_work(Phase::Pick, 0, (0, 0)), work(Before::Pick, 0, 0, false, false));
    assert_eq!(gptoss_work(Phase::Pick, 1, (0, 0)), work(Before::Nothing, 0, 0, false, false));
    assert_eq!(gptoss_work(Phase::FfnQuant, 1, (4, 5)), work(Before::Nothing, 4, 5, false, false));
    assert_eq!(gptoss_work(Phase::Head, 1, (4, 5)), work(Before::Nothing, 4, 5, false, true));
    assert_eq!(qwen_work(Phase::FfnSquares, 5, (40, 48)), work(Before::Nothing, 5, 6, false, true));
    assert_eq!(qwen_work(Phase::Head, 11, (40, 48)), work(Before::Nothing, 11, 12, true, true));
    assert_eq!(qwen_work(Phase::GateUp, 2, (40, 48)), work(Before::Choose, 40, 48, false, true));
    assert_eq!(qwen_work(Phase::Pick, 0, (0, 0)), work(Before::Pick, 0, 0, false, false));
}

#[test]
fn a_pool_shares_all_items() {
    for phase in [Phase::Qkv, Phase::Head, Phase::AttnSquares, Phase::HeadSquares] {
        for items in [0usize, 1, 12, 25, 144] {
            let mut next = 0;
            for wid in 0..12 {
                let (a, b) = pool_run(phase, items, 12, wid);
                assert_eq!(a, next);
                next = b;
            }
            assert_eq!(next, items);
        }
    }
    // the first worker alone sums up the squares
    assert_eq!(pool_run(Phase::AttnSquares, 25, 12, 0), (0, 25));
    assert_eq!(pool_run(Phase::AttnSquares, 25, 12, 1), (25, 25));
    assert_eq!(pool_run(Phase::Qkv, 25, 12, 8), (24, 25));
    assert_eq!(pool_run(Phase::Qkv, 25, 12, 9), (25, 25));
    assert_eq!(pool_run(Phase::Qkv, 25, usize::MAX, usize::MAX - 1), (25, 25));
}
