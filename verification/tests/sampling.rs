//! Random numbers, the choice of tokens, and the choice of experts.
use cpubrrr::rng::{
    draw_expert, rng_fraction, rng_next, rng_short_fraction, seed_state, DEFAULT_STATE,
};
use cpubrrr::select::{
    active_experts, best_in, greater, greedy, group_by_expert, merge_best, pack_best, top_experts,
    top_k, unpack_best,
};

fn bits(v: &[f32]) -> Vec<u32> {
    v.iter().map(|x| x.to_bits()).collect()
}

#[test]
fn generator_is_xorshift() {
    let mut s = 1u64;
    let x = rng_next(&mut s);
    let mut want = 1u64;
    want ^= want << 13;
    want ^= want >> 7;
    want ^= want << 17;
    assert_eq!((x, s), (want, want));
    let mut zero = 0u64;
    assert_eq!(rng_next(&mut zero), 0);
    let mut a = DEFAULT_STATE;
    let mut b = DEFAULT_STATE;
    assert_eq!(rng_fraction(&mut a), rng_next(&mut b) >> 11);
    let (mut a, mut b) = (77u64, 77u64);
    assert_eq!(rng_short_fraction(&mut a) as u64, rng_next(&mut b) >> 40);
    assert_eq!(a, b);
}

#[test]
fn seeds_are_mixed() {
    // splitmix64 of zero, with the last bit set
    assert_eq!(seed_state(0), 0xE220A8397B1DCDAF | 1);
    assert_ne!(seed_state(1), seed_state(2));
    for seed in 0..100 {
        assert_eq!(seed_state(seed) % 2, 1);
    }
}

#[test]
fn drawn_experts_are_distinct() {
    let mut state = 0x243f6a8885a308d3u64;
    let mut set = Vec::new();
    let mut draws = 0;
    while set.len() < 4 {
        let before = set.clone();
        let added = draw_expert(&mut set, &mut state, 32);
        assert_eq!(added, set.len() == before.len() + 1);
        draws += 1;
        assert!(draws < 1000);
    }
    let mut sorted = set.clone();
    sorted.sort();
    sorted.dedup();
    assert_eq!(sorted.len(), 4);
    assert!(set.iter().all(|&e| e < 32));
    let mut only = vec![0];
    assert!(!draw_expert(&mut only, &mut state, 1));
    assert_eq!(only, vec![0]);
}

#[test]
fn scores_compare_as_numbers() {
    let v = [f32::NEG_INFINITY, -2.0, -0.0, 0.0, 1e-40, 1.0, f32::INFINITY, f32::NAN];
    for a in v {
        for b in v {
            assert_eq!(greater(a.to_bits(), b.to_bits()), a > b);
        }
    }
}

#[test]
fn greedy_takes_the_first_of_the_best() {
    assert_eq!(greedy(&bits(&[1.0, 3.0, 3.0, 2.0])), 1);
    assert_eq!(greedy(&bits(&[-5.0, -4.0])), 1);
    assert_eq!(greedy(&bits(&[f32::NAN, 1.0])), 1);
    assert_eq!(greedy(&bits(&[f32::NAN, f32::NEG_INFINITY])), 0);
    assert_eq!(greedy(&[]), 0);
}

#[test]
fn bests_of_slices_merge_to_the_best() {
    let scores: Vec<f32> = (0..50).map(|i| ((i * 37) % 41) as f32 - 20.0).collect();
    let b = bits(&scores);
    let packed: Vec<u64> = (0..5).map(|w| pack_best(best_in(&b, w * 10, w * 10 + 10))).collect();
    assert_eq!(merge_best(&packed), greedy(&b));
    let best = (1.5f32.to_bits(), 77);
    assert_eq!(unpack_best(pack_best(best)), best);
}

#[test]
fn top_list_falls_and_keeps_the_best() {
    let scores = [1.0f32, 5.0, 3.0, 5.0, 2.0];
    let top = top_k(&bits(&scores), 3);
    let ids: Vec<u32> = top.iter().map(|t| t.1).collect();
    // among equal scores the later one goes in front while there is room
    assert_eq!(ids.len(), 3);
    assert_eq!(top.iter().map(|t| f32::from_bits(t.0)).collect::<Vec<_>>(), vec![5.0, 5.0, 3.0]);
    assert_eq!(top_k(&bits(&scores), 10).len(), 5);
}

#[test]
fn experts_are_chosen_in_order() {
    let scores = [0.5f32, 2.0, -1.0, 2.0, 1.0];
    assert_eq!(top_experts(&bits(&scores), 3), vec![1, 3, 4]);
    assert_eq!(top_experts(&bits(&scores), 0), Vec::<usize>::new());
    let mut order: Vec<usize> = (0..5).collect();
    order.sort_by(|&a, &b| scores[b].partial_cmp(&scores[a]).unwrap());
    assert_eq!(top_experts(&bits(&scores), 5), order);
}

#[test]
fn choices_are_grouped_by_expert() {
    // three tokens with two experts each
    let chosen = [4usize, 1, 1, 0, 4, 1];
    let groups = group_by_expert(&chosen, 2, 5);
    assert_eq!(groups[0], vec![(1, 1)]);
    assert_eq!(groups[1], vec![(0, 1), (1, 0), (2, 1)]);
    assert_eq!(groups[2], vec![]);
    assert_eq!(groups[4], vec![(0, 0), (2, 0)]);
    assert_eq!(active_experts(&groups), vec![0, 1, 4]);
}
