use rust_dsp::legacy_phaser::LegacyPhaser;
use rust_dsp::phaser::{concat_rotate, reverse_lanes, stage_count, SimdMonoPhaser, SimdMonoPhaserStage};
use rust_dsp::phaser_batch::SimdBatch;

fn allpass(b: f32, x: f32, o: f32, p: f32) -> f32 {
    b * (x - o) + p
}

fn phaser_with_state(n: usize) -> SimdMonoPhaser<f32> {
    let mut ph = SimdMonoPhaser::new();
    ph.resize(n, 0.0);
    for j in 0..n {
        ph.set_single(j, 0.01 * j as f32, -0.02 * j as f32);
    }
    ph
}

fn lanes(ph: &SimdMonoPhaser<f32>) -> Vec<(f32, f32)> {
    (0..ph.num_stages()).map(|j| ph.get_single(j)).collect()
}

/// Lane `k` through every stage, stage `s` with coefficient `coef(s)`, on a
/// plain copy of the stage states.
fn run_lane(states: &mut [(f32, f32)], coef: impl Fn(usize) -> f32, mut val: f32) -> f32 {
    for (s, st) in states.iter_mut().enumerate() {
        let out = allpass(coef(s), val, st.1, st.0);
        *st = (val, out);
        val = out;
    }
    val
}

#[test]
fn stage_count_clamps_negative() {
    assert_eq!(stage_count(-5), 0);
    assert_eq!(stage_count(0), 0);
    assert_eq!(stage_count(13), 13);
    assert_eq!(stage_count(i32::MAX), i32::MAX as usize);
}

#[test]
fn concat_rotate_moves_one_lane() {
    let mut a = [1, 2, 3, 4];
    let mut b = [5, 6, 7, 8];
    concat_rotate(&mut a, &mut b);
    assert_eq!(a, [2, 3, 4, 5]);
    assert_eq!(b, [6, 7, 8, 1]);
    for _ in 0..3 {
        concat_rotate(&mut a, &mut b);
    }
    // four rotations swap the two groups
    assert_eq!(a, [5, 6, 7, 8]);
    assert_eq!(b, [1, 2, 3, 4]);
}

#[test]
fn reverse_lanes_reverses() {
    assert_eq!(reverse_lanes([1, 2, 3, 4]), [4, 3, 2, 1]);
}

#[test]
fn resize_rounds_up_to_groups_and_zeroes_unused_lanes() {
    let mut ph: SimdMonoPhaser<i32> = SimdMonoPhaser::new();
    assert_eq!(ph.num_stages(), 0);
    ph.resize(5, 0);
    assert_eq!(ph.num_stages(), 5);
    for j in 0..8 {
        assert_eq!(ph.get_single(j), (0, 0));
    }
    for j in 0..8 {
        ph.set_single(j, j as i32 + 1, -(j as i32) - 1);
    }
    ph.resize(6, 0);
    // stages below 5 keep their state; lanes from 6 on are cleared
    for j in 0..5 {
        assert_eq!(ph.get_single(j), (j as i32 + 1, -(j as i32) - 1));
    }
    assert_eq!(ph.get_single(5), (6, -6));
    assert_eq!(ph.get_single(6), (0, 0));
    assert_eq!(ph.get_single(7), (0, 0));
    ph.resize(2, 0);
    assert_eq!(ph.get_single(1), (2, -2));
    assert_eq!(ph.get_single(2), (0, 0));
    assert_eq!(ph.get_single(3), (0, 0));
    ph.resize(9, 7);
    assert_eq!(ph.get_single(1), (2, -2));
    // lanes of the kept group stay as they were; new groups hold the fill value
    assert_eq!(ph.get_single(2), (0, 0));
    assert_eq!(ph.get_single(4), (7, 7));
    assert_eq!(ph.get_single(11), (7, 7));
}

#[test]
fn resize_to_same_count_changes_nothing() {
    let mut ph: SimdMonoPhaser<i32> = SimdMonoPhaser::new();
    ph.resize(3, 0);
    ph.set_single(3, 9, 9);
    ph.resize(3, 0);
    assert_eq!(ph.get_single(3), (9, 9));
}

#[test]
fn simd_group_access() {
    let mut ph: SimdMonoPhaser<i32> = SimdMonoPhaser::new();
    ph.resize(8, 0);
    ph.set_simd(1, SimdMonoPhaserStage { prev_input: [1, 2, 3, 4], output: [5, 6, 7, 8] });
    assert_eq!(ph.get_single(5), (2, 6));
    let g = ph.get_simd(1);
    assert_eq!(g.prev_input, [1, 2, 3, 4]);
    assert_eq!(g.output, [5, 6, 7, 8]);
    assert_eq!(ph.get_simd(0).output, [0, 0, 0, 0]);
}

#[test]
fn simd_stage_compute_lanewise() {
    let mut st = SimdMonoPhaserStage { prev_input: [1.0f32, 0.0, 0.5, 2.0], output: [0.0f32, 1.0, -1.0, 0.5] };
    let mut x = [1.0f32, 2.0, 3.0, 4.0];
    st.compute(&allpass, [0.5, 0.25, -0.5, 1.0], &mut x);
    assert_eq!(x, [1.5, 0.25, -1.5, 5.5]);
    assert_eq!(st.output, x);
    assert_eq!(st.prev_input, [1.0, 2.0, 3.0, 4.0]);
}

#[test]
fn compute_direct_runs_every_stage() {
    let mut ph = phaser_with_state(3);
    let mut states = lanes(&ph);
    let mut v = 0.75f32;
    ph.compute_direct(&allpass, 0.3, &mut v);
    let expected = run_lane(&mut states, |_| 0.3, 0.75);
    assert_eq!(v, expected);
    assert_eq!(lanes(&ph), states);
}

#[test]
fn compute_direct_single_stage_value() {
    let mut ph: SimdMonoPhaser<f32> = SimdMonoPhaser::new();
    ph.resize(1, 0.0);
    ph.set_single(0, 1.0, 0.5);
    let mut v = 2.0f32;
    ph.compute_direct(&allpass, 0.5, &mut v);
    // 0.5 * (2.0 - 0.5) + 1.0
    assert_eq!(v, 1.75);
    assert_eq!(ph.get_single(0), (2.0, 1.75));
}

fn compute_matches_four_direct_runs(n: usize) {
    let coef = [0.3f32, 0.3, 0.3, 0.3];
    let inputs = [0.5f32, -0.25, 1.0, 0.125];
    let mut a = phaser_with_state(n);
    let mut b = phaser_with_state(n);
    let mut v = inputs;
    a.compute(&allpass, coef, &mut v);
    let mut w = inputs;
    for k in 0..4 {
        b.compute_direct(&allpass, coef[k], &mut w[k]);
    }
    assert_eq!(v, w);
    assert_eq!(lanes(&a), lanes(&b));
    let a_groups: Vec<_> = (0..(n + 3) / 4).map(|g| a.get_simd(g).output).collect();
    let b_groups: Vec<_> = (0..(n + 3) / 4).map(|g| b.get_simd(g).output).collect();
    assert_eq!(a_groups, b_groups);
}

#[test]
fn compute_few_stages_is_lane_by_lane() {
    compute_matches_four_direct_runs(0);
    compute_matches_four_direct_runs(5);
    compute_matches_four_direct_runs(15);
}

#[test]
fn compute_grouped_matches_lane_by_lane_with_equal_coefs() {
    compute_matches_four_direct_runs(16);
    compute_matches_four_direct_runs(19);
    compute_matches_four_direct_runs(37);
}

#[test]
fn compute_grouped_gives_each_sample_its_coefficient() {
    let n = 20;
    let coef = [0.1f32, 0.2, 0.3, 0.4];
    let inputs = [0.5f32, -0.25, 1.0, 0.125];
    let mut ph = phaser_with_state(n);
    let mut states = lanes(&ph);
    let mut v = inputs;
    ph.compute(&allpass, coef, &mut v);
    let mut expected = [0.0f32; 4];
    for k in 0..4 {
        expected[k] = run_lane(&mut states, |_| coef[k], inputs[k]);
    }
    assert_eq!(v, expected);
    assert_eq!(lanes(&ph), states);

    // the same as four one-at-a-time runs, sample 0 first
    let mut direct = phaser_with_state(n);
    let mut w = inputs;
    for k in 0..4 {
        direct.compute_direct(&allpass, coef[k], &mut w[k]);
    }
    assert_eq!(v, w);
    assert_eq!(lanes(&ph), lanes(&direct));
}

#[test]
fn compute_grouped_coefficient_per_sample_exact() {
    // a stage function that outputs its coefficient: after one compute every
    // stage holds the coefficient of the last sample, sample 3
    let pick = |b: i32, _x: i32, _o: i32, _p: i32| b;
    let mut ph: SimdMonoPhaser<i32> = SimdMonoPhaser::new();
    ph.resize(16, 0);
    let mut v = [10, 20, 30, 40];
    ph.compute(&pick, [1, 2, 3, 4], &mut v);
    assert_eq!(v, [1, 2, 3, 4]);
    for s in 0..16 {
        assert_eq!(ph.get_single(s).1, 4);
    }
    assert_eq!(ph.get_single(0).0, 40);
    assert_eq!(ph.get_single(5).0, 4);
}

#[test]
fn batch_hands_back_previous_batch() {
    let mut b = SimdBatch::new(0i32);
    assert!(!b.legacy_behavior());
    assert_eq!(b.exchange(1), (0, false));
    assert_eq!(b.exchange(2), (0, false));
    assert_eq!(b.exchange(3), (0, false));
    assert_eq!(b.exchange(4), (0, true));
    assert_eq!(b.current_batch(), [1, 2, 3, 4]);
    b.set_current_batch([10, 20, 30, 40]);
    assert_eq!(b.exchange(5), (10, false));
    assert_eq!(b.exchange(6), (20, false));
    assert_eq!(b.exchange(7), (30, false));
    assert_eq!(b.exchange(8), (40, true));
}

#[test]
fn entering_legacy_mode_clears_batch() {
    let mut b = SimdBatch::new(0i32);
    b.exchange(1);
    b.exchange(2);
    b.set_prev_simd_output([9, 9, 9, 9]);
    b.set_legacy_behavior(false, 0);
    assert_eq!(b.prev_simd_output(), [9, 9, 9, 9]);
    b.set_legacy_behavior(true, 0);
    assert!(b.legacy_behavior());
    assert_eq!(b.prev_simd_output(), [0, 0, 0, 0]);
    assert_eq!(b.current_batch(), [0, 0, 0, 0]);
    // starts a new batch at slot 0
    b.set_legacy_behavior(false, 0);
    assert!(!b.legacy_behavior());
    assert_eq!(b.exchange(5), (0, false));
    assert_eq!(b.exchange(6), (0, false));
    assert_eq!(b.exchange(7), (0, false));
    assert_eq!(b.exchange(8), (0, true));
}

#[test]
fn setting_same_legacy_mode_keeps_state() {
    let mut b = SimdBatch::new(0i32);
    b.exchange(3);
    b.set_legacy_behavior(false, 0);
    assert_eq!(b.current_batch(), [3, 0, 0, 0]);
}

#[test]
fn legacy_phaser_runs_sample_through_all_stages() {
    let mut lp: LegacyPhaser<f32> = LegacyPhaser::new();
    lp.resize(2, 0.0);
    // stage 0: 0.5 * (1.0 - 0) + 0 = 0.5; stage 1: 0.5 * (0.5 - 0) + 0 = 0.25
    assert_eq!(lp.compute(&allpass, 0.5, 1.0), (1.0, 0.25));
    // stage 0: 0.5 * (2.0 - 0.5) + 1.0 = 1.75; stage 1: 0.5 * (1.75 - 0.25) + 0.5 = 1.25
    assert_eq!(lp.compute(&allpass, 0.5, 2.0), (2.0, 1.25));
    let mut empty: LegacyPhaser<f32> = LegacyPhaser::new();
    assert_eq!(empty.compute(&allpass, 0.5, 3.0), (3.0, 3.0));
}

#[test]
fn default_phasers_have_no_stages() {
    let p: SimdMonoPhaser<f32> = SimdMonoPhaser::default();
    assert_eq!(p.num_stages(), 0);
    let mut l: LegacyPhaser<f32> = LegacyPhaser::default();
    assert_eq!(l.compute(&allpass, 0.9, -1.0), (-1.0, -1.0));
}
