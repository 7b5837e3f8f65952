//! Storage and stage schedule of a multi-stage all-pass phaser.
//!
//! Each stage keeps two values, its previous input and its previous output.
//! Stages are stored four to a group, so that four stages can be advanced
//! with one lane-wise operation; a single stage `j` lives in lane `j % 4` of
//! group `j / 4`. The arithmetic of one stage is supplied by the caller as a
//! function `(coefficient, input, previous output, previous input) -> output`.

use vstd::prelude::*;

verus! {

/// Number of lanes in a group.
pub const LANES: usize = 4;

/// The lanes of `groups` one after another.
pub open spec fn flatten<T>(groups: Seq<[T; 4]>) -> Seq<T> {
    Seq::new(4 * groups.len(), |j: int| groups[j / 4]@[j % 4])
}

/// Stage `4 * g + l` is lane `l` of group `g`, and the lanes are exactly
/// those of the groups.
pub proof fn lemma_flatten_layout<T>(groups: Seq<[T; 4]>)
    ensures
        flatten(groups).len() == 4 * groups.len(),
        forall|g: int, l: int|
            0 <= g < groups.len() && 0 <= l < 4 ==> #[trigger] flatten(groups)[4 * g + l] == groups[g]@[l],
{
    assert forall|g: int, l: int| 0 <= g < groups.len() && 0 <= l < 4 implies #[trigger] flatten(
        groups,
    )[4 * g + l] == groups[g]@[l] by {
        assert((4 * g + l) / 4 == g);
        assert((4 * g + l) % 4 == l);
    }
}

/// Groups needed to hold `num_stages` stages.
pub open spec fn group_count(num_stages: nat) -> nat {
    (num_stages + 3) / 4
}

/// The lanes after a resize to `n` stages: the groups `n` needs, with the
/// lanes below `n` that were stored before kept and every other lane `zero`.
pub open spec fn resized_lanes<T>(lanes: Seq<T>, n: nat, zero: T) -> Seq<T> {
    Seq::new(4 * group_count(n), |j: int| if j < n && j < lanes.len() { lanes[j] } else { zero })
}

/// After a resize to `n` stages the store holds the groups `n` needs, every
/// lane past the last stage and every lane of a newly added group is at rest
/// (`zero`), and the stages kept from before hold their old state; so stages
/// past the count stay at rest from one resize to the next, and a grown
/// phaser's new stages start at rest.
pub proof fn lemma_resized_lanes_at_rest<T>(lanes: Seq<T>, n: nat, zero: T)
    ensures
        resized_lanes(lanes, n, zero).len() == 4 * group_count(n),
        n <= 4 * group_count(n) < n + 4,
        forall|j: int| n <= j < 4 * group_count(n) ==> #[trigger] resized_lanes(lanes, n, zero)[j] == zero,
        forall|j: int| 0 <= j < n && j < lanes.len() ==> #[trigger] resized_lanes(lanes, n, zero)[j] == lanes[j],
        forall|j: int|
            lanes.len() <= j < 4 * group_count(n) ==> #[trigger] resized_lanes(lanes, n, zero)[j] == zero,
{
    vstd::arithmetic::div_mod::lemma_fundamental_div_mod((n + 3) as int, 4);
}

/// `f` can be called on any arguments and gives one result for each.
pub open spec fn deterministic<T, F: Fn(T, T, T, T) -> T>(f: F) -> bool {
    &&& forall|b: T, x: T, o: T, p: T| #[trigger] f.requires((b, x, o, p))
    &&& forall|b: T, x: T, o: T, p: T, r1: T, r2: T|
        #![trigger f.ensures((b, x, o, p), r1), f.ensures((b, x, o, p), r2)]
        f.ensures((b, x, o, p), r1) && f.ensures((b, x, o, p), r2) ==> r1 == r2
}

/// The output of stage function `f` for coefficient `b`, input `x`, previous
/// output `o` and previous input `p`.
pub open spec fn stage_out<T, F: Fn(T, T, T, T) -> T>(f: F, b: T, x: T, o: T, p: T) -> T {
    choose|r: T| f.ensures((b, x, o, p), r)
}

/// Runs one value through stages `from..to`, stage `s` with coefficient
/// `coefs[s]`; gives the new previous inputs, the new previous outputs and
/// the value leaving the last stage.
pub open spec fn run_stages<T, F: Fn(T, T, T, T) -> T>(
    f: F,
    coefs: Seq<T>,
    prev: Seq<T>,
    out: Seq<T>,
    val: T,
    from: int,
    to: int,
) -> (Seq<T>, Seq<T>, T)
    decreases to - from,
{
    if from >= to {
        (prev, out, val)
    } else {
        let o = stage_out(f, coefs[from], val, out[from], prev[from]);
        run_stages(f, coefs, prev.update(from, val), out.update(from, o), o, from + 1, to)
    }
}

/// What a run through stages `from..to` does: stages outside the range are
/// untouched; the first stage in the range takes `val` as its input, each
/// later stage takes the output of the one before, every stage in the range
/// keeps its input as previous input and its new output (from its own
/// coefficient, its input and its old state) as previous output, and the
/// value leaving the run is the last stage's output (`val` for an empty run).
pub proof fn lemma_run_stages_law<T, F: Fn(T, T, T, T) -> T>(
    f: F,
    coefs: Seq<T>,
    prev: Seq<T>,
    out: Seq<T>,
    val: T,
    from: int,
    to: int,
)
    requires
        0 <= from <= to <= prev.len(),
        prev.len() == out.len(),
    ensures
        ({
            let r = run_stages(f, coefs, prev, out, val, from, to);
            &&& r.0.len() == prev.len()
            &&& r.1.len() == out.len()
            &&& forall|s: int|
                #![trigger r.0[s]]
                #![trigger r.1[s]]
                0 <= s < prev.len() && !(from <= s < to) ==> r.0[s] == prev[s] && r.1[s] == out[s]
            &&& from < to ==> r.0[from] == val
            &&& forall|s: int| from < s < to ==> #[trigger] r.0[s] == r.1[s - 1]
            &&& forall|s: int|
                from <= s < to ==> #[trigger] r.1[s] == stage_out(f, coefs[s], r.0[s], out[s], prev[s])
            &&& r.2 == if from < to {
                r.1[to - 1]
            } else {
                val
            }
        }),
    decreases to - from,
{
    if from < to {
        let o = stage_out(f, coefs[from], val, out[from], prev[from]);
        let p2 = prev.update(from, val);
        let o2 = out.update(from, o);
        lemma_run_stages_law(f, coefs, p2, o2, o, from + 1, to);
        let r = run_stages(f, coefs, prev, out, val, from, to);
        assert(r == run_stages(f, coefs, p2, o2, o, from + 1, to));
        assert(r.0[from] == val);
        assert(r.1[from] == o);
        assert forall|s: int| from < s < to implies #[trigger] r.0[s] == r.1[s - 1] by {
            if s == from + 1 {
                if from + 1 < to {
                    assert(r.0[from + 1] == o);
                }
            }
        }
        assert forall|s: int| from <= s < to implies #[trigger] r.1[s] == stage_out(
            f,
            coefs[s],
            r.0[s],
            out[s],
            prev[s],
        ) by {
            if s > from {
                assert(o2[s] == out[s]);
                assert(p2[s] == prev[s]);
            }
        }
    }
}

/// Calls the stage function once; what it returns is what the model says.
fn call_stage<T, F: Fn(T, T, T, T) -> T>(f: &F, b: T, x: T, o: T, p: T) -> (r: T)
    requires
        deterministic(*f),
    ensures
        r == stage_out(*f, b, x, o, p),
{
    let r = f(b, x, o, p);
    assert(f.ensures((b, x, o, p), stage_out(*f, b, x, o, p)));
    r
}

/// The result of sending four values, lane 0 first, through a chain of
/// stages: `prev0` and `out0` are the stages' states before, `vals` the four
/// inputs and `coefs` the four lane coefficients.
pub struct StageGrid<T, F> {
    pub f: F,
    pub coefs: Seq<T>,
    pub num_stages: nat,
    pub prev0: Seq<T>,
    pub out0: Seq<T>,
    pub vals: Seq<T>,
}

impl<T, F: Fn(T, T, T, T) -> T> StageGrid<T, F> {
    /// Coefficient of lane `k`, used at every stage.
    pub open spec fn coef(self, k: int) -> T {
        self.coefs[k]
    }

    /// State `(previous input, previous output)` of stage `s` once lanes
    /// `0..=k` have gone through it; its output is what lane `k` carries on.
    pub open spec fn cell(self, k: nat, s: nat) -> (T, T)
        decreases k + s,
    {
        let input = if s == 0 {
            self.vals[k as int]
        } else {
            self.cell(k, (s - 1) as nat).1
        };
        let before = if k == 0 {
            (self.prev0[s as int], self.out0[s as int])
        } else {
            self.cell((k - 1) as nat, s)
        };
        (input, stage_out(self.f, self.coef(k as int), input, before.1, before.0))
    }

    /// Value lane `k` carries into stage `s` (out of the last stage for
    /// `s == num_stages`).
    pub open spec fn input(self, k: nat, s: nat) -> T {
        if s == 0 {
            self.vals[k as int]
        } else {
            self.cell(k, (s - 1) as nat).1
        }
    }

    /// State of stage `s` once lanes `0..k` have gone through it.
    pub open spec fn before(self, k: nat, s: nat) -> (T, T) {
        if k == 0 {
            (self.prev0[s as int], self.out0[s as int])
        } else {
            self.cell((k - 1) as nat, s)
        }
    }
}

/// How many of the four lanes, with progress `c`, are past stage `s`.
pub open spec fn lanes_past(c: Seq<int>, s: int) -> nat {
    if c[3] > s {
        4
    } else if c[2] > s {
        3
    } else if c[1] > s {
        2
    } else if c[0] > s {
        1
    } else {
        0
    }
}

/// Lane `k` has gone through the first `c[k]` stages, and no lane is ahead
/// of one with a smaller number.
pub open spec fn progress_ok(c: Seq<int>, n: nat) -> bool {
    &&& c.len() == 4
    &&& 0 <= c[3] <= c[2] <= c[1] <= c[0] <= n
}

/// Stage states `lp`, `lo` are those of the grid after the lanes have made
/// progress `c`; stages past the last one hold their initial state.
pub open spec fn stages_match<T, F: Fn(T, T, T, T) -> T>(
    grid: StageGrid<T, F>,
    lp: Seq<T>,
    lo: Seq<T>,
    c: Seq<int>,
) -> bool {
    &&& lp.len() == lo.len() == grid.prev0.len() == grid.out0.len()
    &&& grid.num_stages <= lp.len()
    &&& forall|s: int|
        0 <= s < grid.num_stages ==> (#[trigger] lp[s], lo[s]) == grid.before(lanes_past(c, s), s as nat)
    &&& forall|s: int|
        grid.num_stages <= s < lp.len() ==> #[trigger] lp[s] == grid.prev0[s] && lo[s] == grid.out0[s]
}

/// One step: lane `k`, whose predecessors are past stage `c[k]`, goes
/// through that stage. The stage holds what the grid says lane `k` finds
/// there, and afterwards the states match the grid with lane `k` one stage
/// further on.
pub proof fn lemma_step<T, F: Fn(T, T, T, T) -> T>(
    grid: StageGrid<T, F>,
    lp: Seq<T>,
    lo: Seq<T>,
    c: Seq<int>,
    k: int,
)
    requires
        progress_ok(c, grid.num_stages),
        stages_match(grid, lp, lo, c),
        0 <= k < 4,
        c[k] < grid.num_stages,
        k > 0 ==> c[k - 1] > c[k],
    ensures
        ({
            let s = c[k];
            let x = grid.input(k as nat, s as nat);
            let o = stage_out(grid.f, grid.coef(k), x, lo[s], lp[s]);
            &&& (lp[s], lo[s]) == grid.before(k as nat, s as nat)
            &&& o == grid.input(k as nat, (s + 1) as nat)
            &&& progress_ok(c.update(k, s + 1), grid.num_stages)
            &&& stages_match(grid, lp.update(s, x), lo.update(s, o), c.update(k, s + 1))
        }),
{
    let s = c[k];
    let x = grid.input(k as nat, s as nat);
    let c2 = c.update(k, s + 1);
    assert(lanes_past(c, s) == k);
    assert(lanes_past(c2, s) == k + 1);
    assert((lp[s], lo[s]) == grid.before(lanes_past(c, s), s as nat));
    let o = stage_out(grid.f, grid.coef(k), x, lo[s], lp[s]);
    assert(grid.cell(k as nat, s as nat) == (x, o));
    let lp2 = lp.update(s, x);
    let lo2 = lo.update(s, o);
    assert forall|t: int| 0 <= t < grid.num_stages implies (#[trigger] lp2[t], lo2[t]) == grid.before(
        lanes_past(c2, t),
        t as nat,
    ) by {
        if t != s {
            assert(lanes_past(c2, t) == lanes_past(c, t));
        }
    }
    assert forall|t: int| grid.num_stages <= t < lp2.len() implies #[trigger] lp2[t] == grid.prev0[t]
        && lo2[t] == grid.out0[t] by {
        assert(lp2[t] == lp[t]);
    }
    assert(stages_match(grid, lp2, lo2, c2));
    assert(o == grid.input(k as nat, (s + 1) as nat));
    assert(progress_ok(c2, grid.num_stages));
}

/// Every lane has gone through every stage: the stage states are those the
/// grid ends with, and stages past the last one are untouched.
pub open spec fn all_lanes_done<T, F: Fn(T, T, T, T) -> T>(
    grid: StageGrid<T, F>,
    lp: Seq<T>,
    lo: Seq<T>,
) -> bool {
    let n = grid.num_stages as int;
    stages_match(grid, lp, lo, seq![n, n, n, n])
}

/// Offset `q < 16` reduced into the eight-lane ring.
spec fn ring(q: int) -> int {
    if q < 8 {
        q
    } else {
        q - 8
    }
}

/// The two groups in flight hold the logical states of stages `base ..
/// base + 8`, rotated `t` places.
spec fn window_match<T>(
    cur: SimdMonoPhaserStage<T>,
    next: SimdMonoPhaserStage<T>,
    lp: Seq<T>,
    lo: Seq<T>,
    base: int,
    t: int,
) -> bool {
    &&& forall|p: int|
        #![trigger cur.prev_input@[p]]
        #![trigger cur.output@[p]]
        0 <= p < 4 ==> cur.prev_input@[p] == lp[base + p + t] && cur.output@[p] == lo[base + p + t]
    &&& forall|p: int|
        #![trigger next.prev_input@[p]]
        #![trigger next.output@[p]]
        0 <= p < 4 ==> next.prev_input@[p] == lp[base + ring(p + 4 + t)] && next.output@[p] == lo[base
            + ring(p + 4 + t)]
}

/// Lane position `p` of `vals` carries lane `3 - p`'s value.
spec fn lanes_carry<T, F: Fn(T, T, T, T) -> T>(grid: StageGrid<T, F>, vals: Seq<T>, c: Seq<int>) -> bool {
    forall|p: int| 0 <= p < 4 ==> #[trigger] vals[p] == grid.input((3 - p) as nat, c[3 - p] as nat)
}

/// The stored stages agree with the logical ones outside `lo_w .. hi_w`.
spec fn matches_outside<T>(sp: Seq<T>, so: Seq<T>, lp: Seq<T>, lo: Seq<T>, lo_w: int, hi_w: int) -> bool {
    &&& sp.len() == lp.len()
    &&& so.len() == lo.len()
    &&& forall|s: int|
        #![trigger sp[s]]
        #![trigger so[s]]
        0 <= s < lp.len() && !(lo_w <= s < hi_w) ==> sp[s] == lp[s] && so[s] == lo[s]
}

/// Running lane `k` from stage `s` on, once the lanes before it are done,
/// gives the grid's states with lane `k` done and its final value.
proof fn lemma_run_lane<T, F: Fn(T, T, T, T) -> T>(
    grid: StageGrid<T, F>,
    lp: Seq<T>,
    lo: Seq<T>,
    c: Seq<int>,
    k: int,
)
    requires
        progress_ok(c, grid.num_stages),
        stages_match(grid, lp, lo, c),
        0 <= k < 4,
        k > 0 ==> c[k - 1] == grid.num_stages,
    ensures
        ({
            let r = run_stages(
                grid.f,
                constant_coefs(grid.coefs[k], grid.num_stages),
                lp,
                lo,
                grid.input(k as nat, c[k] as nat),
                c[k],
                grid.num_stages as int,
            );
            &&& progress_ok(c.update(k, grid.num_stages as int), grid.num_stages)
            &&& stages_match(grid, r.0, r.1, c.update(k, grid.num_stages as int))
            &&& r.2 == grid.input(k as nat, grid.num_stages)
        }),
    decreases grid.num_stages - c[k],
{
    let n = grid.num_stages as int;
    let s = c[k];
    if s >= n {
        assert(c.update(k, n) =~= c);
    } else {
        lemma_step(grid, lp, lo, c, k);
        let x = grid.input(k as nat, s as nat);
        let o = stage_out(grid.f, grid.coef(k), x, lo[s], lp[s]);
        let c2 = c.update(k, s + 1);
        lemma_run_lane(grid, lp.update(s, x), lo.update(s, o), c2, k);
        assert(c2.update(k, n) =~= c.update(k, n));
    }
}

/// Four values sent through the stages one after another, value 0 first,
/// value `k` with coefficient `b[k]` at every stage (four runs of
/// `compute_direct`): gives the final previous inputs, the final previous
/// outputs and the four values leaving the last stage.
pub open spec fn lanes_in_turn<T, F: Fn(T, T, T, T) -> T>(
    f: F,
    b: Seq<T>,
    prev: Seq<T>,
    out: Seq<T>,
    vals: Seq<T>,
    n: nat,
) -> (Seq<T>, Seq<T>, Seq<T>) {
    let r0 = run_stages(f, constant_coefs(b[0], n), prev, out, vals[0], 0, n as int);
    let r1 = run_stages(f, constant_coefs(b[1], n), r0.0, r0.1, vals[1], 0, n as int);
    let r2 = run_stages(f, constant_coefs(b[2], n), r1.0, r1.1, vals[2], 0, n as int);
    let r3 = run_stages(f, constant_coefs(b[3], n), r2.0, r2.1, vals[3], 0, n as int);
    (r3.0, r3.1, seq![r0.2, r1.2, r2.2, r3.2])
}

/// The grid is four one-stage-at-a-time runs, lane 0 first, lane `k` with
/// coefficient `coefs[k]` at every stage: its stage states and lane results
/// are those of running the lanes one after another through all stages.
pub proof fn lemma_grid_runs_lanes_in_turn<T, F: Fn(T, T, T, T) -> T>(grid: StageGrid<T, F>)
    requires
        grid.prev0.len() == grid.out0.len(),
        grid.num_stages <= grid.prev0.len(),
    ensures
        ({
            let r = lanes_in_turn(grid.f, grid.coefs, grid.prev0, grid.out0, grid.vals, grid.num_stages);
            &&& all_lanes_done(grid, r.0, r.1)
            &&& forall|k: int| 0 <= k < 4 ==> #[trigger] r.2[k] == grid.input(k as nat, grid.num_stages)
        }),
{
    let n = grid.num_stages as int;
    let c0: Seq<int> = seq![0, 0, 0, 0];
    assert(stages_match(grid, grid.prev0, grid.out0, c0));
    lemma_run_lane(grid, grid.prev0, grid.out0, c0, 0);
    let r0 = run_stages(grid.f, constant_coefs(grid.coefs[0], grid.num_stages), grid.prev0, grid.out0, grid.vals[0], 0, n);
    let c1 = c0.update(0, n);
    lemma_run_lane(grid, r0.0, r0.1, c1, 1);
    let r1 = run_stages(grid.f, constant_coefs(grid.coefs[1], grid.num_stages), r0.0, r0.1, grid.vals[1], 0, n);
    let c2 = c1.update(1, n);
    lemma_run_lane(grid, r1.0, r1.1, c2, 2);
    let r2 = run_stages(grid.f, constant_coefs(grid.coefs[2], grid.num_stages), r1.0, r1.1, grid.vals[2], 0, n);
    let c3 = c2.update(2, n);
    lemma_run_lane(grid, r2.0, r2.1, c3, 3);
    let c4 = c3.update(3, n);
    assert(c4 =~= seq![n, n, n, n]);
}

/// Stage states that match the finished grid are those of the lanes run in
/// turn, and so are the four lane results.
proof fn lemma_done_is_in_turn<T, F: Fn(T, T, T, T) -> T>(
    grid: StageGrid<T, F>,
    lp: Seq<T>,
    lo: Seq<T>,
    vals: Seq<T>,
)
    requires
        all_lanes_done(grid, lp, lo),
        vals.len() == 4,
        forall|k: int| 0 <= k < 4 ==> #[trigger] vals[k] == grid.input(k as nat, grid.num_stages),
    ensures
        (lp, lo, vals) == lanes_in_turn(grid.f, grid.coefs, grid.prev0, grid.out0, grid.vals, grid.num_stages),
{
    lemma_grid_runs_lanes_in_turn(grid);
    let r = lanes_in_turn(grid.f, grid.coefs, grid.prev0, grid.out0, grid.vals, grid.num_stages);
    let n = grid.num_stages as int;
    let done: Seq<int> = seq![n, n, n, n];
    assert forall|s: int|
        #![trigger lp[s]]
        #![trigger lo[s]]
        0 <= s < lp.len() implies lp[s] == r.0[s] && lo[s] == r.1[s] by {
        if s < n {
            assert(lanes_past(done, s) == 4);
            assert((lp[s], lo[s]) == grid.before(4, s as nat));
            assert((r.0[s], r.1[s]) == grid.before(4, s as nat));
        } else {
            assert(r.0[s] == grid.prev0[s]);
        }
    }
    assert(lp =~= r.0);
    assert(lo =~= r.1);
    assert(vals =~= r.2);
}

/// One lane-wise step of the group-wise loop, at rotation `t` of the window
/// starting at stage `base`: lane `k` sits in position `3 - k` and goes
/// through stage `base + 3 - k + t`. Given the window before (`cur0`, the
/// values `vals0`) and after (`cur1`, `vals1`) the lane-wise compute, gives
/// the logical stage states and progress afterwards.
proof fn lemma_group_step<T, F: Fn(T, T, T, T) -> T>(
    grid: StageGrid<T, F>,
    lp: Seq<T>,
    lo: Seq<T>,
    c: Seq<int>,
    base: int,
    t: int,
    cur0: SimdMonoPhaserStage<T>,
    vals0: Seq<T>,
    cur1: SimdMonoPhaserStage<T>,
    vals1: Seq<T>,
) -> (r: (Seq<T>, Seq<T>, Seq<int>))
    requires
        progress_ok(c, grid.num_stages),
        stages_match(grid, lp, lo, c),
        lanes_carry(grid, vals0, c),
        0 <= base,
        0 <= t < 4,
        base + 3 + t < grid.num_stages,
        base + 8 <= lp.len(),
        c[0] == base + 3 + t,
        c[1] == base + 2 + t,
        c[2] == base + 1 + t,
        c[3] == base + t,
        forall|p: int|
            #![trigger cur0.prev_input@[p]]
            #![trigger cur0.output@[p]]
            0 <= p < 4 ==> cur0.prev_input@[p] == lp[base + p + t] && cur0.output@[p] == lo[base + p + t],
        forall|p: int|
            0 <= p < 4 ==> {
                &&& #[trigger] cur1.output@[p] == stage_out(
                    grid.f,
                    grid.coefs[3 - p],
                    vals0[p],
                    cur0.output@[p],
                    cur0.prev_input@[p],
                )
                &&& cur1.prev_input@[p] == vals0[p]
                &&& vals1[p] == cur1.output@[p]
            },
    ensures
        r.2 == seq![c[0] + 1, c[1] + 1, c[2] + 1, c[3] + 1],
        progress_ok(r.2, grid.num_stages),
        stages_match(grid, r.0, r.1, r.2),
        lanes_carry(grid, vals1, r.2),
        r.0.len() == lp.len(),
        r.1.len() == lo.len(),
        forall|p: int|
            #![trigger cur1.prev_input@[p]]
            #![trigger cur1.output@[p]]
            0 <= p < 4 ==> cur1.prev_input@[p] == r.0[base + p + t] && cur1.output@[p] == r.1[base + p + t],
        forall|s: int|
            #![trigger r.0[s]]
            #![trigger r.1[s]]
            0 <= s < lp.len() && !(base + t <= s < base + t + 4) ==> r.0[s] == lp[s] && r.1[s] == lo[s],
{
    let lp0 = lp;
    let lo0 = lo;
    let c0 = c;
    // the four lanes, lane 0 (position 3) first
    lemma_step(grid, lp0, lo0, c0, 0);
    let s0 = c0[0];
    let x0 = grid.input(0, s0 as nat);
    let o0 = stage_out(grid.f, grid.coef(0), x0, lo0[s0], lp0[s0]);
    let lp1 = lp0.update(s0, x0);
    let lo1 = lo0.update(s0, o0);
    let c1 = c0.update(0, s0 + 1);
    lemma_step(grid, lp1, lo1, c1, 1);
    let s1 = c1[1];
    let x1 = grid.input(1, s1 as nat);
    let o1 = stage_out(grid.f, grid.coef(1), x1, lo1[s1], lp1[s1]);
    let lp2 = lp1.update(s1, x1);
    let lo2 = lo1.update(s1, o1);
    let c2 = c1.update(1, s1 + 1);
    lemma_step(grid, lp2, lo2, c2, 2);
    let s2 = c2[2];
    let x2 = grid.input(2, s2 as nat);
    let o2 = stage_out(grid.f, grid.coef(2), x2, lo2[s2], lp2[s2]);
    let lp3 = lp2.update(s2, x2);
    let lo3 = lo2.update(s2, o2);
    let c3 = c2.update(2, s2 + 1);
    lemma_step(grid, lp3, lo3, c3, 3);
    let s3 = c3[3];
    let x3 = grid.input(3, s3 as nat);
    let o3 = stage_out(grid.f, grid.coef(3), x3, lo3[s3], lp3[s3]);
    let lp4 = lp3.update(s3, x3);
    let lo4 = lo3.update(s3, o3);
    let c4 = c3.update(3, s3 + 1);
    assert(s0 == base + 3 + t && s1 == base + 2 + t && s2 == base + 1 + t && s3 == base + t);
    assert(cur0.output@[3] == lo0[s0] && cur0.prev_input@[3] == lp0[s0]);
    assert(cur0.output@[2] == lo0[s1] && cur0.prev_input@[2] == lp0[s1]);
    assert(cur0.output@[1] == lo0[s2] && cur0.prev_input@[1] == lp0[s2]);
    assert(cur0.output@[0] == lo0[s3] && cur0.prev_input@[0] == lp0[s3]);
    assert(x0 == vals0[3] && x1 == vals0[2] && x2 == vals0[1] && x3 == vals0[0]);
    assert(vals1[3] == cur1.output@[3] && vals1[2] == cur1.output@[2]);
    assert(vals1[1] == cur1.output@[1] && vals1[0] == cur1.output@[0]);
    assert(vals0[3] == cur1.prev_input@[3] && vals0[2] == cur1.prev_input@[2]);
    assert(vals0[1] == cur1.prev_input@[1] && vals0[0] == cur1.prev_input@[0]);
    assert(cur1.output@[3] == stage_out(grid.f, grid.coefs[0], vals0[3], cur0.output@[3], cur0.prev_input@[3]));
    assert(cur1.output@[2] == stage_out(grid.f, grid.coefs[1], vals0[2], cur0.output@[2], cur0.prev_input@[2]));
    assert(cur1.output@[1] == stage_out(grid.f, grid.coefs[2], vals0[1], cur0.output@[1], cur0.prev_input@[1]));
    assert(cur1.output@[0] == stage_out(grid.f, grid.coefs[3], vals0[0], cur0.output@[0], cur0.prev_input@[0]));
    assert(vals1[3] == o0 && vals1[2] == o1 && vals1[1] == o2 && vals1[0] == o3);
    assert(lp4[s0] == x0 && lp4[s1] == x1 && lp4[s2] == x2 && lp4[s3] == x3);
    assert(lo4[s0] == o0 && lo4[s1] == o1 && lo4[s2] == o2 && lo4[s3] == o3);
    assert(c4 =~= seq![c0[0] + 1, c0[1] + 1, c0[2] + 1, c0[3] + 1]);
    assert forall|p: int| 0 <= p < 4 implies {
        &&& #[trigger] cur1.prev_input@[p] == lp4[base + p + t]
        &&& cur1.output@[p] == lo4[base + p + t]
        &&& vals1[p] == grid.input((3 - p) as nat, c4[3 - p] as nat)
    } by {
    }
    assert(lanes_carry(grid, vals1, c4));
    (lp4, lo4, c4)
}

/// Rotating the two groups in flight by one lane moves the window of
/// logical stages from rotation `t` to rotation `t + 1`.
proof fn lemma_rotated_window<T>(
    cur1: SimdMonoPhaserStage<T>,
    next1: SimdMonoPhaserStage<T>,
    cur2: SimdMonoPhaserStage<T>,
    next2: SimdMonoPhaserStage<T>,
    lp: Seq<T>,
    lo: Seq<T>,
    base: int,
    t: int,
)
    requires
        0 <= t < 4,
        forall|p: int|
            #![trigger cur1.prev_input@[p]]
            #![trigger cur1.output@[p]]
            0 <= p < 4 ==> cur1.prev_input@[p] == lp[base + p + t] && cur1.output@[p] == lo[base + p + t],
        forall|p: int|
            #![trigger next1.prev_input@[p]]
            #![trigger next1.output@[p]]
            0 <= p < 4 ==> next1.prev_input@[p] == lp[base + ring(p + 4 + t)] && next1.output@[p] == lo[base
                + ring(p + 4 + t)],
        (cur2.prev_input@, next2.prev_input@) == rotate_pair(cur1.prev_input@, next1.prev_input@),
        (cur2.output@, next2.output@) == rotate_pair(cur1.output@, next1.output@),
    ensures
        window_match(cur2, next2, lp, lo, base, t + 1),
{
    assert forall|p: int| 0 <= p < 4 implies {
        &&& #[trigger] cur2.prev_input@[p] == lp[base + p + t + 1]
        &&& cur2.output@[p] == lo[base + p + t + 1]
        &&& next2.prev_input@[p] == lp[base + ring(p + 4 + t + 1)]
        &&& next2.output@[p] == lo[base + ring(p + 4 + t + 1)]
    } by {
        if p < 3 {
            assert(cur2.prev_input@[p] == cur1.prev_input@[p + 1]);
            assert(next2.prev_input@[p] == next1.prev_input@[p + 1]);
        }
    }
}

/// Storing the group in flight at `w` into stores that agree with the
/// logical states everywhere else makes them agree everywhere.
proof fn lemma_last_group_stored<T>(
    sp0: Seq<T>,
    so0: Seq<T>,
    sp1: Seq<T>,
    so1: Seq<T>,
    cur: SimdMonoPhaserStage<T>,
    lp: Seq<T>,
    lo: Seq<T>,
    w: int,
)
    requires
        0 <= w,
        w + 4 <= lp.len(),
        lo.len() == lp.len(),
        matches_outside(sp0, so0, lp, lo, w, w + 4),
        sp1.len() == sp0.len(),
        so1.len() == so0.len(),
        forall|j: int|
            0 <= j < sp0.len() ==> {
                &&& #[trigger] sp1[j] == if w <= j < w + 4 {
                    cur.prev_input@[j - w]
                } else {
                    sp0[j]
                }
                &&& so1[j] == if w <= j < w + 4 {
                    cur.output@[j - w]
                } else {
                    so0[j]
                }
            },
        forall|p: int|
            #![trigger cur.prev_input@[p]]
            #![trigger cur.output@[p]]
            0 <= p < 4 ==> cur.prev_input@[p] == lp[w + p] && cur.output@[p] == lo[w + p],
    ensures
        sp1 == lp,
        so1 == lo,
{
    assert forall|j: int|
        #![trigger sp1[j]]
        #![trigger so1[j]]
        0 <= j < lp.len() implies sp1[j] == lp[j] && so1[j] == lo[j] by {
        assert(sp1[j] == (if w <= j < w + 4 {
            cur.prev_input@[j - w]
        } else {
            sp0[j]
        }));
        if w <= j < w + 4 {
            assert(cur.prev_input@[j - w] == lp[j]);
            assert(cur.output@[j - w] == lo[j]);
        } else {
            assert(sp0[j] == lp[j]);
            assert(so0[j] == lo[j]);
        }
    }
    assert(sp1 =~= lp);
    assert(so1 =~= lo);
}

/// The same coefficient for each of `n` stages.
pub open spec fn constant_coefs<T>(b: T, n: nat) -> Seq<T> {
    Seq::new(n, |_s: int| b)
}

/// Sets the group store to `len` groups, keeping the leading ones and filling
/// new ones with `zero` in every lane.
fn resize_groups<T: Copy>(groups: &mut Vec<[T; 4]>, len: usize, zero: T)
    ensures
        final(groups)@.len() == len,
        forall|g: int| 0 <= g < len ==> #[trigger] final(groups)@[g] == if g < old(groups)@.len() {
            old(groups)@[g]
        } else {
            [zero, zero, zero, zero]
        },
{
    groups.truncate(len);
    while groups.len() < len
        invariant
            groups@.len() <= len,
            forall|g: int| 0 <= g < groups@.len() ==> #[trigger] groups@[g] == if g < old(groups)@.len() {
                old(groups)@[g]
            } else {
                [zero, zero, zero, zero]
            },
            groups@.len() < len ==> groups@.len() >= old(groups)@.len(),
        decreases len - groups@.len(),
    {
        groups.push([zero, zero, zero, zero]);
    }
}

/// Advances four stages at once, one per lane.
pub struct SimdMonoPhaserStage<T> {
    pub prev_input: [T; 4],
    pub output: [T; 4],
}

impl<T: Copy> SimdMonoPhaserStage<T> {
    /// Runs `input[p]` through lane `p` with coefficient `break_coef[p]`, for
    /// every lane, and leaves the outputs in `input`.
    pub fn compute<F: Fn(T, T, T, T) -> T>(&mut self, f: &F, break_coef: [T; 4], input: &mut [T; 4])
        requires
            deterministic(*f),
        ensures
            forall|p: int| 0 <= p < 4 ==> {
                &&& #[trigger] final(self).output@[p] == stage_out(
                    *f,
                    break_coef@[p],
                    old(input)@[p],
                    old(self).output@[p],
                    old(self).prev_input@[p],
                )
                &&& final(self).prev_input@[p] == old(input)@[p]
                &&& final(input)@[p] == final(self).output@[p]
            },
    {
        let x = *input;
        let o = self.output;
        let p = self.prev_input;
        let out = [
            call_stage(f, break_coef[0], x[0], o[0], p[0]),
            call_stage(f, break_coef[1], x[1], o[1], p[1]),
            call_stage(f, break_coef[2], x[2], o[2], p[2]),
            call_stage(f, break_coef[3], x[3], o[3], p[3]),
        ];
        self.prev_input = x;
        self.output = out;
        *input = out;
    }
}

/// The two groups after rotating their eight lanes one place to the front.
pub open spec fn rotate_pair<T>(a: Seq<T>, b: Seq<T>) -> (Seq<T>, Seq<T>) {
    (seq![a[1], a[2], a[3], b[0]], seq![b[1], b[2], b[3], a[0]])
}

/// Rotating two groups four times swaps them.
pub proof fn lemma_four_rotations_swap<T>(a: Seq<T>, b: Seq<T>)
    requires
        a.len() == 4,
        b.len() == 4,
    ensures
        ({
            let r1 = rotate_pair(a, b);
            let r2 = rotate_pair(r1.0, r1.1);
            let r3 = rotate_pair(r2.0, r2.1);
            let r4 = rotate_pair(r3.0, r3.1);
            r4 == (b, a)
        }),
{
    let r1 = rotate_pair(a, b);
    let r2 = rotate_pair(r1.0, r1.1);
    let r3 = rotate_pair(r2.0, r2.1);
    let r4 = rotate_pair(r3.0, r3.1);
    assert(r4.0 =~= b);
    assert(r4.1 =~= a);
}

/// Rotates the eight lanes of `s1` followed by `s2` one place to the front:
/// `s1` takes its last three lanes and the first of `s2`, `s2` its last three
/// lanes and the first of `s1`.
pub fn concat_rotate<T: Copy>(s1: &mut [T; 4], s2: &mut [T; 4])
    ensures
        (final(s1)@, final(s2)@) == rotate_pair(old(s1)@, old(s2)@),
{
    let a = *s1;
    let b = *s2;
    *s1 = [a[1], a[2], a[3], b[0]];
    *s2 = [b[1], b[2], b[3], a[0]];
    assert(s1@ =~= seq![a@[1], a@[2], a@[3], b@[0]]);
    assert(s2@ =~= seq![b@[1], b@[2], b@[3], a@[0]]);
}

/// The lanes of `v` in reverse order.
pub fn reverse_lanes<T: Copy>(v: [T; 4]) -> (r: [T; 4])
    ensures
        r@ == v@.reverse(),
{
    let r = [v[3], v[2], v[1], v[0]];
    assert(r@ =~= v@.reverse());
    r
}

/// Stage count for a requested number: negative requests give no stages.
pub fn stage_count(num_stages: i32) -> (n: usize)
    ensures
        n == if num_stages >= 0 { num_stages as int } else { 0 },
{
    if num_stages >= 0 {
        num_stages as usize
    } else {
        0
    }
}

/// A single-channel phaser's stage storage.
pub struct SimdMonoPhaser<T> {
    prev_inputs: Vec<[T; 4]>,
    outputs: Vec<[T; 4]>,
    num_stages: usize,
}

impl<T: Copy> SimdMonoPhaser<T> {
    /// Both stores hold exactly the groups the stage count needs.
    pub closed spec fn wf(&self) -> bool {
        &&& self.prev_inputs@.len() == self.outputs@.len()
        &&& self.outputs@.len() == group_count(self.num_stages as nat)
    }

    /// Number of stages in use.
    pub closed spec fn stages(&self) -> nat {
        self.num_stages as nat
    }

    /// Previous input of every stored stage, in stage order.
    pub closed spec fn prev_input_lanes(&self) -> Seq<T> {
        flatten(self.prev_inputs@)
    }

    /// Previous output of every stored stage, in stage order.
    pub closed spec fn output_lanes(&self) -> Seq<T> {
        flatten(self.outputs@)
    }

    /// Number of stored groups of four stages.
    pub closed spec fn groups(&self) -> nat {
        self.outputs@.len()
    }

    /// The stored groups: group `g` holds stages `4 * g .. 4 * g + 4`.
    pub proof fn lemma_layout(&self)
        requires
            self.wf(),
        ensures
            self.groups() == group_count(self.stages()),
            self.prev_input_lanes().len() == 4 * self.groups(),
            self.output_lanes().len() == 4 * self.groups(),
            self.stages() <= 4 * self.groups(),
    {
    }

    /// A phaser with no stages.
    pub fn new() -> (p: Self)
        ensures
            p.wf(),
            p.stages() == 0,
            p.groups() == 0,
    {
        SimdMonoPhaser { prev_inputs: Vec::new(), outputs: Vec::new(), num_stages: 0 }
    }

    /// Previous input and previous output of stage `index`.
    pub fn get_single(&self, index: usize) -> (r: (T, T))
        requires
            self.wf(),
            index < 4 * self.groups(),
        ensures
            r.0 == self.prev_input_lanes()[index as int],
            r.1 == self.output_lanes()[index as int],
    {
        let g = index / 4;
        let l = index % 4;
        (self.prev_inputs[g][l], self.outputs[g][l])
    }

    /// Stores the previous input and previous output of stage `index`.
    pub fn set_single(&mut self, index: usize, prev_input: T, output: T)
        requires
            old(self).wf(),
            index < 4 * old(self).groups(),
        ensures
            final(self).wf(),
            final(self).stages() == old(self).stages(),
            final(self).groups() == old(self).groups(),
            final(self).prev_input_lanes() == old(self).prev_input_lanes().update(index as int, prev_input),
            final(self).output_lanes() == old(self).output_lanes().update(index as int, output),
    {
        let ghost old_prev = self.prev_input_lanes();
        let ghost old_out = self.output_lanes();
        let g = index / 4;
        let l = index % 4;
        let mut p = self.prev_inputs[g];
        p[l] = prev_input;
        self.prev_inputs.set(g, p);
        let mut o = self.outputs[g];
        o[l] = output;
        self.outputs.set(g, o);
        assert(self.prev_input_lanes() =~= old_prev.update(index as int, prev_input));
        assert(self.output_lanes() =~= old_out.update(index as int, output));
    }

    /// The four stages of group `index`.
    pub fn get_simd(&self, index: usize) -> (r: SimdMonoPhaserStage<T>)
        requires
            self.wf(),
            index < self.groups(),
        ensures
            r.prev_input@ == self.prev_input_lanes().subrange(4 * index, 4 * index + 4),
            r.output@ == self.output_lanes().subrange(4 * index, 4 * index + 4),
    {
        let r = SimdMonoPhaserStage { prev_input: self.prev_inputs[index], output: self.outputs[index] };
        assert(r.prev_input@ =~= self.prev_input_lanes().subrange(4 * index, 4 * index + 4));
        assert(r.output@ =~= self.output_lanes().subrange(4 * index, 4 * index + 4));
        r
    }

    /// Stores the four stages of group `index`.
    pub fn set_simd(&mut self, index: usize, stage: SimdMonoPhaserStage<T>)
        requires
            old(self).wf(),
            index < old(self).groups(),
        ensures
            final(self).wf(),
            final(self).stages() == old(self).stages(),
            final(self).groups() == old(self).groups(),
            forall|j: int| 0 <= j < 4 * old(self).groups() ==> {
                &&& #[trigger] final(self).prev_input_lanes()[j] == if 4 * index <= j < 4 * index + 4 {
                    stage.prev_input@[j - 4 * index]
                } else {
                    old(self).prev_input_lanes()[j]
                }
                &&& final(self).output_lanes()[j] == if 4 * index <= j < 4 * index + 4 {
                    stage.output@[j - 4 * index]
                } else {
                    old(self).output_lanes()[j]
                }
            },
    {
        self.prev_inputs.set(index, stage.prev_input);
        self.outputs.set(index, stage.output);
    }

    /// Changes the number of stages. Groups that are no longer needed are
    /// dropped, new groups start at `zero`, and every lane past the last stage
    /// is reset to `zero`; nothing changes when the count is the same.
    pub fn resize(&mut self, num_stages: usize, zero: T)
        requires
            old(self).wf(),
            num_stages <= usize::MAX - 3,
        ensures
            final(self).wf(),
            final(self).stages() == num_stages,
            final(self).groups() == group_count(num_stages as nat),
            num_stages == old(self).stages() ==> {
                &&& final(self).prev_input_lanes() == old(self).prev_input_lanes()
                &&& final(self).output_lanes() == old(self).output_lanes()
            },
            num_stages != old(self).stages() ==> {
                &&& final(self).prev_input_lanes() == resized_lanes(
                    old(self).prev_input_lanes(),
                    num_stages as nat,
                    zero,
                )
                &&& final(self).output_lanes() == resized_lanes(
                    old(self).output_lanes(),
                    num_stages as nat,
                    zero,
                )
            },
            final(self).prev_input_lanes().len() == 4 * final(self).groups(),
            final(self).output_lanes().len() == 4 * final(self).groups(),
            // stages that exist before and after keep their state
            forall|j: int|
                #![trigger final(self).prev_input_lanes()[j]]
                #![trigger final(self).output_lanes()[j]]
                0 <= j < num_stages && j < 4 * old(self).groups() ==> final(self).prev_input_lanes()[j]
                    == old(self).prev_input_lanes()[j] && final(self).output_lanes()[j]
                    == old(self).output_lanes()[j],
            // every lane of a newly added group starts at rest
            forall|j: int|
                #![trigger final(self).prev_input_lanes()[j]]
                #![trigger final(self).output_lanes()[j]]
                4 * old(self).groups() <= j < 4 * final(self).groups() ==> final(self).prev_input_lanes()[j]
                    == zero && final(self).output_lanes()[j] == zero,
            // on a change of count, every lane past the last stage is at rest
            num_stages != old(self).stages() ==> forall|j: int|
                #![trigger final(self).prev_input_lanes()[j]]
                #![trigger final(self).output_lanes()[j]]
                num_stages <= j < 4 * final(self).groups() ==> final(self).prev_input_lanes()[j] == zero
                    && final(self).output_lanes()[j] == zero,
    {
        if self.num_stages == num_stages {
            return;
        }
        let ghost old_prev = self.prev_input_lanes();
        let ghost old_out = self.output_lanes();
        let ghost old_groups = self.groups();
        assert(old_prev == old(self).prev_input_lanes());
        assert(old_groups == old(self).groups());
        assert(old_out == old(self).output_lanes());
        let vecsize = (num_stages + 3) / LANES;
        resize_groups(&mut self.prev_inputs, vecsize, zero);
        resize_groups(&mut self.outputs, vecsize, zero);
        self.num_stages = num_stages;
        proof {
            vstd::arithmetic::div_mod::lemma_fundamental_div_mod((num_stages + 3) as int, 4);
            assert forall|j: int| 0 <= j < 4 * vecsize implies {
                &&& #[trigger] self.prev_input_lanes()[j] == if j < 4 * old_groups {
                    old_prev[j]
                } else {
                    zero
                }
                &&& self.output_lanes()[j] == if j < 4 * old_groups {
                    old_out[j]
                } else {
                    zero
                }
            } by {
                assert(j / 4 < old_groups <==> j < 4 * old_groups);
            }
        }
        let mut unused = num_stages;
        while unused < vecsize * LANES
            invariant
                self.wf(),
                old_prev.len() == 4 * old_groups,
                old_out.len() == 4 * old_groups,
                4 * vecsize <= usize::MAX,
                self.num_stages == num_stages,
                self.groups() == vecsize,
                vecsize == group_count(num_stages as nat),
                num_stages <= unused <= 4 * vecsize,
                forall|j: int| 0 <= j < 4 * vecsize ==> {
                    &&& #[trigger] self.prev_input_lanes()[j] == if (j < num_stages || unused <= j) && j < 4
                        * old_groups {
                        old_prev[j]
                    } else {
                        zero
                    }
                    &&& self.output_lanes()[j] == if (j < num_stages || unused <= j) && j < 4 * old_groups {
                        old_out[j]
                    } else {
                        zero
                    }
                },
            decreases 4 * vecsize - unused,
        {
            let ghost before_prev = self.prev_input_lanes();
            let ghost before_out = self.output_lanes();
            self.set_single(unused, zero, zero);
            assert forall|j: int| 0 <= j < 4 * vecsize implies {
                &&& #[trigger] self.prev_input_lanes()[j] == if (j < num_stages || unused + 1 <= j) && j
                    < 4 * old_groups {
                    old_prev[j]
                } else {
                    zero
                }
                &&& self.output_lanes()[j] == if (j < num_stages || unused + 1 <= j) && j < 4 * old_groups {
                    old_out[j]
                } else {
                    zero
                }
            } by {
                if j != unused {
                    assert(self.prev_input_lanes()[j] == before_prev[j]);
                    assert(self.output_lanes()[j] == before_out[j]);
                }
            }
            unused += 1;
        }
        assert forall|j: int|
            #![trigger self.prev_input_lanes()[j]]
            #![trigger self.output_lanes()[j]]
            0 <= j < 4 * vecsize implies {
            &&& self.prev_input_lanes()[j] == if j < num_stages && j < 4 * old_groups {
                old_prev[j]
            } else {
                zero
            }
            &&& self.output_lanes()[j] == if j < num_stages && j < 4 * old_groups {
                old_out[j]
            } else {
                zero
            }
        } by {
            assert(unused == 4 * vecsize);
            assert(self.prev_input_lanes()[j] == (if (j < num_stages || unused <= j) && j < 4
                * old_groups {
                old_prev[j]
            } else {
                zero
            }));
            assert(self.output_lanes()[j] == (if (j < num_stages || unused <= j) && j < 4 * old_groups {
                old_out[j]
            } else {
                zero
            }));
        }
        assert(self.prev_input_lanes() =~= resized_lanes(old_prev, num_stages as nat, zero));
        assert(self.output_lanes() =~= resized_lanes(old_out, num_stages as nat, zero));
        proof {
            lemma_resized_lanes_at_rest(old_prev, num_stages as nat, zero);
            lemma_resized_lanes_at_rest(old_out, num_stages as nat, zero);
        }
    }

    /// Runs `val` through every stage in order, all with coefficient
    /// `break_coef`, updating each stage's state.
    pub fn compute_direct<F: Fn(T, T, T, T) -> T>(&mut self, f: &F, break_coef: T, val: &mut T)
        requires
            old(self).wf(),
            deterministic(*f),
        ensures
            final(self).wf(),
            final(self).stages() == old(self).stages(),
            final(self).groups() == old(self).groups(),
            (final(self).prev_input_lanes(), final(self).output_lanes(), *final(val)) == run_stages(
                *f,
                constant_coefs(break_coef, old(self).stages()),
                old(self).prev_input_lanes(),
                old(self).output_lanes(),
                *old(val),
                0,
                old(self).stages() as int,
            ),
    {
        let ghost coefs = constant_coefs(break_coef, self.stages());
        let ghost n = self.stages() as int;
        let n_stages = self.num_stages;
        let mut stage: usize = 0;
        while stage < n_stages
            invariant
                self.wf(),
                deterministic(*f),
                n_stages == n == self.stages(),
                n == old(self).stages(),
                self.groups() == old(self).groups(),
                0 <= stage <= n,
                n <= 4 * self.groups(),
                coefs == constant_coefs(break_coef, old(self).stages()),
                run_stages(*f, coefs, self.prev_input_lanes(), self.output_lanes(), *val, stage as int, n)
                    == run_stages(
                    *f,
                    coefs,
                    old(self).prev_input_lanes(),
                    old(self).output_lanes(),
                    *old(val),
                    0,
                    n,
                ),
            decreases n - stage,
        {
            let (p, o) = self.get_single(stage);
            let out = call_stage(f, break_coef, *val, o, p);
            assert(coefs[stage as int] == break_coef);
            assert(out == stage_out(*f, coefs[stage as int], *val, self.output_lanes()[stage as int], self.prev_input_lanes()[stage as int]));
            assert(run_stages(*f, coefs, self.prev_input_lanes(), self.output_lanes(), *val, stage as int, n)
                == run_stages(
                *f,
                coefs,
                self.prev_input_lanes().update(stage as int, *val),
                self.output_lanes().update(stage as int, out),
                out,
                stage + 1,
                n,
            ));
            self.set_single(stage, *val, out);
            *val = out;
            stage += 1;
        }
    }

    /// Runs lane `k`'s value `val` through stages `from..to` with coefficient
    /// `coef`, one stage at a time, as the grid prescribes.
    fn advance_lane<F: Fn(T, T, T, T) -> T>(
        &mut self,
        f: &F,
        coef: T,
        val: &mut T,
        from: usize,
        to: usize,
        Ghost(grid): Ghost<StageGrid<T, F>>,
        Ghost(k): Ghost<int>,
        Ghost(c): Ghost<Seq<int>>,
    )
        requires
            old(self).wf(),
            deterministic(*f),
            grid.f == *f,
            grid.num_stages == old(self).stages(),
            progress_ok(c, grid.num_stages),
            0 <= k < 4,
            c[k] == from,
            from <= to <= grid.num_stages,
            k > 0 ==> c[k - 1] >= to,
            grid.coef(k) == coef,
            stages_match(grid, old(self).prev_input_lanes(), old(self).output_lanes(), c),
            *old(val) == grid.input(k as nat, from as nat),
        ensures
            final(self).wf(),
            final(self).stages() == old(self).stages(),
            final(self).groups() == old(self).groups(),
            progress_ok(c.update(k, to as int), grid.num_stages),
            stages_match(grid, final(self).prev_input_lanes(), final(self).output_lanes(), c.update(k, to as int)),
            *final(val) == grid.input(k as nat, to as nat),
    {
        let mut stage = from;
        while stage < to
            invariant
                self.wf(),
                deterministic(*f),
                grid.f == *f,
                grid.num_stages == self.stages(),
                self.groups() == old(self).groups(),
                0 <= k < 4,
                from <= stage <= to <= grid.num_stages,
                grid.num_stages <= 4 * self.groups(),
                c.len() == 4,
                k > 0 ==> c[k - 1] >= to,
                grid.coef(k) == coef,
                progress_ok(c.update(k, stage as int), grid.num_stages),
                stages_match(grid, self.prev_input_lanes(), self.output_lanes(), c.update(k, stage as int)),
                *val == grid.input(k as nat, stage as nat),
            decreases to - stage,
        {
            let ghost cs = c.update(k, stage as int);
            proof {
                lemma_step(grid, self.prev_input_lanes(), self.output_lanes(), cs, k);
                assert(cs.update(k, stage + 1) =~= c.update(k, stage + 1));
            }
            let (p, o) = self.get_single(stage);
            let out = call_stage(f, coef, *val, o, p);
            self.set_single(stage, *val, out);
            *val = out;
            stage += 1;
        }
    }

    /// The grid that `compute` follows from this state.
    pub open spec fn grid_for<F: Fn(T, T, T, T) -> T>(
        &self,
        f: F,
        break_coef_simd: [T; 4],
        val_simd: [T; 4],
    ) -> StageGrid<T, F> {
        StageGrid {
            f,
            coefs: break_coef_simd@,
            num_stages: self.stages(),
            prev0: self.prev_input_lanes(),
            out0: self.output_lanes(),
            vals: val_simd@,
        }
    }

    /// Runs four successive samples of one channel through every stage,
    /// sample 0 first, sample `k` with coefficient `break_coef_simd[k]`: the
    /// same as four calls of `compute_direct`. With at least four full groups
    /// the stages are advanced a group at a time: the samples are staggered
    /// so that sample `k` enters the group-wise loop at stage `3 - k`, the
    /// loop moves the stage states past the samples by rotating two groups,
    /// and the samples then finish one at a time. In that loop sample `k`
    /// sits in lane `3 - k`, so the coefficients are reversed with the
    /// samples.
    pub fn compute<F: Fn(T, T, T, T) -> T>(&mut self, f: &F, break_coef_simd: [T; 4], val_simd: &mut [T; 4])
        requires
            old(self).wf(),
            deterministic(*f),
        ensures
            final(self).wf(),
            final(self).stages() == old(self).stages(),
            final(self).groups() == old(self).groups(),
            ({
                let r = lanes_in_turn(
                    *f,
                    break_coef_simd@,
                    old(self).prev_input_lanes(),
                    old(self).output_lanes(),
                    old(val_simd)@,
                    old(self).stages(),
                );
                &&& final(self).prev_input_lanes() == r.0
                &&& final(self).output_lanes() == r.1
                &&& final(val_simd)@ == r.2
            }),
    {
        let ghost grid = self.grid_for(*f, break_coef_simd, *val_simd);
        let n = self.num_stages;
        let ghost ni = n as int;
        proof {
            vstd::arithmetic::div_mod::lemma_fundamental_div_mod((n + 3) as int, 4);
            vstd::arithmetic::div_mod::lemma_fundamental_div_mod(n as int, 4);
            assert(stages_match(grid, self.prev_input_lanes(), self.output_lanes(), seq![0int, 0, 0, 0]));
        }
        let simd_len = n / LANES;
        let mut v0 = val_simd[0];
        let mut v1 = val_simd[1];
        let mut v2 = val_simd[2];
        let mut v3 = val_simd[3];
        let ghost none_done: Seq<int> = seq![0int, 0, 0, 0];
        let ghost one_done: Seq<int> = seq![ni, 0, 0, 0];
        let ghost two_done: Seq<int> = seq![ni, ni, 0, 0];
        let ghost three_done: Seq<int> = seq![ni, ni, ni, 0];
        let ghost lane0_staggered: Seq<int> = seq![3int, 0, 0, 0];
        let ghost lanes01_staggered: Seq<int> = seq![3int, 2, 0, 0];
        if simd_len < 4 {
            // too few groups for the group-wise loop to pay off: one lane
            // after another through every stage
            proof {
                lemma_run_lane(grid, self.prev_input_lanes(), self.output_lanes(), none_done, 0);
            }
            self.compute_direct(f, break_coef_simd[0], &mut v0);
            proof {
                assert(none_done.update(0, ni) =~= one_done);
                lemma_run_lane(grid, self.prev_input_lanes(), self.output_lanes(), one_done, 1);
            }
            self.compute_direct(f, break_coef_simd[1], &mut v1);
            proof {
                assert(one_done.update(1, ni) =~= two_done);
                lemma_run_lane(grid, self.prev_input_lanes(), self.output_lanes(), two_done, 2);
            }
            self.compute_direct(f, break_coef_simd[2], &mut v2);
            proof {
                assert(two_done.update(2, ni) =~= three_done);
                lemma_run_lane(grid, self.prev_input_lanes(), self.output_lanes(), three_done, 3);
            }
            self.compute_direct(f, break_coef_simd[3], &mut v3);
            *val_simd = [v0, v1, v2, v3];
            proof {
                assert(three_done.update(3, ni) =~= seq![ni, ni, ni, ni]);
                lemma_done_is_in_turn(grid, self.prev_input_lanes(), self.output_lanes(), val_simd@);
            }
            return;
        }
        // stagger the lanes: lane k goes through the first 3 - k stages
        self.advance_lane(f, break_coef_simd[0], &mut v0, 0, 3, Ghost(grid), Ghost(0), Ghost(none_done));
        assert(seq![0int, 0, 0, 0].update(0, 3) =~= seq![3int, 0, 0, 0]);
        self.advance_lane(f, break_coef_simd[1], &mut v1, 0, 2, Ghost(grid), Ghost(1), Ghost(lane0_staggered));
        assert(seq![3int, 0, 0, 0].update(1, 2) =~= seq![3int, 2, 0, 0]);
        self.advance_lane(f, break_coef_simd[2], &mut v2, 0, 1, Ghost(grid), Ghost(2), Ghost(lanes01_staggered));
        assert(seq![3int, 2, 0, 0].update(2, 1) =~= seq![3int, 2, 1, 0]);

        // position p now carries lane 3 - p, which has gone through p stages,
        // so that position p of group 0 is the next stage for it
        let mut vals = reverse_lanes([v0, v1, v2, v3]);
        let lane_coefs = reverse_lanes(break_coef_simd);
        assert(forall|p: int| 0 <= p < 4 ==> #[trigger] lane_coefs@[p] == break_coef_simd@[3 - p]);
        let ghost mut lp = self.prev_input_lanes();
        let ghost mut lo = self.output_lanes();
        let ghost mut c = seq![3int, 2, 1, 0];
        let mut cur = self.get_simd(0);
        let mut g: usize = 1;
        while g < simd_len
            invariant
                self.wf(),
                deterministic(*f),
                grid.f == *f,
                grid.coefs == break_coef_simd@,
                forall|p: int| 0 <= p < 4 ==> #[trigger] lane_coefs@[p] == break_coef_simd@[3 - p],
                grid.num_stages == n == self.stages(),
                self.groups() == old(self).groups(),
                simd_len == n / 4,
                4 <= simd_len,
                4 * simd_len <= n,
                n <= 4 * self.groups(),
                1 <= g <= simd_len,
                progress_ok(c, grid.num_stages),
                c[0] == 4 * (g - 1) + 3,
                c[1] == 4 * (g - 1) + 2,
                c[2] == 4 * (g - 1) + 1,
                c[3] == 4 * (g - 1),
                stages_match(grid, lp, lo, c),
                lanes_carry(grid, vals@, c),
                lp.len() == 4 * self.groups(),
                matches_outside(self.prev_input_lanes(), self.output_lanes(), lp, lo, 4 * (g - 1), 4 * g),
                forall|p: int|
                    #![trigger cur.prev_input@[p]]
                    #![trigger cur.output@[p]]
                    0 <= p < 4 ==> cur.prev_input@[p] == lp[4 * (g - 1) + p] && cur.output@[p] == lo[4 * (g - 1)
                        + p],
            decreases simd_len - g,
        {
            let mut next = self.get_simd(g);
            let ghost base = 4 * (g - 1);
            let ghost lp_g = lp;
            let ghost lo_g = lo;
            let mut t: usize = 0;
            while t < 4
                invariant
                    deterministic(*f),
                    grid.f == *f,
                    grid.coefs == break_coef_simd@,
                    forall|p: int| 0 <= p < 4 ==> #[trigger] lane_coefs@[p] == break_coef_simd@[3 - p],
                    grid.num_stages == n,
                    simd_len == n / 4,
                    4 <= simd_len,
                    4 * simd_len <= n,
                    1 <= g < simd_len,
                    base == 4 * (g - 1),
                    0 <= t <= 4,
                    progress_ok(c, grid.num_stages),
                    c[0] == base + 3 + t,
                    c[1] == base + 2 + t,
                    c[2] == base + 1 + t,
                    c[3] == base + t,
                    stages_match(grid, lp, lo, c),
                    lanes_carry(grid, vals@, c),
                    lp.len() == lo.len(),
                    base + 8 <= lp.len(),
                    window_match(cur, next, lp, lo, base, t as int),
                    lp_g.len() == lo_g.len() == lp.len(),
                    matches_outside(lp, lo, lp_g, lo_g, base, base + 8),
                decreases 4 - t,
            {
                let ghost cur0 = cur;
                let ghost vals0 = vals@;
                cur.compute(f, lane_coefs, &mut vals);
                proof {
                    assert forall|p: int| 0 <= p < 4 implies {
                        &&& #[trigger] cur.output@[p] == stage_out(
                            grid.f,
                            grid.coefs[3 - p],
                            vals0[p],
                            cur0.output@[p],
                            cur0.prev_input@[p],
                        )
                        &&& cur.prev_input@[p] == vals0[p]
                        &&& vals@[p] == cur.output@[p]
                    } by {
                        assert(lane_coefs@[p] == break_coef_simd@[3 - p]);
                    }
                    let r = lemma_group_step(grid, lp, lo, c, base, t as int, cur0, vals0, cur, vals@);
                    lp = r.0;
                    lo = r.1;
                    c = r.2;
                }
                let ghost cur1 = cur;
                let ghost next1 = next;
                concat_rotate(&mut cur.prev_input, &mut next.prev_input);
                concat_rotate(&mut cur.output, &mut next.output);
                proof {
                    lemma_rotated_window(cur1, next1, cur, next, lp, lo, base, t as int);
                }
                t += 1;
            }
            let ghost self_before = self.prev_input_lanes();
            let ghost self_before_o = self.output_lanes();
            self.set_simd(g - 1, next);
            proof {
                assert forall|s: int|
                    #![trigger self.prev_input_lanes()[s]]
                    #![trigger self.output_lanes()[s]]
                    0 <= s < lp.len() && !(4 * g <= s < 4 * g + 4) implies self.prev_input_lanes()[s] == lp[s]
                    && self.output_lanes()[s] == lo[s] by {
                    if base <= s < base + 4 {
                        assert(next.prev_input@[s - base] == lp[base + ring(s - base + 8)]);
                        assert(next.output@[s - base] == lo[base + ring(s - base + 8)]);
                    } else {
                        assert(self.prev_input_lanes()[s] == self_before[s]);
                        assert(self.output_lanes()[s] == self_before_o[s]);
                        assert(lp[s] == lp_g[s]);
                        assert(lo[s] == lo_g[s]);
                    }
                }
                assert forall|p: int|
                    #![trigger cur.prev_input@[p]]
                    #![trigger cur.output@[p]]
                    0 <= p < 4 implies cur.prev_input@[p] == lp[4 * g + p] && cur.output@[p] == lo[4 * g + p] by {
                    assert(cur.prev_input@[p] == lp[base + p + 4]);
                }
            }
            g += 1;
        }
        let ghost self_before = self.prev_input_lanes();
        let ghost self_before_o = self.output_lanes();
        self.set_simd(simd_len - 1, cur);
        let ghost last = 4 * (simd_len - 1);
        proof {
            lemma_last_group_stored(self_before, self_before_o, self.prev_input_lanes(), self.output_lanes(), cur, lp, lo, last);
        }

        // put the lanes back in order and let each finish the stages after
        // the group-wise part, lane 0 first
        let vals = reverse_lanes(vals);
        let non_simd_start = (simd_len - 1) * LANES;
        let mut w0 = vals[0];
        let mut w1 = vals[1];
        let mut w2 = vals[2];
        let mut w3 = vals[3];
        let ghost lst = last;
        let ghost d0: Seq<int> = seq![lst + 3, lst + 2, lst + 1, lst];
        let ghost d1: Seq<int> = seq![ni, lst + 2, lst + 1, lst];
        let ghost d2: Seq<int> = seq![ni, ni, lst + 1, lst];
        let ghost d3: Seq<int> = seq![ni, ni, ni, lst];
        let ghost d4: Seq<int> = seq![ni, ni, ni, ni];
        proof {
            assert(c =~= d0);
            assert(vals@[0] == grid.input(0, (lst + 3) as nat));
        }
        self.advance_lane(f, break_coef_simd[0], &mut w0, non_simd_start + 3, n, Ghost(grid), Ghost(0), Ghost(d0));
        assert(d0.update(0, ni) =~= d1);
        self.advance_lane(f, break_coef_simd[1], &mut w1, non_simd_start + 2, n, Ghost(grid), Ghost(1), Ghost(d1));
        assert(d1.update(1, ni) =~= d2);
        self.advance_lane(f, break_coef_simd[2], &mut w2, non_simd_start + 1, n, Ghost(grid), Ghost(2), Ghost(d2));
        assert(d2.update(2, ni) =~= d3);
        self.advance_lane(f, break_coef_simd[3], &mut w3, non_simd_start, n, Ghost(grid), Ghost(3), Ghost(d3));
        assert(d3.update(3, ni) =~= d4);
        *val_simd = [w0, w1, w2, w3];
        proof {
            lemma_done_is_in_turn(grid, self.prev_input_lanes(), self.output_lanes(), val_simd@);
        }
    }

    /// Number of stages in use.
    pub fn num_stages(&self) -> (n: usize)
        ensures
            n == self.stages(),
    {
        self.num_stages
    }
}

impl<T: Copy> Default for SimdMonoPhaser<T> {
    fn default() -> (p: Self)
        ensures
            p.wf(),
            p.stages() == 0,
            p.groups() == 0,
    {
        Self::new()
    }
}

} // verus!
