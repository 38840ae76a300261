//! Paths for the snake to follow, and the search that finds one to the apple.

use std::collections::HashMap;
use vstd::prelude::*;

use crate::geometry::{
    add_arrays, in_grid, is_step, same_pos, spec_add, sq_dist, squared_distance, Pos,
    SNAKE_DIR_DOWN, SNAKE_DIR_LEFT, SNAKE_DIR_RIGHT, SNAKE_DIR_UP, SNAKE_GRID_SIZE,
};
use crate::greedy::{
    abs, dist_after, greedy, is_move, lemma_greedy_alive, lemma_greedy_dist_upto, lemma_greedy_runs,
    lemma_greedy_fits, lemma_greedy_take, lemma_greedy_walk, lemma_manhattan_zero, lemma_nearer_move,
    lemma_walk_take_alive, manhattan, walk,
};
use crate::snake::{
    advanced, apple_ok, is_dead, off_board, steered, step, still, Snake, SnakeView,
};

verus! {

broadcast use vstd::array::group_array_axioms, vstd::std_specs::hash::group_hash_axioms;

/// A sequence of directions, one per move, and how many of them the snake
/// has taken.
#[derive(Clone, Debug)]
pub struct Path {
    pub steps: Vec<[i32; 2]>,
    pub steps_taken: u32,
}

/// What a `Path` is.
pub struct PathView {
    pub steps: Seq<Pos>,
    pub steps_taken: u32,
}

impl View for Path {
    type V = PathView;

    open spec fn view(&self) -> PathView {
        PathView { steps: self.steps@, steps_taken: self.steps_taken }
    }
}

/// The sum of the first `k` steps.
pub open spec fn travel(steps: Seq<Pos>, k: int) -> (int, int)
    decreases k,
{
    if k <= 0 {
        (0, 0)
    } else {
        let p = travel(steps, k - 1);
        (p.0 + steps[k - 1][0], p.1 + steps[k - 1][1])
    }
}

/// Every cell that a head at `h` passes while taking `steps` fits in `i32`.
pub open spec fn path_fits(h: Pos, steps: Seq<Pos>) -> bool {
    forall|k: int|
        0 < k <= steps.len() ==> i32::MIN <= h[0] + (#[trigger] travel(steps, k)).0 <= i32::MAX
            && i32::MIN <= h[1] + travel(steps, k).1 <= i32::MAX
}

/// The snake `s` can take `steps` one move each: the head's cells fit in
/// `i32` and keys are left for a part per move.
pub open spec fn can_run(s: SnakeView, steps: Seq<Pos>) -> bool {
    &&& path_fits(s.head.0, steps)
    &&& s.body.len() + steps.len() + 1 < u32::MAX
}

/// Taking `steps` one by one (point the head, then move without a path),
/// with the apple going to `apples[k]` whenever move `k` eats it: the snake
/// at the end, and whether it died on the way.
pub open spec fn run(s: SnakeView, steps: Seq<Pos>, apples: Seq<Pos>) -> (SnakeView, bool)
    decreases steps.len(),
{
    if steps.len() == 0 {
        (s, false)
    } else {
        let prev = run(s, steps.drop_last(), apples.drop_last());
        let next = step(steered(prev.0, steps.last()), apples.last());
        (next.0, prev.1 || next.1)
    }
}

/// Each apple of `apples` is a place that the apple can go to at its move.
pub open spec fn apples_fit(s: SnakeView, steps: Seq<Pos>, apples: Seq<Pos>) -> bool
    decreases steps.len(),
{
    if steps.len() == 0 {
        true
    } else {
        apples_fit(s, steps.drop_last(), apples.drop_last()) && apple_ok(
            steered(run(s, steps.drop_last(), apples.drop_last()).0, steps.last()),
            apples.last(),
        )
    }
}

/// Taking `steps` one by one can lead from `s` to `t`; `died` says whether
/// the snake died on the way. The apple goes to a random cell whenever it is
/// eaten, so more than one `t` can be reached.
pub open spec fn runs(s: SnakeView, steps: Seq<Pos>, t: SnakeView, died: bool) -> bool {
    exists|apples: Seq<Pos>|
        apples.len() == steps.len() && apples_fit(s, steps, apples) && #[trigger] run(s, steps, apples) == (
        t,
        died,
    )
}

/// Where the head of `s` is after the snake follows a path by one step.
pub open spec fn followed(s: SnakeView, p: PathView) -> (SnakeView, PathView) {
    (
        if (p.steps.len() as u32) > p.steps_taken {
            steered(s, p.steps[p.steps_taken as int])
        } else {
            s
        },
        PathView { steps_taken: (p.steps_taken + 1) as u32, ..p },
    )
}

/// A move changes the head's cell by its velocity, and the body by at most
/// one part.
pub proof fn lemma_step_shape(s: SnakeView, a: Pos)
    ensures
        step(s, a).0.head.0 == spec_add(s.head.0, s.head.2),
        step(s, a).0.body.len() <= s.body.len() + 1,
        step(s, a).0.body.len() >= s.body.len(),
{
}

/// Taking no step leads nowhere and kills nobody.
pub proof fn lemma_runs_start(s: SnakeView, steps: Seq<Pos>)
    ensures
        runs(s, steps.take(0), s, false),
{
    let none: Seq<Pos> = seq![];
    assert(run(s, steps.take(0), none) == (s, false));
    assert(apples_fit(s, steps.take(0), none));
}

/// Taking one more step extends a run.
pub proof fn lemma_runs_extend(
    s: SnakeView,
    steps: Seq<Pos>,
    i: int,
    m: SnakeView,
    d0: bool,
    a: Pos,
)
    requires
        0 <= i < steps.len(),
        runs(s, steps.take(i), m, d0),
        apple_ok(steered(m, steps[i]), a),
    ensures
        runs(s, steps.take(i + 1), step(steered(m, steps[i]), a).0, d0 || step(steered(m, steps[i]), a).1),
{
    let apples = choose|apples: Seq<Pos>|
        apples.len() == steps.take(i).len() && apples_fit(s, steps.take(i), apples) && #[trigger] run(
            s,
            steps.take(i),
            apples,
        ) == (m, d0);
    let next = steps.take(i + 1);
    let more = apples.push(a);
    assert(next.drop_last() =~= steps.take(i));
    assert(more.drop_last() =~= apples);
    assert(run(s, next, more) == (step(steered(m, steps[i]), a).0, d0 || step(steered(m, steps[i]), a).1));
}

/// Some way of taking `steps` from `s` ends with `died` as its outcome.
pub open spec fn can_end(s: SnakeView, steps: Seq<Pos>, died: bool) -> bool {
    exists|t: SnakeView| runs(s, steps, t, died)
}

/// Left, right, up and down, in this order.
pub open spec fn compass(k: int) -> Pos {
    if k == 0 {
        SNAKE_DIR_LEFT
    } else if k == 1 {
        SNAKE_DIR_RIGHT
    } else if k == 2 {
        SNAKE_DIR_UP
    } else {
        SNAKE_DIR_DOWN
    }
}

/// A slot of `ensure_safety` after trying the first `k` directions of the
/// compass, and whether one of them survived: when the `k`-th direction
/// survives, `outs[k]` being false, the slot takes it.
pub open spec fn retried(v0: Pos, outs: Seq<bool>, k: int) -> (Pos, bool)
    decreases k,
{
    if k <= 0 {
        (v0, false)
    } else {
        let prev = retried(v0, outs, k - 1);
        if !outs[k] {
            (compass(k - 1), true)
        } else {
            prev
        }
    }
}

/// The value of a slot of `ensure_safety` that held `v0`: kept when the
/// first check (`outs[0]`) survives, otherwise the last direction of the
/// compass that survives, or one step right when none does.
pub open spec fn safety_choice(v0: Pos, outs: Seq<bool>) -> Pos {
    if !outs[0] {
        v0
    } else if retried(v0, outs, 4).1 {
        retried(v0, outs, 4).0
    } else {
        [1i32, 0i32]
    }
}

/// `outs` are outcomes that the checks of a slot holding `v0` can have:
/// check 0 plays `fake` and then `v0`; when it dies, check `k` plays `fake`
/// and then the `k`-th direction of the compass.
pub open spec fn safety_outs_ok(s: SnakeView, fake: Seq<Pos>, v0: Pos, outs: Seq<bool>) -> bool {
    &&& outs.len() == 5
    &&& can_end(s, fake.push(v0), outs[0])
    &&& outs[0] ==> forall|k: int| 1 <= k <= 4 ==> can_end(s, fake.push(compass(k - 1)), #[trigger] outs[k])
}

/// When a slot's step dies and some direction survives, `ensure_safety`
/// gives the slot a direction that survives; when none does, one step right.
pub proof fn law_safety_choice_survives(v0: Pos, outs: Seq<bool>)
    requires
        outs.len() == 5,
        outs[0],
    ensures
        (exists|k: int| 1 <= k <= 4 && !#[trigger] outs[k]) ==> exists|k: int|
            1 <= k <= 4 && !outs[k] && #[trigger] compass(k - 1) == safety_choice(v0, outs),
        (forall|k: int| 1 <= k <= 4 ==> #[trigger] outs[k]) ==> safety_choice(v0, outs) == [1i32, 0i32],
{
    reveal_with_fuel(retried, 5);
    if !outs[4] {
        assert(compass(3) == safety_choice(v0, outs));
    } else if !outs[3] {
        assert(compass(2) == safety_choice(v0, outs));
    } else if !outs[2] {
        assert(compass(1) == safety_choice(v0, outs));
    } else if !outs[1] {
        assert(compass(0) == safety_choice(v0, outs));
    } else {
        assert(outs[1] && outs[2] && outs[3] && outs[4]);
    }
}

/// `retried` reads only the first `k + 1` outcomes.
pub proof fn lemma_retried_prefix(v0: Pos, a: Seq<bool>, b: Seq<bool>, k: int)
    requires
        forall|i: int| 1 <= i <= k ==> a[i] == b[i],
    ensures
        retried(v0, a, k) == retried(v0, b, k),
    decreases k,
{
    if k > 0 {
        lemma_retried_prefix(v0, a, b, k - 1);
    }
}

/// Every step of `steps` is a unit direction or the null vector.
pub open spec fn unit_path(steps: Seq<Pos>) -> bool {
    forall|i: int| 0 <= i < steps.len() ==> is_step(#[trigger] steps[i])
}

/// `h` is at least 1000 cells away from the ends of `i32`.
pub open spec fn near_board(h: Pos) -> bool {
    &&& -(i32::MAX - 1000) <= h[0] <= i32::MAX - 1000
    &&& -(i32::MAX - 1000) <= h[1] <= i32::MAX - 1000
}

/// The search from `s` stays within `i32` and keys: the head is far from
/// the ends of `i32`, and the body far from running out of keys.
pub open spec fn search_room(s: SnakeView) -> bool {
    &&& near_board(s.head.0)
    &&& s.body.len() + 2000 < u32::MAX
}

/// Every way of taking `q` from `s` ends in death.
pub open spec fn doomed(s: SnakeView, q: Seq<Pos>) -> bool {
    forall|t: SnakeView, d: bool| #[trigger] runs(s, q, t, d) ==> d
}

/// Every way of taking `q` from `s` ends alive with the head on the apple.
pub open spec fn lands_on_apple(s: SnakeView, q: Seq<Pos>) -> bool {
    forall|t: SnakeView, d: bool| #[trigger] runs(s, q, t, d) ==> !d && t.head.0 == s.apple
}

/// Each move of `q` brings the head one cell nearer to the apple, which is
/// not under the head; `q` has as many moves as the head is away from the
/// apple (so none shorter reaches it); and following `q` always brings the
/// head onto the apple alive.
pub open spec fn greedy_to_apple(s: SnakeView, q: Seq<Pos>) -> bool {
    &&& s.head.0 != s.apple
    &&& greedy(s, q)
    &&& q.len() == manhattan(s.head.0, s.apple)
    &&& lands_on_apple(s, q)
}

/// `p` is a path to the apple for `s`: untaken, and `greedy_to_apple`.
pub open spec fn path_to_apple(s: SnakeView, p: PathView) -> bool {
    &&& p.steps_taken == 0
    &&& greedy_to_apple(s, p.steps)
}

/// Some path of moves towards the apple brings the head onto it alive:
/// the search must find one.
pub open spec fn apple_within_reach(s: SnakeView) -> bool {
    exists|q: Seq<Pos>| #[trigger] greedy_to_apple(s, q)
}

/// `p` is on the board or on the ring of cells around it.
pub open spec fn by_the_board(p: Pos) -> bool {
    -1 <= p[0] <= 30 && -1 <= p[1] <= 30
}

/// `2` to the power `n`: the most candidates the search can hold after `n`
/// rounds of branching.
pub open spec fn doubling(n: nat) -> nat
    decreases n,
{
    if n == 0 {
        1
    } else {
        2 * doubling((n - 1) as nat)
    }
}

/// `doubling` grows with its argument, and is `2^60` at 60.
pub proof fn lemma_doubling(n: nat, m: nat)
    requires
        n <= m,
    ensures
        doubling(n) <= doubling(m),
        doubling(60) == 0x1000_0000_0000_0000,
    decreases m,
{
    reveal_with_fuel(doubling, 61);
    if n < m {
        lemma_doubling(n, (m - 1) as nat);
    }
}

/// A snake of at most one body part, with head and apple on the board and
/// apart: every path of moves towards the apple gets there alive, so the
/// search is bound to find one.
pub open spec fn search_owed(s: SnakeView) -> bool {
    &&& s.body.len() <= 1
    &&& in_grid(s.head.0)
    &&& in_grid(s.apple)
    &&& s.head.0 != s.apple
}

/// A candidate of the search: untaken, of unit steps, between one and
/// `bound` steps long, and either a path of moves towards the apple or one
/// that is sure to kill the snake; flagged only when it is a path to the
/// apple of at most 899 steps.
pub open spec fn candidate_ok(s: SnakeView, e: (PathView, bool), bound: int) -> bool {
    &&& e.0.steps_taken == 0
    &&& unit_path(e.0.steps)
    &&& 1 <= e.0.steps.len() <= bound
    &&& greedy(s, e.0.steps) || doomed(s, e.0.steps)
    &&& e.1 ==> path_to_apple(s, e.0) && e.0.steps.len() <= 899
}

/// A path that is sure to kill the snake still is with one more step.
pub proof fn lemma_doomed_push(s: SnakeView, q: Seq<Pos>, x: Pos)
    requires
        doomed(s, q),
    ensures
        doomed(s, q.push(x)),
{
    let g = q.push(x);
    assert(g.drop_last() =~= q);
    assert forall|t: SnakeView, d: bool| #[trigger] runs(s, g, t, d) implies d by {
        let a = choose|a: Seq<Pos>| a.len() == g.len() && apples_fit(s, g, a) && #[trigger] run(s, g, a) == (t, d);
        let prev = run(s, q, a.drop_last());
        assert(runs(s, q, prev.0, prev.1));
    }
}

/// A path of moves towards the apple that can kill the snake always does.
pub proof fn lemma_greedy_doomed(s: SnakeView, q: Seq<Pos>, t: SnakeView)
    requires
        greedy(s, q),
        path_fits(s.head.0, q),
        s.head.0 != s.apple,
        runs(s, q, t, true),
    ensures
        doomed(s, q),
{
    lemma_greedy_runs(s, q);
}

/// A path of moves towards the apple stays one with a further move that
/// brings its end `e` nearer to the apple.
pub proof fn lemma_greedy_push(s: SnakeView, q: Seq<Pos>, o: Pos, e: Pos)
    requires
        greedy(s, q),
        is_move(o),
        e[0] == s.head.0[0] + travel(q, q.len() as int).0,
        e[1] == s.head.0[1] + travel(q, q.len() as int).1,
        neighbours_fit(e),
        nearer(s.apple, e, spec_add(e, o)),
    ensures
        greedy(s, q.push(o)),
{
    let g = q.push(o);
    let n = q.len() as int;
    assert forall|k: int| 0 <= k < g.len() implies is_move(#[trigger] g[k]) && dist_after(s, g, k + 1)
        == dist_after(s, g, k) - 1 by {
        if k < n {
            lemma_travel_prefix(q, g, k);
            lemma_travel_prefix(q, g, k + 1);
            assert(is_move(q[k]) && dist_after(s, q, k + 1) == dist_after(s, q, k) - 1);
        } else {
            lemma_travel_prefix(q, g, n);
            lemma_nearer_move(s.apple, e, o);
            assert(travel(g, n + 1) == (travel(g, n).0 + o[0], travel(g, n).1 + o[1]));
        }
    }
}

/// The options of `check_outcomes_from` that are not null are moves that
/// bring the head nearer to the apple, and away from the apple the first
/// option is one.
pub proof fn lemma_outcome_moves(s: SnakeView)
    requires
        neighbours_fit(s.head.0),
    ensures
        forall|k: int|
            0 <= k < 2 && outcomes(s)[k] != still() ==> is_move(#[trigger] outcomes(s)[k]) && nearer(
                s.apple,
                s.head.0,
                spec_add(s.head.0, outcomes(s)[k]),
            ),
        s.head.0 != s.apple ==> outcomes(s)[0] != still(),
{
    law_outcomes_bring_closer(s);
    lemma_nearer_axes(s.apple, s.head.0);
    let d = closer_dirs(s);
    assert forall|i: int| 0 <= i < d.len() implies is_move(#[trigger] d[i]) by {
    }
    if s.head.0 != s.apple {
        if s.head.0[0] == s.apple[0] && s.head.0[1] == s.apple[1] {
            assert(s.head.0 =~= s.apple);
        }
        assert(d.len() > 0);
    }
}

/// Every move that brings the head nearer to the apple is one of the two
/// options of `check_outcomes_from`.
pub proof fn lemma_outcomes_cover(s: SnakeView, o: Pos)
    requires
        neighbours_fit(s.head.0),
        is_move(o),
        nearer(s.apple, s.head.0, spec_add(s.head.0, o)),
    ensures
        o == outcomes(s)[0] || o == outcomes(s)[1],
{
    let h = s.head.0;
    lemma_nearer_axes(s.apple, h);
    let l = nearer(s.apple, h, spec_add(h, SNAKE_DIR_LEFT));
    let r = nearer(s.apple, h, spec_add(h, SNAKE_DIR_RIGHT));
    let u = nearer(s.apple, h, spec_add(h, SNAKE_DIR_UP));
    let d = nearer(s.apple, h, spec_add(h, SNAKE_DIR_DOWN));
    let xs: Seq<Pos> = if l { seq![SNAKE_DIR_LEFT] } else if r { seq![SNAKE_DIR_RIGHT] } else { seq![] };
    let ys: Seq<Pos> = if u { seq![SNAKE_DIR_UP] } else if d { seq![SNAKE_DIR_DOWN] } else { seq![] };
    assert(closer_dirs(s) =~= xs + ys);
    if o == SNAKE_DIR_LEFT || o == SNAKE_DIR_RIGHT {
        assert((xs + ys)[0] == o);
    } else if xs.len() == 0 {
        assert((xs + ys)[0] == o);
    } else {
        assert((xs + ys)[1] == o);
    }
}

/// Along a path of moves towards the apple that ends alive, each first part
/// is such a path that leaves the snake alive, and its next move brings the
/// head, where that part leaves it, nearer to the apple.
pub proof fn lemma_home_prefix(s: SnakeView, w: Seq<Pos>, k: int)
    requires
        greedy(s, w),
        !walk(s, w).1,
        s.head.0 != s.apple,
        near_board(s.head.0),
        w.len() <= 1000,
        0 <= k <= w.len(),
    ensures
        greedy(s, w.take(k)),
        !walk(s, w.take(k)).1,
        k < w.len() ==> w.take(k + 1) == w.take(k).push(w[k]) && is_move(w[k]) && neighbours_fit(
            walk(s, w.take(k)).0.head.0,
        ) && nearer(s.apple, walk(s, w.take(k)).0.head.0, spec_add(walk(s, w.take(k)).0.head.0, w[k])),
{
    lemma_greedy_take(s, w, k);
    lemma_walk_take_alive(s, w, k);
    if k < w.len() {
        let p = w.take(k);
        assert(w.take(k + 1) =~= p.push(w[k]));
        lemma_greedy_fits(s, p);
        lemma_greedy_walk(s, p, Seq::new(p.len(), |i: int| s.apple));
        lemma_travel_prefix(p, w, k);
        lemma_travel_prefix(w.take(k + 1), w, k + 1);
        assert(is_move(w[k]));
        assert(unit_path(w)) by {
            assert forall|i: int| 0 <= i < w.len() implies is_step(#[trigger] w[i]) by {
                assert(is_move(w[i]));
            }
        }
        lemma_unit_travel(w, k);
        lemma_unit_travel(w, k + 1);
        lemma_greedy_fits(s, w);
        let e = walk(s, p).0.head.0;
        assert(dist_after(s, w, k + 1) == dist_after(s, w, k) - 1);
        assert(travel(w, k + 1) == (travel(w, k).0 + w[k][0], travel(w, k).1 + w[k][1]));
        lemma_nearer_move(s.apple, e, w[k]);
    }
}

/// A head away from the board and the ring around it dies on any first
/// move, so no path gets it to the apple, and none is owed.
pub proof fn lemma_far_head(s: SnakeView)
    requires
        !by_the_board(s.head.0),
    ensures
        !apple_within_reach(s),
        !search_owed(s),
{
    if apple_within_reach(s) {
        let w = choose|q: Seq<Pos>| #[trigger] greedy_to_apple(s, q);
        lemma_manhattan_zero(s.head.0, s.apple);
        assert(!walk(s, w).1) by {
            lemma_greedy_fits(s, w);
            lemma_greedy_runs(s, w);
        }
        lemma_walk_take_alive(s, w, 1);
        lemma_first_move_alive(s, w.take(1));
        assert(w.take(1)[0] == w[0]);
        assert(is_move(w[0]));
    }
}

/// A first move that leaves the snake alive lands on the board.
proof fn lemma_first_move_alive(s: SnakeView, p: Seq<Pos>)
    requires
        p.len() == 1,
        !walk(s, p).1,
    ensures
        !off_board(spec_add(s.head.0, p[0])),
{
    assert(p.drop_last() =~= Seq::<Pos>::empty());
    assert(walk(s, p.drop_last()) == (s, false));
}

/// A path of moves towards the apple that lands on it alive ends on the
/// board, so the apple lies on the board.
pub proof fn lemma_apple_on_board(s: SnakeView, w: Seq<Pos>)
    requires
        greedy_to_apple(s, w),
    ensures
        in_grid(s.apple),
{
    lemma_manhattan_zero(s.head.0, s.apple);
    lemma_greedy_fits(s, w);
    lemma_greedy_runs(s, w);
    let t = walk(s, w);
    assert(!t.1 && t.0.head.0 == s.apple);
    let prev = walk(s, w.drop_last());
    let m = advanced(steered(prev.0, w.last()));
    assert(!is_dead(m));
    assert(t.0.head.0 == m.head.0);
}

/// Some candidate with an id in `lo..hi` has the steps `q`.
spec fn held(paths: Map<u64, (Path, bool)>, lo: int, hi: int, q: Seq<Pos>) -> bool {
    exists|j: u64| lo <= j < hi && (#[trigger] paths[j]).0@.steps == q
}

/// Some path in `changes` from index `lo` on has the steps `q`.
spec fn pending(changes: Seq<Path>, lo: int, q: Seq<Pos>) -> bool {
    exists|c: int| lo <= c < changes.len() && (#[trigger] changes[c])@.steps == q
}

/// `w` is a path of moves towards the apple, of 1 to 60 moves, that gets
/// the head of `s` onto it alive.
spec fn home(s: SnakeView, w: Seq<Pos>) -> bool {
    &&& greedy(s, w)
    &&& !walk(s, w).1
    &&& s.head.0 != s.apple
    &&& near_board(s.head.0)
    &&& w.len() == manhattan(s.head.0, s.apple)
    &&& 1 <= w.len() <= 60
}

/// A candidate of one move towards the apple: a path of moves towards it,
/// which the search can play, whose outcome is fixed; it leaves the snake
/// alive when the search is owed, and when it is the first move of `w`.
proof fn lemma_seed(s: SnakeView, o: Pos, w: Seq<Pos>)
    requires
        search_room(s),
        is_move(o),
        nearer(s.apple, s.head.0, spec_add(s.head.0, o)),
        s.head.0 != s.apple,
    ensures
        greedy(s, seq![o]),
        unit_path(seq![o]),
        can_run(s, seq![o]),
        forall|t: SnakeView, d: bool| #[trigger] runs(s, seq![o], t, d) ==> d == walk(s, seq![o]).1,
        search_owed(s) ==> !walk(s, seq![o]).1,
        home(s, w) && o == w[0] ==> seq![o] == w.take(1) && !walk(s, seq![o]).1,
{
    let g = seq![o];
    let none: Seq<Pos> = seq![];
    assert(g =~= none.push(o));
    assert(travel(none, 0) == (0int, 0int));
    lemma_greedy_push(s, none, o, s.head.0);
    assert(unit_path(g));
    lemma_unit_can_run(s, g);
    lemma_greedy_runs(s, g);
    if search_owed(s) {
        lemma_greedy_alive(s, g);
    }
    if home(s, w) && o == w[0] {
        lemma_home_prefix(s, w, 1);
        assert(g =~= w.take(1));
    }
}

/// Unit steps move the head by at most one cell each.
pub proof fn lemma_unit_travel(steps: Seq<Pos>, k: int)
    requires
        0 <= k <= steps.len(),
        unit_path(steps),
    ensures
        -k <= travel(steps, k).0 <= k,
        -k <= travel(steps, k).1 <= k,
    decreases k,
{
    if k > 0 {
        lemma_unit_travel(steps, k - 1);
        assert(is_step(steps[k - 1]));
    }
}

/// A snake far from the ends of `i32` and of the keys can take up to 1000
/// unit steps.
pub proof fn lemma_unit_can_run(s: SnakeView, steps: Seq<Pos>)
    requires
        unit_path(steps),
        steps.len() <= 1000,
        near_board(s.head.0),
        s.body.len() + 2000 < u32::MAX,
    ensures
        can_run(s, steps),
{
    assert forall|k: int| 0 < k <= steps.len() implies i32::MIN <= s.head.0[0] + (#[trigger] travel(steps, k)).0 <= i32::MAX
        && i32::MIN <= s.head.0[1] + travel(steps, k).1 <= i32::MAX by {
        lemma_unit_travel(steps, k);
    }
}

/// `travel` over the first `k` steps reads only those steps.
pub proof fn lemma_travel_prefix(a: Seq<Pos>, b: Seq<Pos>, k: int)
    requires
        0 <= k <= a.len(),
        k <= b.len(),
        forall|i: int| 0 <= i < k ==> a[i] == b[i],
    ensures
        travel(a, k) == travel(b, k),
    decreases k,
{
    if k > 0 {
        lemma_travel_prefix(a, b, k - 1);
    }
}

/// Where a run leaves the head: its start moved by all the steps.
pub proof fn lemma_run_head(s: SnakeView, steps: Seq<Pos>, apples: Seq<Pos>)
    requires
        path_fits(s.head.0, steps),
    ensures
        run(s, steps, apples).0.head.0[0] == s.head.0[0] + travel(steps, steps.len() as int).0,
        run(s, steps, apples).0.head.0[1] == s.head.0[1] + travel(steps, steps.len() as int).1,
    decreases steps.len(),
{
    if steps.len() > 0 {
        let prev = steps.drop_last();
        assert forall|k: int| 0 < k <= prev.len() implies i32::MIN <= s.head.0[0] + (#[trigger] travel(prev, k)).0 <= i32::MAX
            && i32::MIN <= s.head.0[1] + travel(prev, k).1 <= i32::MAX by {
            lemma_travel_prefix(prev, steps, k);
            assert(travel(steps, k) == travel(prev, k));
        }
        lemma_run_head(s, prev, apples.drop_last());
        lemma_travel_prefix(prev, steps, prev.len() as int);
        let m = run(s, prev, apples.drop_last()).0;
        lemma_step_shape(steered(m, steps.last()), apples.last());
    }
}

/// The directions that bring the head closer are unit directions.
pub proof fn lemma_outcomes_are_steps(s: SnakeView)
    ensures
        is_step(outcomes(s)[0]),
        is_step(outcomes(s)[1]),
{
    let d = closer_dirs(s);
    assert forall|i: int| 0 <= i < d.len() implies is_step(#[trigger] d[i]) by {
    }
    assert(is_step(still()));
}

/// What `ensure_safety` puts in a slot that held a unit step is a unit step.
pub proof fn lemma_safety_choice_is_step(v0: Pos, outs: Seq<bool>)
    requires
        is_step(v0),
    ensures
        is_step(safety_choice(v0, outs)),
{
    assert forall|k: int| 0 <= k <= 4 implies is_step(#[trigger] retried(v0, outs, k).0) by {
        lemma_retried_is_step(v0, outs, k);
    }
}

/// Retries keep a slot a unit step.
pub proof fn lemma_retried_is_step(v0: Pos, outs: Seq<bool>, k: int)
    requires
        is_step(v0),
    ensures
        is_step(retried(v0, outs, k).0),
    decreases k,
{
    if k > 0 {
        lemma_retried_is_step(v0, outs, k - 1);
    }
}

/// The head gets closer to `apple` by going from `a` to `b`.
pub open spec fn nearer(apple: Pos, a: Pos, b: Pos) -> bool {
    sq_dist(b, apple) < sq_dist(a, apple)
}

/// The directions, in the order left, right, up, down, that bring the head
/// of `s` closer to the apple.
pub open spec fn closer_dirs(s: SnakeView) -> Seq<Pos> {
    let h = s.head.0;
    (if nearer(s.apple, h, spec_add(h, SNAKE_DIR_LEFT)) { seq![SNAKE_DIR_LEFT] } else { seq![] })
        + (if nearer(s.apple, h, spec_add(h, SNAKE_DIR_RIGHT)) { seq![SNAKE_DIR_RIGHT] } else { seq![] })
        + (if nearer(s.apple, h, spec_add(h, SNAKE_DIR_UP)) { seq![SNAKE_DIR_UP] } else { seq![] })
        + (if nearer(s.apple, h, spec_add(h, SNAKE_DIR_DOWN)) { seq![SNAKE_DIR_DOWN] } else { seq![] })
}

/// The first two of `closer_dirs(s)`, the null vector where there are fewer.
pub open spec fn outcomes(s: SnakeView) -> [[i32; 2]; 2] {
    let d = closer_dirs(s);
    [if d.len() > 0 { d[0] } else { still() }, if d.len() > 1 { d[1] } else { still() }]
}

/// The head's four neighbours fit in `i32`.
pub open spec fn neighbours_fit(h: Pos) -> bool {
    i32::MIN < h[0] < i32::MAX && i32::MIN < h[1] < i32::MAX
}

/// Going left brings `h` closer to `apple` exactly when the apple lies to
/// the left; likewise for the other directions.
pub proof fn lemma_nearer_axes(apple: Pos, h: Pos)
    requires
        neighbours_fit(h),
    ensures
        nearer(apple, h, spec_add(h, SNAKE_DIR_LEFT)) <==> apple[0] < h[0],
        nearer(apple, h, spec_add(h, SNAKE_DIR_RIGHT)) <==> apple[0] > h[0],
        nearer(apple, h, spec_add(h, SNAKE_DIR_UP)) <==> apple[1] < h[1],
        nearer(apple, h, spec_add(h, SNAKE_DIR_DOWN)) <==> apple[1] > h[1],
{
    let dx = h[0] - apple[0];
    let dy = h[1] - apple[1];
    assert((dx - 1) * (dx - 1) < dx * dx <==> dx > 0) by (nonlinear_arith);
    assert((dx + 1) * (dx + 1) < dx * dx <==> dx < 0) by (nonlinear_arith);
    assert((dy - 1) * (dy - 1) < dy * dy <==> dy > 0) by (nonlinear_arith);
    assert((dy + 1) * (dy + 1) < dy * dy <==> dy < 0) by (nonlinear_arith);
}

impl Path {
    /// A path of the given steps, none of them taken yet.
    pub fn new(path: Vec<[i32; 2]>) -> (r: Self)
        ensures
            r@ == (PathView { steps: path@, steps_taken: 0 }),
    {
        Path { steps: path, steps_taken: 0 }
    }

    /// How many steps the snake has taken along the path.
    pub fn steps_taken(&self) -> (n: u32)
        ensures
            n == self@.steps_taken,
    {
        self.steps_taken
    }

    /// A path in the same state.
    pub fn duplicate(&self) -> (r: Self)
        ensures
            r@ == self@,
    {
        let mut steps: Vec<[i32; 2]> = Vec::new();
        let mut i: usize = 0;
        while i < self.steps.len()
            invariant
                i <= self.steps@.len(),
                steps@ == self.steps@.subrange(0, i as int),
            decreases self.steps@.len() - i,
        {
            steps.push(self.steps[i]);
            i = i + 1;
        }
        assert(steps@ =~= self.steps@);
        Path { steps, steps_taken: self.steps_taken }
    }

    /// Turns the steps around: the last comes first.
    pub fn reverse(&mut self)
        ensures
            final(self)@ == (PathView { steps: old(self)@.steps.reverse(), ..old(self)@ }),
    {
        let mut steps_bucket: Vec<[i32; 2]> = Vec::new();
        let n = self.steps.len();
        let mut i: usize = n;
        while i > 0
            invariant
                i <= n,
                n == self.steps@.len(),
                steps_bucket@.len() == n - i,
                forall|j: int| 0 <= j < n - i ==> steps_bucket@[j] == self.steps@[n - 1 - j],
            decreases i,
        {
            i = i - 1;
            steps_bucket.push(self.steps[i]);
        }
        assert(steps_bucket@ =~= self.steps@.reverse());
        self.steps = steps_bucket;
    }

    /// Plays the path on a copy of `snake`, as the game would, and tells
    /// whether the snake died on the way.
    fn simulate_path(&self, snake: &Snake) -> (died: bool)
        requires
            snake.wf(),
            can_run(snake@, self@.steps),
        ensures
            exists|t: SnakeView| runs(snake@, self@.steps, t, died),
    {
        let mut result = false;
        let mut simulated_snake = snake.duplicate();
        let ghost s0 = snake@;
        let ghost steps = self.steps@;
        let mut i: usize = 0;
        proof {
            lemma_runs_start(s0, steps);
        }
        while i < self.steps.len()
            invariant
                steps == self.steps@,
                i <= steps.len(),
                simulated_snake.wf(),
                can_run(s0, steps),
                runs(s0, steps.take(i as int), simulated_snake@, result),
                simulated_snake@.head.0[0] == s0.head.0[0] + travel(steps, i as int).0,
                simulated_snake@.head.0[1] == s0.head.0[1] + travel(steps, i as int).1,
                simulated_snake@.body.len() <= s0.body.len() + i,
            decreases steps.len() - i,
        {
            let ghost m = simulated_snake@;
            let ghost d0 = result;
            simulated_snake.change_head_direction(&self.steps[i]);
            assert(travel(steps, i + 1) == (travel(steps, i as int).0 + steps[i as int][0], travel(steps, i as int).1 + steps[i as int][1]));
            simulated_snake.move_without_path(&mut result);
            proof {
                let a = choose|a: Pos|
                    apple_ok(steered(m, steps[i as int]), a) && simulated_snake@ == step(steered(m, steps[i as int]), a).0
                        && result == (d0 || step(steered(m, steps[i as int]), a).1);
                lemma_runs_extend(s0, steps, i as int, m, d0, a);
                lemma_step_shape(steered(m, steps[i as int]), a);
            }
            i = i + 1;
        }
        assert(steps.take(steps.len() as int) =~= steps);
        result
    }

    /// Makes sure no option kills the snake: after this path played in
    /// reverse, a slot whose step dies becomes a direction (left, right, up,
    /// down; the last of them that survives) whose step survives, and one
    /// step right when none does.
    fn ensure_safety(&self, snake: &Snake, result: &mut [[i32; 2]; 2])
        requires
            snake.wf(),
            forall|v: Pos| is_step(v) ==> can_run(snake@, self@.steps.reverse().push(v)),
            is_step(old(result)[0]),
            is_step(old(result)[1]),
        ensures
            exists|outs: Seq<bool>|
                safety_outs_ok(snake@, self@.steps.reverse(), old(result)[0], outs)
                    && final(result)[0] == safety_choice(old(result)[0], outs),
            exists|outs: Seq<bool>|
                safety_outs_ok(snake@, self@.steps.reverse(), old(result)[1], outs)
                    && final(result)[1] == safety_choice(old(result)[1], outs),
    {
        let ghost r0 = *result;
        let ghost fake = self@.steps.reverse();
        let fake_path = {
            let mut fp = self.duplicate();
            fp.reverse();
            fp
        };
        let ghost mut witnesses: Seq<Seq<bool>> = seq![];
        let mut slot: usize = 0;
        while slot < 2
            invariant
                slot <= 2,
                snake.wf(),
                fake_path@.steps == fake,
                forall|v: Pos| is_step(v) ==> can_run(snake@, fake.push(v)),
                is_step(r0[0]),
                is_step(r0[1]),
                forall|j: int| slot <= j < 2 ==> result[j] == r0[j],
                witnesses.len() == slot,
                forall|j: int|
                    0 <= j < slot ==> safety_outs_ok(snake@, fake, r0[j], #[trigger] witnesses[j])
                        && result[j] == safety_choice(r0[j], witnesses[j]),
            decreases 2 - slot,
        {
            let v0 = result[slot];
            let fakepath_addition = {
                let mut e = fake_path.duplicate();
                e.steps.push(v0);
                e
            };
            let died0 = fakepath_addition.simulate_path(snake);
            let ghost mut outs: Seq<bool> = seq![died0];
            if died0 {
                let directions = [SNAKE_DIR_LEFT, SNAKE_DIR_RIGHT, SNAKE_DIR_UP, SNAKE_DIR_DOWN];
                let mut any_done = false;
                let mut u: usize = 0;
                while u < 4
                    invariant
                        slot < 2,
                        u <= 4,
                        snake.wf(),
                        fake_path@.steps == fake,
                        forall|v: Pos| is_step(v) ==> can_run(snake@, fake.push(v)),
                        directions@ == seq![SNAKE_DIR_LEFT, SNAKE_DIR_RIGHT, SNAKE_DIR_UP, SNAKE_DIR_DOWN],
                        v0 == r0[slot as int],
                        is_step(v0),
                        outs.len() == u + 1,
                        outs[0],
                        can_end(snake@, fake.push(v0), outs[0]),
                        forall|k: int| 1 <= k <= u ==> can_end(snake@, fake.push(compass(k - 1)), #[trigger] outs[k]),
                        (result[slot as int], any_done) == retried(v0, outs, u as int),
                        forall|j: int| slot < j < 2 ==> result[j] == r0[j],
                        witnesses.len() == slot,
                        forall|j: int|
                            0 <= j < slot ==> safety_outs_ok(snake@, fake, r0[j], #[trigger] witnesses[j])
                                && result[j] == safety_choice(r0[j], witnesses[j]),
                    decreases 4 - u,
                {
                    let dir = directions[u];
                    assert(dir == compass(u as int) && is_step(dir));
                    let fake_path_check = {
                        let mut e = fake_path.duplicate();
                        e.steps.push(dir);
                        e
                    };
                    let d = fake_path_check.simulate_path(snake);
                    let ghost outs_before = outs;
                    proof {
                        outs = outs.push(d);
                        lemma_retried_prefix(v0, outs_before, outs, u as int);
                    }
                    if !d {
                        any_done = true;
                        result[slot] = dir;
                    }
                    u = u + 1;
                }
                if !any_done {
                    result[slot] = [1, 0];
                }
            } else {
                proof {
                    outs = outs + seq![false, false, false, false];
                }
            }
            proof {
                assert(safety_outs_ok(snake@, fake, r0[slot as int], outs));
                assert(result[slot as int] == safety_choice(r0[slot as int], outs));
                witnesses = witnesses.push(outs);
            }
            slot = slot + 1;
        }
        assert(safety_outs_ok(snake@, fake, r0[0], witnesses[0]));
        assert(safety_outs_ok(snake@, fake, r0[1], witnesses[1]));
    }

    /// Takes one candidate of the search a step further. The candidate is
    /// played; where that leaves the snake alive, its options are the moves
    /// from there that bring the head closer to the apple, otherwise they
    /// are what `ensure_safety` makes of two null moves after the
    /// candidate. A second option, unless null, branches off a copy of the
    /// candidate taking it; the first, unless null, is added to the
    /// candidate. The flag tells whether the candidate, played as it stood,
    /// brought the head onto the apple alive.
    #[verifier::rlimit(80)]
    fn explore(snake: &Snake, cur: &mut Path) -> (r: (bool, Option<Path>))
        requires
            snake.wf(),
            search_room(snake@),
            snake@.head.0 != snake@.apple,
            old(cur)@.steps_taken == 0,
            unit_path(old(cur)@.steps),
            1 <= old(cur)@.steps.len() <= 899,
            greedy(snake@, old(cur)@.steps) || doomed(snake@, old(cur)@.steps),
        ensures
            final(cur)@.steps_taken == 0,
            unit_path(final(cur)@.steps),
            old(cur)@.steps.len() <= final(cur)@.steps.len() <= old(cur)@.steps.len() + 1,
            greedy(snake@, final(cur)@.steps) || doomed(snake@, final(cur)@.steps),
            r.1 matches Some(b) ==> b@.steps_taken == 0 && unit_path(b@.steps) && b@.steps.len()
                == old(cur)@.steps.len() + 1 && (greedy(snake@, b@.steps) || doomed(snake@, b@.steps)),
            r.0 ==> final(cur)@ == old(cur)@ && path_to_apple(snake@, old(cur)@),
            greedy(snake@, old(cur)@.steps) && !walk(snake@, old(cur)@.steps).1 ==> (r.0 <==> old(cur)@.steps.len()
                == manhattan(snake@.head.0, snake@.apple)),
            greedy(snake@, old(cur)@.steps) && !walk(snake@, old(cur)@.steps).1 && old(cur)@.steps.len() < manhattan(
                snake@.head.0,
                snake@.apple,
            ) ==> forall|o: Pos|
                is_move(o) && nearer(
                    snake@.apple,
                    walk(snake@, old(cur)@.steps).0.head.0,
                    spec_add(walk(snake@, old(cur)@.steps).0.head.0, o),
                ) ==> #[trigger] old(cur)@.steps.push(o) == final(cur)@.steps || (r.1 matches Some(b) && b@.steps
                    == old(cur)@.steps.push(o)),
            search_owed(snake@) && greedy(snake@, old(cur)@.steps) ==> (r.0 <==> old(cur)@.steps.len()
                == manhattan(snake@.head.0, snake@.apple)),
            search_owed(snake@) && greedy(snake@, old(cur)@.steps) && !r.0 ==> greedy(
                snake@,
                final(cur)@.steps,
            ) && final(cur)@.steps.len() == old(cur)@.steps.len() + 1,
    {
        let ghost s = snake@;
        let ghost q = cur@.steps;
        let ghost n = q.len() as int;
        let mut reversed_self = cur.duplicate();
        reversed_self.reverse();
        proof {
            lemma_unit_can_run(s, q);
            assert(q.reverse().reverse() =~= q);
            assert forall|v: Pos| is_step(v) implies can_run(s, #[trigger] reversed_self@.steps.reverse().push(v)) by {
                assert(unit_path(q.push(v)));
                lemma_unit_can_run(s, q.push(v));
            }
            lemma_unit_travel(q, n);
            if greedy(s, q) {
                lemma_greedy_runs(s, q);
                if search_owed(s) {
                    lemma_greedy_alive(s, q);
                }
            }
        }
        let ghost e: Pos = [(s.head.0[0] + travel(q, n).0) as i32, (s.head.0[1] + travel(q, n).1) as i32];
        let movement_options;
        let possible = snake.add_path(cur);
        match possible {
            Some(sim) => {
                proof {
                    assert(greedy(s, q));
                    lemma_greedy_runs(s, q);
                    lemma_greedy_walk(s, q, Seq::new(q.len(), |i: int| s.apple));
                    assert(sim@.head.0 =~= e);
                    lemma_outcome_moves(sim@);
                    lemma_outcomes_are_steps(sim@);
                    law_outcomes_bring_closer(sim@);
                    lemma_greedy_dist_upto(s, q, n);
                    lemma_manhattan_zero(sim@.head.0, s.apple);
                }
                movement_options = cur.check_outcomes_from(&sim);
                proof {
                    assert forall|o: Pos|
                        is_move(o) && nearer(s.apple, sim@.head.0, spec_add(sim@.head.0, o)) implies o
                            == movement_options[0] || o == movement_options[1] by {
                        lemma_outcomes_cover(sim@, o);
                    }
                    assert forall|k: int| 0 <= k < 2 && movement_options[k] != still() implies greedy(
                        s,
                        #[trigger] q.push(movement_options[k]),
                    ) by {
                        lemma_greedy_push(s, q, movement_options[k], e);
                    }
                }
            },
            None => {
                let mut result = [[0, 0], [0, 0]];
                assert(is_step(result[0]) && is_step(result[1]));
                reversed_self.ensure_safety(snake, &mut result);
                proof {
                    let t = choose|t: SnakeView| runs(s, q, t, true);
                    if greedy(s, q) {
                        lemma_greedy_doomed(s, q, t);
                    }
                    assert(doomed(s, q));
                    let o0 = choose|outs: Seq<bool>|
                        safety_outs_ok(s, q, [0i32, 0i32], outs) && result[0] == safety_choice([0i32, 0i32], outs);
                    let o1 = choose|outs: Seq<bool>|
                        safety_outs_ok(s, q, [0i32, 0i32], outs) && result[1] == safety_choice([0i32, 0i32], outs);
                    lemma_safety_choice_is_step([0i32, 0i32], o0);
                    lemma_safety_choice_is_step([0i32, 0i32], o1);
                    lemma_doomed_push(s, q, result[0]);
                    lemma_doomed_push(s, q, result[1]);
                }
                movement_options = result;
            },
        }
        let zero = [0, 0];
        let mut branch: Option<Path> = None;
        if !same_pos(&movement_options[1], &zero) {
            let mut b = cur.duplicate();
            b.steps.push(movement_options[1]);
            proof {
                assert(unit_path(b@.steps));
            }
            branch = Some(b);
        }
        if !same_pos(&movement_options[0], &zero) {
            cur.steps.push(movement_options[0]);
        }
        proof {
            assert(unit_path(cur@.steps));
        }
        let finished = reversed_self.path_finished(snake);
        proof {
            if finished {
                let (t, d) = choose|t: SnakeView, d: bool| runs(s, q, t, d) && finished == (!d && t.head.0 == s.apple);
                assert(greedy(s, q));
                lemma_greedy_runs(s, q);
                lemma_greedy_walk(s, q, Seq::new(q.len(), |i: int| s.apple));
                lemma_greedy_dist_upto(s, q, n);
                lemma_manhattan_zero(t.head.0, s.apple);
            }
        }
        (finished, branch)
    }

    /// The first candidates of the search: each option of `first`, the moves
    /// from the head towards the apple, that is not null and does not kill
    /// the snake, keyed from 0 and not yet flagged.
    fn seed_candidates(snake: &Snake, first: [[i32; 2]; 2], Ghost(w): Ghost<Seq<Pos>>) -> (r: (
        HashMap<u64, (Path, bool)>,
        u64,
    ))
        requires
            snake.wf(),
            search_room(snake@),
            first == outcomes(snake@),
            home(snake@, w) ==> w[0] == first[0] || w[0] == first[1],
        ensures
            r.1 <= 2,
            r.1 > 0 ==> snake@.head.0 != snake@.apple,
            forall|id: u64| #[trigger] r.0@.contains_key(id) <==> id < r.1,
            forall|id: u64| id < r.1 ==> candidate_ok(snake@, (r.0@[id].0@, r.0@[id].1), 1) && !r.0@[id].1,
            search_owed(snake@) ==> r.1 >= 1 && greedy(snake@, r.0@[0u64].0@.steps) && r.0@[0u64].0@.steps.len() == 1,
            home(snake@, w) ==> held(r.0@, 0, r.1 as int, w.take(1)),
    {
        let ghost s0 = snake@;
        let ghost owed = search_owed(s0);
        let ghost within = home(s0, w);
        let mut paths: HashMap<u64, (Path, bool)> = HashMap::new();
        let mut on_id: u64 = 0;
        let zero = [0, 0];
        assert(zero =~= still());
        let mut k: usize = 0;
        while k < 2
            invariant
                k <= 2,
                zero == still(),
                on_id <= k,
                snake.wf(),
                snake@ == s0,
                search_room(s0),
                first == outcomes(s0),
                owed == search_owed(s0),
                on_id > 0 ==> s0.head.0 != s0.apple,
                forall|id: u64| #[trigger] paths@.contains_key(id) <==> id < on_id,
                forall|id: u64|
                    id < on_id ==> candidate_ok(s0, (paths@[id].0@, paths@[id].1), 1) && !paths@[id].1,
                owed && k >= 1 ==> on_id >= 1 && greedy(s0, paths@[0u64].0@.steps) && paths@[0u64].0@.steps.len() == 1,
                within == home(s0, w),
                within ==> w[0] == first[0] || w[0] == first[1],
                within ==> held(paths@, 0, on_id as int, w.take(1)) || ((k == 0 || first[0] != w[0]) && (k <= 1
                    || first[1] != w[0])),
            decreases 2 - k,
        {
            proof {
                lemma_outcome_moves(s0);
                law_outcomes_bring_closer(s0);
            }
            if !same_pos(&first[k], &zero) {
                let possible_path = Path::new(vec![first[k]]);
                proof {
                    assert(possible_path@.steps =~= seq![first[k as int]]);
                    assert(is_move(first[k as int]));
                    lemma_seed(s0, first[k as int], w);
                }
                let ghost before = paths@;
                let died = possible_path.simulate_path(snake);
                proof {
                    assert(candidate_ok(s0, (possible_path@, false), 1));
                    assert(owed ==> !died);
                    assert(within && first[k as int] == w[0] ==> !died && possible_path@.steps == w.take(1));
                }
                if !died {
                    paths.insert(on_id, (possible_path, false));
                    proof {
                        assert(paths@ == before.insert(on_id, (possible_path, false)));
                        assert forall|id: u64| id < on_id + 1 implies candidate_ok(s0, (paths@[id].0@, paths@[id].1), 1)
                            && !paths@[id].1 by {
                            if id < on_id {
                                assert(paths@[id] == before[id]);
                            }
                        }
                        if within && held(before, 0, on_id as int, w.take(1)) {
                            let j = choose|j: u64| 0 <= j < on_id && (#[trigger] before[j]).0@.steps == w.take(1);
                            assert(paths@[j] == before[j]);
                        }
                        if within && first[k as int] == w[0] {
                            assert(paths@[on_id].0@.steps == w.take(1));
                        }
                        if on_id > 0 {
                            assert(paths@[0u64] == before[0u64]);
                        }
                    }
                    on_id += 1;
                }
            }
            k += 1;
        }
        (paths, on_id)
    }

    /// Searches for the shortest path to the apple among the paths whose
    /// every move brings the head closer to it. Each move from the head that
    /// does so and does not kill the snake starts a candidate; each round
    /// takes every candidate a step further (see `explore`), branching where
    /// two moves qualify, until a candidate played as it stood brings the
    /// head onto the apple alive, or 899 rounds have passed. Then the first
    /// such candidate becomes this path, untaken, and `true` is returned;
    /// otherwise the path stays as it is. A head that is neither on the
    /// board nor next to it dies on any first move, so there the search
    /// ends at once with nothing found.
    #[verifier::rlimit(100)]
    #[verifier::spinoff_prover]
    pub fn generate_path(&mut self, snake: &mut Snake) -> (found: bool)
        requires
            old(snake).wf(),
            old(snake)@.body.len() + 2000 < u32::MAX,
        ensures
            *final(snake) == *old(snake),
            found ==> path_to_apple(old(snake)@, final(self)@) && final(self)@.steps.len() <= 899 && by_the_board(
                old(snake)@.head.0,
            ),
            !found ==> final(self)@ == old(self)@,
            search_owed(old(snake)@) ==> found,
            apple_within_reach(old(snake)@) ==> found,
    {
        let ghost s0 = snake@;
        let h = snake.snake_head.0;
        if !(-1 <= h[0] && h[0] <= 30 && -1 <= h[1] && h[1] <= 30) {
            proof {
                lemma_far_head(s0);
            }
            return false;
        }
        let path_limit: u32 = SNAKE_GRID_SIZE[0] * SNAKE_GRID_SIZE[1];
        let mut limit_counter: u32 = 0;
        let mut found_apple = false;
        let mut limit_reached = false;
        let ghost owed = search_owed(s0);
        let ghost within = apple_within_reach(s0);
        let ghost w = choose|q: Seq<Pos>| #[trigger] greedy_to_apple(s0, q);
        assert(by_the_board(s0.head.0) && near_board(s0.head.0));
        let first = self.check_outcomes_from(snake);
        proof {
            if within {
                lemma_manhattan_zero(s0.head.0, s0.apple);
                assert(!walk(s0, w).1) by {
                    lemma_greedy_fits(s0, w);
                    lemma_greedy_runs(s0, w);
                }
                lemma_apple_on_board(s0, w);
                assert(home(s0, w));
                lemma_home_prefix(s0, w, 0);
                assert(w.take(0) =~= Seq::<Pos>::empty());
                assert(walk(s0, w.take(0)).0 == s0);
                lemma_outcomes_cover(s0, w[0]);
            }
            lemma_outcome_moves(s0);
            law_outcomes_bring_closer(s0);
            lemma_manhattan_zero(s0.head.0, s0.apple);
            if owed {
                assert(manhattan(s0.head.0, s0.apple) <= 58);
            }
        }
        proof {
            if home(s0, w) {
                lemma_home_prefix(s0, w, 0);
                assert(w.take(0) =~= Seq::<Pos>::empty());
                assert(walk(s0, w.take(0)).0 == s0);
                lemma_outcomes_cover(s0, w[0]);
            }
        }
        let seeded = Path::seed_candidates(snake, first, Ghost(w));
        let mut paths: HashMap<u64, (Path, bool)> = seeded.0;
        let mut on_id: u64 = seeded.1;
        proof {
            if within {
                assert(home(s0, w));
            }
        }
        proof {
            reveal_with_fuel(doubling, 2);
        }
        while !found_apple && !limit_reached
            invariant
                path_limit == 900,
                limit_counter <= 900,
                limit_reached ==> limit_counter == 900,
                !limit_reached ==> limit_counter <= 899,
                snake.wf(),
                snake@ == s0,
                search_room(s0),
                owed == search_owed(s0),
                owed ==> manhattan(s0.head.0, s0.apple) <= 58,
                on_id > 0 ==> s0.head.0 != s0.apple,
                forall|id: u64| #[trigger] paths@.contains_key(id) <==> id < on_id,
                forall|id: u64| id < on_id ==> candidate_ok(s0, (paths@[id].0@, paths@[id].1), limit_counter + 1),
                !found_apple ==> forall|id: u64| id < on_id ==> !(#[trigger] paths@[id]).1,
                found_apple ==> exists|id: u64| id < on_id && (#[trigger] paths@[id]).1,
                owed ==> on_id >= 1 && greedy(s0, paths@[0u64].0@.steps) && (found_apple || (
                paths@[0u64].0@.steps.len() == limit_counter + 1 && limit_counter + 1 <= manhattan(
                    s0.head.0,
                    s0.apple,
                ))),
                by_the_board(s0.head.0),
                within == apple_within_reach(s0),
                within ==> home(s0, w),
                on_id as nat <= doubling((limit_counter + 1) as nat),
                within ==> found_apple || (limit_counter + 1 <= w.len() && held(
                    paths@,
                    0,
                    on_id as int,
                    w.take(limit_counter + 1),
                )),
            decreases 900 - limit_counter,
        {
            limit_counter += 1;
            if limit_counter == path_limit {
                limit_reached = true;
            } else {
                let mut changes: Vec<Path> = Vec::new();
                let count = on_id;
                let mut id: u64 = 0;
                while id < count
                    invariant
                        1 <= limit_counter <= 899,
                        id <= count,
                        count == on_id,
                        snake.wf(),
                        snake@ == s0,
                        search_room(s0),
                        owed == search_owed(s0),
                        owed ==> manhattan(s0.head.0, s0.apple) <= 58,
                        on_id > 0 ==> s0.head.0 != s0.apple,
                        forall|j: u64| #[trigger] paths@.contains_key(j) <==> j < on_id,
                        forall|j: u64| j < id ==> candidate_ok(s0, (paths@[j].0@, paths@[j].1), limit_counter + 1),
                        forall|j: u64|
                            id <= j < count ==> candidate_ok(s0, (paths@[j].0@, paths@[j].1), limit_counter as int)
                                && !(#[trigger] paths@[j]).1,
                        !found_apple ==> forall|j: u64| j < id ==> !(#[trigger] paths@[j]).1,
                        found_apple ==> exists|j: u64| j < on_id && (#[trigger] paths@[j]).1,
                        forall|c: int|
                            0 <= c < changes@.len() ==> candidate_ok(
                                s0,
                                ((#[trigger] changes@[c])@, false),
                                limit_counter + 1,
                            ),
                        changes@.len() > 0 ==> on_id > 0,
                        owed ==> count >= 1 && greedy(s0, paths@[0u64].0@.steps),
                        owed && id == 0 ==> paths@[0u64].0@.steps.len() == limit_counter && limit_counter
                            <= manhattan(s0.head.0, s0.apple),
                        owed && id >= 1 ==> found_apple || (paths@[0u64].0@.steps.len() == limit_counter + 1
                            && limit_counter + 1 <= manhattan(s0.head.0, s0.apple)),
                        by_the_board(s0.head.0),
                        within ==> home(s0, w),
                        changes@.len() <= id,
                        count as nat <= doubling(limit_counter as nat),
                        within ==> limit_counter <= w.len(),
                        within ==> found_apple || held(paths@, id as int, count as int, w.take(limit_counter as int))
                            || (limit_counter < w.len() && (held(paths@, 0, id as int, w.take(limit_counter + 1))
                            || pending(changes@, 0, w.take(limit_counter + 1)))),
                    decreases count - id,
                {
                    let ghost pre = paths@;
                    let ghost pre_changes = changes@;
                    let entry = paths.get(&id);
                    let (mut cur, mut flag) = match entry {
                        Some(e) => (e.0.duplicate(), e.1),
                        None => {
                            assert(paths@.contains_key(id));
                            (Path::new(Vec::new()), false)
                        },
                    };
                    let ghost before = cur@;
                    let (finished, branch) = Path::explore(snake, &mut cur);
                    let ghost br = branch;
                    match branch {
                        Some(b) => {
                            changes.push(b);
                        },
                        None => {},
                    }
                    if finished {
                        flag = true;
                        found_apple = true;
                    }
                    let ghost old_paths = paths@;
                    paths.insert(id, (cur, flag));
                    proof {
                        if finished {
                            assert(paths@[id].1);
                        } else if found_apple {
                            let j = choose|j: u64| j < on_id && (#[trigger] old_paths[j]).1;
                            assert(j != id);
                            assert(paths@[j].1);
                        }
                        if within && !found_apple {
                            let k = limit_counter as int;
                            let p1 = w.take(k);
                            let p2 = w.take(k + 1);
                            if held(pre, id as int, count as int, p1) {
                                let j = choose|j: u64| id <= j < count && (#[trigger] pre[j]).0@.steps == p1;
                                if j == id {
                                    assert(before.steps == p1);
                                    lemma_home_prefix(s0, w, k);
                                    assert(k < w.len());
                                    assert(p1.push(w[k]) == p2);
                                    if cur@.steps == p2 {
                                        assert(paths@[id].0@.steps == p2);
                                        assert(held(paths@, 0, id + 1, p2));
                                    } else {
                                        assert(br matches Some(b) && b@.steps == p2);
                                        assert(changes@[pre_changes.len() as int]@.steps == p2);
                                        assert(pending(changes@, 0, p2));
                                    }
                                } else {
                                    assert(paths@[j] == pre[j]);
                                    assert(held(paths@, id + 1, count as int, p1));
                                }
                            } else if held(pre, 0, id as int, p2) {
                                let j = choose|j: u64| 0 <= j < id && (#[trigger] pre[j]).0@.steps == p2;
                                assert(paths@[j] == pre[j]);
                                assert(held(paths@, 0, id + 1, p2));
                            } else if pending(pre_changes, 0, p2) {
                                let c = choose|c: int| 0 <= c < pre_changes.len() && (#[trigger] pre_changes[c])@.steps == p2;
                                assert(changes@[c] == pre_changes[c]);
                                assert(pending(changes@, 0, p2));
                            }
                        }
                    }
                    id += 1;
                }
                let mut c: usize = 0;
                while c < changes.len()
                    invariant
                        1 <= limit_counter <= 899,
                        c <= changes@.len(),
                        (on_id > 0 || changes@.len() > 0) ==> s0.head.0 != s0.apple,
                        owed ==> on_id >= 1 && greedy(s0, paths@[0u64].0@.steps) && (found_apple || (
                        paths@[0u64].0@.steps.len() == limit_counter + 1 && limit_counter + 1 <= manhattan(
                            s0.head.0,
                            s0.apple,
                        ))),
                        forall|j: u64| #[trigger] paths@.contains_key(j) <==> j < on_id,
                        forall|j: u64| j < on_id ==> candidate_ok(s0, (paths@[j].0@, paths@[j].1), limit_counter + 1),
                        !found_apple ==> forall|j: u64| j < on_id ==> !(#[trigger] paths@[j]).1,
                        found_apple ==> exists|j: u64| j < on_id && (#[trigger] paths@[j]).1,
                        forall|c: int|
                            0 <= c < changes@.len() ==> candidate_ok(
                                s0,
                                ((#[trigger] changes@[c])@, false),
                                limit_counter + 1,
                            ),
                        by_the_board(s0.head.0),
                        within ==> home(s0, w),
                        changes@.len() <= count,
                        count as nat <= doubling(limit_counter as nat),
                        on_id as int <= count + c,
                        within ==> found_apple || (limit_counter < w.len() && (held(
                            paths@,
                            0,
                            on_id as int,
                            w.take(limit_counter + 1),
                        ) || pending(changes@, c as int, w.take(limit_counter + 1)))),
                    decreases changes@.len() - c,
                {
                    proof {
                        if within && !found_apple {
                            lemma_doubling((limit_counter + 1) as nat, 60);
                            assert(on_id < u64::MAX);
                        }
                    }
                    if on_id < u64::MAX {
                        let y = changes[c].duplicate();
                        let ghost old_paths = paths@;
                        paths.insert(on_id, (y, false));
                        proof {
                            if found_apple {
                                let j = choose|j: u64| j < on_id && (#[trigger] old_paths[j]).1;
                                assert(paths@[j].1);
                            }
                            if within && !found_apple {
                                let p2 = w.take(limit_counter + 1);
                                if held(old_paths, 0, on_id as int, p2) {
                                    let j = choose|j: u64| 0 <= j < on_id && (#[trigger] old_paths[j]).0@.steps == p2;
                                    assert(paths@[j] == old_paths[j]);
                                    assert(held(paths@, 0, on_id + 1, p2));
                                } else {
                                    let c2 = choose|c2: int| c <= c2 < changes@.len() && (#[trigger] changes@[c2])@.steps == p2;
                                    if c2 == c {
                                        assert(paths@[on_id].0@.steps == p2);
                                        assert(held(paths@, 0, on_id + 1, p2));
                                    } else {
                                        assert(pending(changes@, c + 1, p2));
                                    }
                                }
                            }
                        }
                        on_id += 1;
                    }
                    c += 1;
                }
            }
        }
        let mut id: u64 = 0;
        while id < on_id
            invariant
                forall|j: u64| #[trigger] paths@.contains_key(j) <==> j < on_id,
                forall|j: u64| j < on_id ==> candidate_ok(s0, (paths@[j].0@, paths@[j].1), 901),
                forall|j: u64| j < id ==> !(#[trigger] paths@[j]).1,
                found_apple ==> exists|j: u64| j < on_id && (#[trigger] paths@[j]).1,
                owed ==> found_apple,
                within == apple_within_reach(s0),
                within ==> found_apple,
                by_the_board(s0.head.0),
                self@ == old(self)@,
                snake@ == s0,
                s0 == old(snake)@,
            decreases on_id - id,
        {
            match paths.get(&id) {
                Some(entry) => {
                    if entry.1 {
                        let success = entry.0.duplicate();
                        *self = success;
                        return true;
                    }
                },
                None => {},
            }
            id += 1;
        }
        false
    }

    /// Has playing the steps in reverse order brought the head onto the
    /// apple, without a death on the way?
    fn path_finished(&self, snake: &Snake) -> (r: bool)
        requires
            snake.wf(),
            can_run(snake@, self@.steps.reverse()),
        ensures
            exists|t: SnakeView, d: bool|
                runs(snake@, self@.steps.reverse(), t, d) && r == (!d && t.head.0 == snake@.apple),
    {
        let mut result = false;
        let accual_path = {
            let mut reversed = self.duplicate();
            reversed.reverse();
            reversed
        };
        let possible_snake = snake.add_path(&accual_path);
        match possible_snake {
            Some(possible_snake) => {
                if same_pos(&possible_snake.snake_head.0, &snake.apple_pos) {
                    result = true
                }
            },
            None => {},
        }
        result
    }

    /// Is `b` closer to the snake's apple than `a` is? Distances are
    /// compared through their squares, which order them the same way.
    fn closer(&self, snake: &Snake, a: [i32; 2], b: [i32; 2]) -> (r: bool)
        ensures
            r == nearer(snake.apple_pos, a, b),
    {
        let mut result = false;
        let a_appledst = squared_distance(a, snake.apple_pos);
        let b_appledst = squared_distance(b, snake.apple_pos);
        if b_appledst < a_appledst {
            result = true
        }
        result
    }

    /// The moves from where the head is now that bring it closer to the
    /// apple: the first two of left, right, up and down that do, the null
    /// vector in the slots left over.
    fn check_outcomes_from(&self, snake: &Snake) -> (r: [[i32; 2]; 2])
        requires
            neighbours_fit(snake.snake_head.0),
        ensures
            r == outcomes(snake@),
    {
        let mut result = [[0, 0], [0, 0]];
        let h = snake.snake_head.0;
        let possible_snake_heads = [
            (self.closer(snake, h, add_arrays(h, SNAKE_DIR_LEFT)), SNAKE_DIR_LEFT),
            (self.closer(snake, h, add_arrays(h, SNAKE_DIR_RIGHT)), SNAKE_DIR_RIGHT),
            (self.closer(snake, h, add_arrays(h, SNAKE_DIR_UP)), SNAKE_DIR_UP),
            (self.closer(snake, h, add_arrays(h, SNAKE_DIR_DOWN)), SNAKE_DIR_DOWN),
        ];
        let ghost flags = possible_snake_heads@.map_values(|p: (bool, Pos)| p.0);
        let ghost dirs = seq![SNAKE_DIR_LEFT, SNAKE_DIR_RIGHT, SNAKE_DIR_UP, SNAKE_DIR_DOWN];
        proof {
            lemma_nearer_axes(snake.apple_pos, h);
        }
        let mut l: usize = 0;
        let mut i: usize = 0;
        while i < 4
            invariant
                i <= 4,
                possible_snake_heads@.len() == 4,
                forall|j: int| 0 <= j < 4 ==> (#[trigger] possible_snake_heads@[j]).1 == dirs[j],
                possible_snake_heads@[0].0 == nearer(snake.apple_pos, h, spec_add(h, SNAKE_DIR_LEFT)),
                possible_snake_heads@[1].0 == nearer(snake.apple_pos, h, spec_add(h, SNAKE_DIR_RIGHT)),
                possible_snake_heads@[2].0 == nearer(snake.apple_pos, h, spec_add(h, SNAKE_DIR_UP)),
                possible_snake_heads@[3].0 == nearer(snake.apple_pos, h, spec_add(h, SNAKE_DIR_DOWN)),
                !(possible_snake_heads@[0].0 && possible_snake_heads@[1].0),
                !(possible_snake_heads@[2].0 && possible_snake_heads@[3].0),
                dirs == seq![SNAKE_DIR_LEFT, SNAKE_DIR_RIGHT, SNAKE_DIR_UP, SNAKE_DIR_DOWN],
                ({
                    let d = partial_dirs(possible_snake_heads@, i as int);
                    &&& l == d.len()
                    &&& l <= 2
                    &&& result[0] == (if d.len() > 0 { d[0] } else { still() })
                    &&& result[1] == (if d.len() > 1 { d[1] } else { still() })
                }),
            decreases 4 - i,
        {
            let item = possible_snake_heads[i];
            proof {
                reveal_with_fuel(partial_dirs, 5);
                let it = possible_snake_heads@;
                if i == 1 {
                    assert(partial_dirs(it, 1) =~= partial_dirs(it, 0) + if it[0].0 { seq![it[0].1] } else { seq![] });
                } else if i == 2 {
                    assert(partial_dirs(it, 1) =~= partial_dirs(it, 0) + if it[0].0 { seq![it[0].1] } else { seq![] });
                    assert(partial_dirs(it, 2) =~= partial_dirs(it, 1) + if it[1].0 { seq![it[1].1] } else { seq![] });
                } else if i == 3 {
                    assert(partial_dirs(it, 1) =~= partial_dirs(it, 0) + if it[0].0 { seq![it[0].1] } else { seq![] });
                    assert(partial_dirs(it, 2) =~= partial_dirs(it, 1) + if it[1].0 { seq![it[1].1] } else { seq![] });
                    assert(partial_dirs(it, 3) =~= partial_dirs(it, 2) + if it[2].0 { seq![it[2].1] } else { seq![] });
                }
            }
            if item.0 {
                result[l] = item.1;
                l += 1;
            }
            i = i + 1;
        }
        proof {
            reveal_with_fuel(partial_dirs, 5);
            let it = possible_snake_heads@;
            assert(partial_dirs(it, 1) =~= partial_dirs(it, 0) + if it[0].0 { seq![it[0].1] } else { seq![] });
            assert(partial_dirs(it, 2) =~= partial_dirs(it, 1) + if it[1].0 { seq![it[1].1] } else { seq![] });
            assert(partial_dirs(it, 3) =~= partial_dirs(it, 2) + if it[2].0 { seq![it[2].1] } else { seq![] });
            assert(partial_dirs(it, 4) =~= partial_dirs(it, 3) + if it[3].0 { seq![it[3].1] } else { seq![] });
            assert(partial_dirs(possible_snake_heads@, 4) =~= closer_dirs(snake@));
        }
        assert(result =~= outcomes(snake@));
        result
    }
}

/// The directions among the first `i` entries whose flag is set.
pub open spec fn partial_dirs(items: Seq<(bool, Pos)>, i: int) -> Seq<Pos>
    decreases i,
{
    if i <= 0 {
        seq![]
    } else {
        partial_dirs(items, i - 1) + if items[i - 1].0 { seq![items[i - 1].1] } else { seq![] }
    }
}

} // verus!

verus! {

impl Snake {
    /// Points the head along the path's next step, if there is one, and
    /// counts the step as taken.
    pub fn follow_path(&mut self, path: &mut Path)
        requires
            old(path)@.steps_taken < u32::MAX,
        ensures
            final(self).snake_body@ == old(self).snake_body@,
            (final(self)@, final(path)@) == followed(old(self)@, old(path)@),
    {
        let n = path.steps.len();
        if (n as u32) > path.steps_taken {
            assert((n as u32) as int <= n as int) by (bit_vector);
            self.change_head_direction(&path.steps[path.steps_taken as usize]);
        }
        path.steps_taken += 1;
    }

    /// Plays `path` on a copy of the snake, as the game would: the copy as
    /// it ends up, or `None` when the snake died on the way.
    pub fn add_path(&self, path: &Path) -> (r: Option<Self>)
        requires
            self.wf(),
            can_run(self@, path@.steps),
        ensures
            match r {
                Some(t) => t.wf() && runs(self@, path@.steps, t@, false),
                None => exists|t: SnakeView| runs(self@, path@.steps, t, true),
            },
    {
        let mut result = self.duplicate();
        let mut error = false;
        let ghost s0 = self@;
        let ghost steps = path@.steps;
        let mut i: usize = 0;
        proof {
            lemma_runs_start(s0, steps);
        }
        while i < path.steps.len()
            invariant
                steps == path@.steps,
                steps == path.steps@,
                i <= steps.len(),
                result.wf(),
                can_run(s0, steps),
                runs(s0, steps.take(i as int), result@, error),
                result@.head.0[0] == s0.head.0[0] + travel(steps, i as int).0,
                result@.head.0[1] == s0.head.0[1] + travel(steps, i as int).1,
                result@.body.len() <= s0.body.len() + i,
            decreases steps.len() - i,
        {
            let ghost m = result@;
            let ghost d0 = error;
            result.change_head_direction(&path.steps[i]);
            assert(travel(steps, i + 1) == (travel(steps, i as int).0 + steps[i as int][0], travel(steps, i as int).1 + steps[i as int][1]));
            result.move_without_path(&mut error);
            proof {
                let a = choose|a: Pos|
                    apple_ok(steered(m, steps[i as int]), a) && result@ == step(steered(m, steps[i as int]), a).0
                        && error == (d0 || step(steered(m, steps[i as int]), a).1);
                lemma_runs_extend(s0, steps, i as int, m, d0, a);
                lemma_step_shape(steered(m, steps[i as int]), a);
            }
            i = i + 1;
        }
        assert(steps.take(steps.len() as int) =~= steps);
        if !error {
            return Some(result)
        } else {
            return None;
        }
    }
}

} // verus!

verus! {

/// Reversing a path twice gives back its steps.
pub proof fn law_reverse_twice(steps: Seq<Pos>)
    ensures
        steps.reverse().reverse() == steps,
{
    assert(steps.reverse().reverse() =~= steps);
}

/// `closer` is a strict order on cells: never true of a cell and itself,
/// never true both ways, and transitive.
pub proof fn law_closer_is_strict_order(apple: Pos, a: Pos, b: Pos, c: Pos)
    ensures
        !nearer(apple, a, a),
        nearer(apple, a, b) ==> !nearer(apple, b, a),
        nearer(apple, a, b) && nearer(apple, b, c) ==> nearer(apple, a, c),
{
}

/// Each option that `check_outcomes_from` offers is a move that brings the
/// head closer to the apple, or the null vector; the two are never
/// opposite, and a head on the apple gets no move at all.
pub proof fn law_outcomes_bring_closer(s: SnakeView)
    requires
        neighbours_fit(s.head.0),
    ensures
        forall|k: int|
            0 <= k < 2 && outcomes(s)[k] != still() ==> nearer(
                s.apple,
                s.head.0,
                spec_add(s.head.0, #[trigger] outcomes(s)[k]),
            ),
        outcomes(s)[0] == still() ==> outcomes(s)[1] == still(),
        outcomes(s)[1] != still() ==> outcomes(s)[0][1] == 0 && outcomes(s)[1][0] == 0,
        s.head.0 == s.apple ==> outcomes(s)[0] == still() && outcomes(s)[1] == still(),
{
    lemma_nearer_axes(s.apple, s.head.0);
    let d = closer_dirs(s);
    assert forall|i: int| 0 <= i < d.len() implies nearer(s.apple, s.head.0, spec_add(s.head.0, #[trigger] d[i])) by {
    }
    if s.head.0 == s.apple {
        assert(d.len() == 0);
    }
}

/// Taking no steps leaves the snake as it is and alive.
pub proof fn law_runs_empty(s: SnakeView, t: SnakeView, died: bool)
    ensures
        runs(s, seq![], t, died) <==> (t == s && !died),
{
    let none: Seq<Pos> = seq![];
    if t == s && !died {
        assert(run(s, none, none) == (s, false));
    }
}

/// Playing a path in two pieces is playing it whole: a run over `p` that
/// is followed by a run over `q` is a run over `p + q`, dead if either was.
pub proof fn law_runs_append(
    s: SnakeView,
    p: Seq<Pos>,
    q: Seq<Pos>,
    m: SnakeView,
    t: SnakeView,
    d1: bool,
    d2: bool,
)
    requires
        runs(s, p, m, d1),
        runs(m, q, t, d2),
    ensures
        runs(s, p + q, t, d1 || d2),
{
    let ap = choose|apples: Seq<Pos>|
        apples.len() == p.len() && apples_fit(s, p, apples) && #[trigger] run(s, p, apples) == (m, d1);
    let aq = choose|apples: Seq<Pos>|
        apples.len() == q.len() && apples_fit(m, q, apples) && #[trigger] run(m, q, apples) == (t, d2);
    lemma_run_split(s, p, q, ap, aq);
    assert(run(s, p + q, ap + aq) == (t, d1 || d2));
}

/// Playing a path whole is playing it in two pieces: a run over `p + q`
/// is a run over `p` followed by a run over `q`, dead if either was.
pub proof fn law_runs_split(s: SnakeView, p: Seq<Pos>, q: Seq<Pos>, t: SnakeView, d: bool)
    requires
        runs(s, p + q, t, d),
    ensures
        exists|m: SnakeView, d1: bool, d2: bool|
            #![trigger runs(s, p, m, d1), runs(m, q, t, d2)]
            runs(s, p, m, d1) && runs(m, q, t, d2) && d == (d1 || d2),
{
    let a = choose|apples: Seq<Pos>|
        apples.len() == (p + q).len() && apples_fit(s, p + q, apples) && #[trigger] run(s, p + q, apples) == (
        t,
        d,
    );
    let ap = a.take(p.len() as int);
    let aq = a.skip(p.len() as int);
    assert(a =~= ap + aq);
    lemma_run_split(s, p, q, ap, aq);
    let m = run(s, p, ap);
    let n = run(m.0, q, aq);
    assert(runs(s, p, m.0, m.1));
    assert(runs(m.0, q, t, n.1));
}

/// `run` over `p + q` is `run` over `p` followed by `run` over `q`, and the
/// apples fit the whole exactly when they fit both pieces.
proof fn lemma_run_split(s: SnakeView, p: Seq<Pos>, q: Seq<Pos>, ap: Seq<Pos>, aq: Seq<Pos>)
    requires
        ap.len() == p.len(),
        aq.len() == q.len(),
    ensures
        run(s, p + q, ap + aq) == (run(run(s, p, ap).0, q, aq).0, run(s, p, ap).1 || run(
            run(s, p, ap).0,
            q,
            aq,
        ).1),
        apples_fit(s, p + q, ap + aq) == (apples_fit(s, p, ap) && apples_fit(run(s, p, ap).0, q, aq)),
    decreases q.len(),
{
    if q.len() == 0 {
        assert(p + q =~= p);
        assert(ap + aq =~= ap);
    } else {
        lemma_run_split(s, p, q.drop_last(), ap, aq.drop_last());
        assert((p + q).drop_last() =~= p + q.drop_last());
        assert((ap + aq).drop_last() =~= ap + aq.drop_last());
        assert((p + q).last() == q.last());
        assert((ap + aq).last() == aq.last());
    }
}

/// A path of unit steps moves the head by at most one cell per step, counted
/// in moves.
pub proof fn lemma_unit_travel_moves(steps: Seq<Pos>, k: int)
    requires
        0 <= k <= steps.len(),
        unit_path(steps),
    ensures
        abs(travel(steps, k).0) + abs(travel(steps, k).1) <= k,
    decreases k,
{
    if k > 0 {
        lemma_unit_travel_moves(steps, k - 1);
        assert(is_step(steps[k - 1]));
    }
}

/// No path of unit steps brings the head onto the apple in fewer steps than
/// the head is moves away from it: a path to the apple is a shortest one.
pub proof fn law_path_to_apple_is_shortest(s: SnakeView, q: Seq<Pos>, t: SnakeView, d: bool)
    requires
        unit_path(q),
        path_fits(s.head.0, q),
        runs(s, q, t, d),
        t.head.0 == s.apple,
    ensures
        q.len() >= manhattan(s.head.0, s.apple),
{
    let a = choose|apples: Seq<Pos>|
        apples.len() == q.len() && apples_fit(s, q, apples) && #[trigger] run(s, q, apples) == (t, d);
    lemma_run_head(s, q, a);
    lemma_unit_travel_moves(q, q.len() as int);
}

/// Following a path with a step left points the head along the first
/// untaken step, `steps[n]` where `n` steps were taken, and counts it;
/// with no step left the head keeps its velocity and only the count grows.
/// Either way the head's cell, the body and the apple stay.
pub proof fn law_follow_takes_the_next_step(s: SnakeView, p: PathView)
    requires
        p.steps.len() <= u32::MAX,
        p.steps_taken < u32::MAX,
    ensures
        p.steps_taken < p.steps.len() ==> followed(s, p).0.head.2 == p.steps[p.steps_taken as int],
        p.steps_taken >= p.steps.len() ==> followed(s, p).0.head.2 == s.head.2,
        followed(s, p).0.head.0 == s.head.0,
        followed(s, p).0.head.1 == s.head.1,
        followed(s, p).0.body == s.body,
        followed(s, p).0.apple == s.apple,
        followed(s, p).1.steps == p.steps,
        followed(s, p).1.steps_taken == p.steps_taken + 1,
{
}

} // verus!
