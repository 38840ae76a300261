//! Greedy paths: every move brings the head one cell nearer to the apple.
//! Along such a path the head never stands on the apple before its last
//! move, so the apple is never eaten on the way and playing the path is
//! deterministic.

use vstd::prelude::*;

use crate::geometry::{
    in_grid, spec_add, Pos, SNAKE_DIR_DOWN, SNAKE_DIR_LEFT, SNAKE_DIR_RIGHT, SNAKE_DIR_UP,
};
use crate::pathfinding::{
    apples_fit, lemma_nearer_axes, lemma_travel_prefix, nearer, neighbours_fit, path_fits, run, runs,
    travel,
};
use crate::snake::{apple_ok, moved_on, steered, step, SnakeView};

verus! {

broadcast use vstd::array::group_array_axioms;

/// `|x|`.
pub open spec fn abs(x: int) -> int {
    if x < 0 {
        -x
    } else {
        x
    }
}

/// The number of unit moves between two cells.
pub open spec fn manhattan(a: Pos, b: Pos) -> int {
    abs(a[0] - b[0]) + abs(a[1] - b[1])
}

/// The number of unit moves from the head of `s`, moved by the first `k`
/// steps of `g`, to the apple.
pub open spec fn dist_after(s: SnakeView, g: Seq<Pos>, k: int) -> int {
    abs(s.head.0[0] + travel(g, k).0 - s.apple[0]) + abs(s.head.0[1] + travel(g, k).1 - s.apple[1])
}

/// Two cells are no moves apart exactly when they coincide.
pub proof fn lemma_manhattan_zero(a: Pos, b: Pos)
    ensures
        manhattan(a, b) >= 0,
        manhattan(a, b) == 0 <==> a == b,
{
    if a[0] == b[0] && a[1] == b[1] {
        assert(a =~= b);
    }
}

/// `v` is one of left, right, up and down.
pub open spec fn is_move(v: Pos) -> bool {
    v == SNAKE_DIR_LEFT || v == SNAKE_DIR_RIGHT || v == SNAKE_DIR_UP || v == SNAKE_DIR_DOWN
}

/// Every step of `g` is a move that brings the head one cell nearer to the
/// apple.
pub open spec fn greedy(s: SnakeView, g: Seq<Pos>) -> bool {
    forall|k: int| 0 <= k < g.len() ==> is_move(#[trigger] g[k]) && dist_after(s, g, k + 1) == dist_after(s, g, k) - 1
}

/// Playing `g` without ever eating: point the head, advance, pull the body.
/// The snake at the end, and whether it died on the way.
pub open spec fn walk(s: SnakeView, g: Seq<Pos>) -> (SnakeView, bool)
    decreases g.len(),
{
    if g.len() == 0 {
        (s, false)
    } else {
        let prev = walk(s, g.drop_last());
        let next = moved_on(steered(prev.0, g.last()));
        (next.0, prev.1 || next.1)
    }
}

/// A move brings the head nearer to the apple exactly when it takes one
/// cell off the number of moves to the apple.
pub proof fn lemma_nearer_move(apple: Pos, h: Pos, d: Pos)
    requires
        is_move(d),
        neighbours_fit(h),
    ensures
        nearer(apple, h, spec_add(h, d)) <==> manhattan(spec_add(h, d), apple) == manhattan(h, apple) - 1,
        !nearer(apple, h, spec_add(h, d)) ==> manhattan(spec_add(h, d), apple) == manhattan(h, apple) + 1,
{
    lemma_nearer_axes(apple, h);
}

/// A greedy path stays greedy without its last step.
pub proof fn lemma_greedy_drop_last(s: SnakeView, g: Seq<Pos>)
    requires
        greedy(s, g),
        g.len() > 0,
    ensures
        greedy(s, g.drop_last()),
{
    let p = g.drop_last();
    assert forall|k: int| 0 <= k < p.len() implies is_move(#[trigger] p[k]) && dist_after(s, p, k + 1)
        == dist_after(s, p, k) - 1 by {
        lemma_travel_prefix(p, g, k);
        lemma_travel_prefix(p, g, k + 1);
        assert(is_move(g[k]) && dist_after(s, g, k + 1) == dist_after(s, g, k) - 1);
    }
}

/// Along a greedy path the number of moves to the apple drops by one per step.
pub proof fn lemma_greedy_dist(s: SnakeView, g: Seq<Pos>, k: int)
    requires
        greedy(s, g),
        0 <= k <= g.len(),
    ensures
        dist_after(s, g, k) == manhattan(s.head.0, s.apple) - k,
        g.len() <= manhattan(s.head.0, s.apple),
    decreases k,
{
    if k > 0 {
        lemma_greedy_dist(s, g, k - 1);
        assert(is_move(g[k - 1]) && dist_after(s, g, k) == dist_after(s, g, k - 1) - 1);
    } else {
        assert(travel(g, 0) == (0int, 0int));
    }
    if g.len() > 0 && k < g.len() {
        lemma_greedy_dist_end(s, g);
    }
    if g.len() == 0 {
    } else if k == g.len() {
        assert(dist_after(s, g, k) >= 0);
    }
}

/// The end of a greedy path is no further than the apple.
proof fn lemma_greedy_dist_end(s: SnakeView, g: Seq<Pos>)
    requires
        greedy(s, g),
        g.len() > 0,
    ensures
        g.len() <= manhattan(s.head.0, s.apple),
    decreases g.len(),
{
    let n = g.len() as int;
    lemma_greedy_drop_last(s, g);
    let p = g.drop_last();
    if p.len() > 0 {
        lemma_greedy_dist_end(s, p);
    }
    lemma_greedy_dist_upto(s, g, n);
    assert(dist_after(s, g, n) >= 0);
}

/// `lemma_greedy_dist` without its bound on the length.
pub proof fn lemma_greedy_dist_upto(s: SnakeView, g: Seq<Pos>, k: int)
    requires
        greedy(s, g),
        0 <= k <= g.len(),
    ensures
        dist_after(s, g, k) == manhattan(s.head.0, s.apple) - k,
    decreases k,
{
    if k > 0 {
        lemma_greedy_dist_upto(s, g, k - 1);
        assert(is_move(g[k - 1]) && dist_after(s, g, k) == dist_after(s, g, k - 1) - 1);
    } else {
        assert(travel(g, 0) == (0int, 0int));
    }
}

/// Playing a greedy path from a head that is not on the apple never eats,
/// whatever apples the moves are given: it is `walk`. The head ends moved by
/// all the steps, the apple and the body's length stay.
pub proof fn lemma_greedy_walk(s: SnakeView, g: Seq<Pos>, apples: Seq<Pos>)
    requires
        greedy(s, g),
        path_fits(s.head.0, g),
        s.head.0 != s.apple,
    ensures
        run(s, g, apples) == walk(s, g),
        walk(s, g).0.apple == s.apple,
        walk(s, g).0.head.0[0] == s.head.0[0] + travel(g, g.len() as int).0,
        walk(s, g).0.head.0[1] == s.head.0[1] + travel(g, g.len() as int).1,
        walk(s, g).0.body.len() == s.body.len(),
    decreases g.len(),
{
    if g.len() > 0 {
        let n = g.len() as int;
        let p = g.drop_last();
        lemma_greedy_drop_last(s, g);
        assert forall|k: int| 0 < k <= p.len() implies i32::MIN <= s.head.0[0] + (#[trigger] travel(p, k)).0
            <= i32::MAX && i32::MIN <= s.head.0[1] + travel(p, k).1 <= i32::MAX by {
            lemma_travel_prefix(p, g, k);
            assert(travel(g, k) == travel(p, k));
        }
        lemma_greedy_walk(s, p, apples.drop_last());
        lemma_travel_prefix(p, g, n - 1);
        lemma_greedy_dist_upto(s, g, n - 1);
        lemma_greedy_dist_upto(s, g, n);
        let m = walk(s, p).0;
        assert(dist_after(s, g, n - 1) >= 1);
        assert(m.head.0 != s.apple) by {
            if m.head.0 == s.apple {
                assert(m.head.0[0] == s.apple[0] && m.head.0[1] == s.apple[1]);
            }
        }
        assert(steered(m, g.last()).head.0 != steered(m, g.last()).apple);
        assert(step(steered(m, g.last()), apples.last()) == moved_on(steered(m, g.last())));
    }
}

/// For a greedy path from a head that is not on the apple, the runs are
/// exactly the walk.
pub proof fn lemma_greedy_runs(s: SnakeView, g: Seq<Pos>)
    requires
        greedy(s, g),
        path_fits(s.head.0, g),
        s.head.0 != s.apple,
    ensures
        runs(s, g, walk(s, g).0, walk(s, g).1),
        forall|t: SnakeView, d: bool| #[trigger] runs(s, g, t, d) ==> t == walk(s, g).0 && d == walk(s, g).1,
{
    let apples = Seq::new(g.len(), |i: int| s.apple);
    lemma_greedy_apples_fit(s, g);
    lemma_greedy_walk(s, g, apples);
    assert forall|t: SnakeView, d: bool| #[trigger] runs(s, g, t, d) implies t == walk(s, g).0 && d == walk(
        s,
        g,
    ).1 by {
        let a = choose|a: Seq<Pos>| a.len() == g.len() && apples_fit(s, g, a) && #[trigger] run(s, g, a) == (t, d);
        lemma_greedy_walk(s, g, a);
    }
}

/// Leaving the apple where it is fits every move of a greedy path.
proof fn lemma_greedy_apples_fit(s: SnakeView, g: Seq<Pos>)
    requires
        greedy(s, g),
        path_fits(s.head.0, g),
        s.head.0 != s.apple,
    ensures
        apples_fit(s, g, Seq::new(g.len(), |i: int| s.apple)),
    decreases g.len(),
{
    if g.len() > 0 {
        let n = g.len() as int;
        let p = g.drop_last();
        let apples = Seq::new(g.len(), |i: int| s.apple);
        lemma_greedy_drop_last(s, g);
        assert forall|k: int| 0 < k <= p.len() implies i32::MIN <= s.head.0[0] + (#[trigger] travel(p, k)).0
            <= i32::MAX && i32::MIN <= s.head.0[1] + travel(p, k).1 <= i32::MAX by {
            lemma_travel_prefix(p, g, k);
            assert(travel(g, k) == travel(p, k));
        }
        lemma_greedy_apples_fit(s, p);
        assert(apples.drop_last() =~= Seq::new(p.len(), |i: int| s.apple));
        lemma_greedy_walk(s, p, apples.drop_last());
        lemma_travel_prefix(p, g, n - 1);
        lemma_greedy_dist_upto(s, g, n - 1);
        lemma_greedy_dist_upto(s, g, n);
        let m = walk(s, p).0;
        assert(m.head.0 != s.apple) by {
            if m.head.0 == s.apple {
                assert(m.head.0[0] == s.apple[0] && m.head.0[1] == s.apple[1]);
            }
        }
        assert(apple_ok(steered(m, g.last()), apples.last()));
    }
}

/// A greedy path keeps the head between its start and the apple on each axis.
pub proof fn lemma_greedy_box(s: SnakeView, g: Seq<Pos>, k: int)
    requires
        greedy(s, g),
        0 <= k <= g.len(),
    ensures
        s.head.0[0] <= s.apple[0] ==> s.head.0[0] <= s.head.0[0] + travel(g, k).0 <= s.apple[0],
        s.head.0[0] >= s.apple[0] ==> s.apple[0] <= s.head.0[0] + travel(g, k).0 <= s.head.0[0],
        s.head.0[1] <= s.apple[1] ==> s.head.0[1] <= s.head.0[1] + travel(g, k).1 <= s.apple[1],
        s.head.0[1] >= s.apple[1] ==> s.apple[1] <= s.head.0[1] + travel(g, k).1 <= s.head.0[1],
    decreases k,
{
    if k > 0 {
        lemma_greedy_box(s, g, k - 1);
        assert(is_move(g[k - 1]) && dist_after(s, g, k) == dist_after(s, g, k - 1) - 1);
    } else {
        assert(travel(g, 0) == (0int, 0int));
    }
}

/// A short snake with head and apple on the board survives every greedy path.
pub proof fn lemma_greedy_alive(s: SnakeView, g: Seq<Pos>)
    requires
        greedy(s, g),
        path_fits(s.head.0, g),
        s.head.0 != s.apple,
        s.body.len() <= 1,
        in_grid(s.head.0),
        in_grid(s.apple),
    ensures
        !walk(s, g).1,
    decreases g.len(),
{
    if g.len() > 0 {
        let n = g.len() as int;
        let p = g.drop_last();
        lemma_greedy_drop_last(s, g);
        assert forall|k: int| 0 < k <= p.len() implies i32::MIN <= s.head.0[0] + (#[trigger] travel(p, k)).0
            <= i32::MAX && i32::MIN <= s.head.0[1] + travel(p, k).1 <= i32::MAX by {
            lemma_travel_prefix(p, g, k);
            assert(travel(g, k) == travel(p, k));
        }
        lemma_greedy_alive(s, p);
        lemma_greedy_walk(s, g, Seq::new(g.len(), |i: int| s.apple));
        lemma_greedy_walk(s, p, Seq::new(p.len(), |i: int| s.apple));
        lemma_greedy_box(s, g, n);
        let m = walk(s, p).0;
        assert(walk(s, g).0.head.0 == moved_on(steered(m, g.last())).0.head.0);
        assert(in_grid(walk(s, g).0.head.0));
    }
}

/// Every cell a path of moves towards the apple passes lies between its
/// start and the apple, so it fits in `i32`.
pub proof fn lemma_greedy_fits(s: SnakeView, g: Seq<Pos>)
    requires
        greedy(s, g),
    ensures
        path_fits(s.head.0, g),
{
    assert forall|k: int| 0 < k <= g.len() implies i32::MIN <= s.head.0[0] + (#[trigger] travel(g, k)).0
        <= i32::MAX && i32::MIN <= s.head.0[1] + travel(g, k).1 <= i32::MAX by {
        lemma_greedy_box(s, g, k);
    }
}

/// The first `k` moves of a path of moves towards the apple are one too.
pub proof fn lemma_greedy_take(s: SnakeView, g: Seq<Pos>, k: int)
    requires
        greedy(s, g),
        0 <= k <= g.len(),
    ensures
        greedy(s, g.take(k)),
{
    let p = g.take(k);
    assert forall|i: int| 0 <= i < p.len() implies is_move(#[trigger] p[i]) && dist_after(s, p, i + 1)
        == dist_after(s, p, i) - 1 by {
        lemma_travel_prefix(p, g, i);
        lemma_travel_prefix(p, g, i + 1);
        assert(is_move(g[i]) && dist_after(s, g, i + 1) == dist_after(s, g, i) - 1);
    }
}

/// A walk that ends alive was alive after each of its first moves.
pub proof fn lemma_walk_take_alive(s: SnakeView, g: Seq<Pos>, k: int)
    requires
        !walk(s, g).1,
        0 <= k <= g.len(),
    ensures
        !walk(s, g.take(k)).1,
    decreases g.len(),
{
    if k == g.len() {
        assert(g.take(k) =~= g);
    } else {
        let p = g.drop_last();
        assert(g.take(k) =~= p.take(k));
        lemma_walk_take_alive(s, p, k);
    }
}

} // verus!
