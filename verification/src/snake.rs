//! The snake: its head, its body, the apple, and how one move changes them.

use std::collections::HashMap;
use vstd::prelude::*;

use crate::draw::{rect_covers, rect_ok, PixelBuffer, PALLET_BYTES};
use crate::geometry::{
    add_arrays, in_grid, is_step, on_board, same_pos, spec_add, sum_fits, Pos, SNAKE_GRID_SIZE,
    SNAKE_GRID_SIZE_I32,
};
use crate::greedy::{greedy, is_move, lemma_manhattan_zero, manhattan};
use crate::pathfinding::{
    apple_within_reach, by_the_board, followed, greedy_to_apple, lands_on_apple, path_to_apple,
    search_owed, Path, PathView,
};
use crate::rng::{gen_below, thread_rng};
use vstd::std_specs::hash::spec_values_iter;
use vstd::std_specs::iter::IteratorSpec;

pub use crate::geometry::{SNAKE_DIR_DOWN, SNAKE_DIR_LEFT, SNAKE_DIR_RIGHT, SNAKE_DIR_UP};

verus! {

broadcast use vstd::std_specs::hash::group_hash_axioms, vstd::array::group_array_axioms;

/// Where a part of the snake is.
pub type SnakePos = [i32; 2];

/// How far the head moves per step.
pub type SnakeVel = [i32; 2];

/// Where a part of the snake was before its last move.
pub type LastSnakePos = [i32; 2];

/// Position, previous position and velocity of one part of the snake.
pub type SnakeBodyPart = (SnakePos, LastSnakePos, SnakeVel);

/// Key of a body part: its place in the body, counted from the head.
pub type BodyPartID = u32;

/// The snake and the apple it is after.
#[derive(Debug)]
pub struct Snake {
    pub snake_head: SnakeBodyPart,
    pub snake_body: HashMap<BodyPartID, SnakeBodyPart>,
    pub apple_pos: [i32; 2],
}

/// What a `Snake` is: its head, its body parts in order from the neck to
/// the tail, and the apple.
pub struct SnakeView {
    pub head: SnakeBodyPart,
    pub body: Seq<SnakeBodyPart>,
    pub apple: Pos,
}

/// The body parts are keyed `0, 1, .., n - 1`, `n` at most `u32::MAX`.
pub open spec fn keys_contiguous(m: Map<u32, SnakeBodyPart>) -> bool {
    &&& m.dom().finite()
    &&& m.dom().len() <= u32::MAX
    &&& forall|k: u32| #[trigger] m.dom().contains(k) <==> (k as int) < m.dom().len()
}

/// The body parts in key order.
pub open spec fn body_seq(m: Map<u32, SnakeBodyPart>) -> Seq<SnakeBodyPart> {
    Seq::new(m.dom().len(), |i: int| m[i as u32])
}

impl View for Snake {
    type V = SnakeView;

    open spec fn view(&self) -> SnakeView {
        SnakeView { head: self.snake_head, body: body_seq(self.snake_body@), apple: self.apple_pos }
    }
}

/// The null vector, the velocity that a snake starts with.
pub open spec fn still() -> Pos {
    [0i32, 0i32]
}

/// The snake after growing by one part: the new part sits where the tail
/// (or, without a body, the head) is, and does not move.
pub open spec fn grown(s: SnakeView) -> SnakeView {
    let pos = if s.body.len() == 0 { s.head.0 } else { s.body.last().0 };
    SnakeView { body: s.body.push((pos, still(), still())), ..s }
}

/// The head is on a body part, and the body has more than one part.
pub open spec fn bites_itself(s: SnakeView) -> bool {
    s.body.len() > 1 && exists|i: int| 0 <= i < s.body.len() && #[trigger] s.body[i].0 == s.head.0
}

/// `p` lies outside the board.
pub open spec fn off_board(p: Pos) -> bool {
    p[0] > 29 || p[1] > 29 || p[0] < 0 || p[1] < 0
}

/// The snake has run into itself or off the board.
pub open spec fn is_dead(s: SnakeView) -> bool {
    bites_itself(s) || off_board(s.head.0)
}

/// Every body part moves to where the part before it was: the first one to
/// the head's previous cell. Each part remembers where it was.
pub open spec fn cycled(s: SnakeView) -> SnakeView {
    SnakeView {
        body: Seq::new(
            s.body.len(),
            |k: int|
                (if k == 0 { s.head.1 } else { s.body[k - 1].0 }, s.body[k].0, s.body[k].2),
        ),
        ..s
    }
}

/// The head heads in `dir`.
pub open spec fn steered(s: SnakeView, dir: Pos) -> SnakeView {
    SnakeView { head: (s.head.0, s.head.1, dir), ..s }
}

/// The head moves by its velocity and remembers where it was.
pub open spec fn advanced(s: SnakeView) -> SnakeView {
    SnakeView { head: (spec_add(s.head.0, s.head.2), s.head.0, s.head.2), ..s }
}

/// Index of a board cell, row by row.
pub open spec fn cell_index(p: Pos) -> int {
    p[1] * 30 + p[0]
}

/// How many cells a new apple can go to: every cell but the head's.
pub open spec fn free_cells(head: Pos) -> int {
    if in_grid(head) { 899 } else { 900 }
}

/// The cell that the draw `draw` in `0..free_cells(head)` stands for:
/// the cells in row order, the head's cell left out.
pub open spec fn apple_cell(head: Pos, draw: int) -> Pos {
    let idx = if in_grid(head) && draw >= cell_index(head) { draw + 1 } else { draw };
    [(idx % 30) as i32, (idx / 30) as i32]
}

/// `a` is a place where the apple may be after the head has tried to eat it:
/// anywhere on the board but under the head when it did eat, and otherwise
/// where it was.
pub open spec fn apple_ok(s: SnakeView, a: Pos) -> bool {
    if s.head.0 == s.apple {
        in_grid(a) && a != s.head.0
    } else {
        a == s.apple
    }
}

/// When the head is on the apple, the snake grows and the apple goes to `a`.
pub open spec fn after_eating(s: SnakeView, a: Pos) -> SnakeView {
    if s.head.0 == s.apple {
        SnakeView { apple: a, ..grown(s) }
    } else {
        s
    }
}

/// The head advances and the body is pulled after it. The flag says whether
/// the snake died on the head's new cell.
pub open spec fn moved_on(s: SnakeView) -> (SnakeView, bool) {
    let m = advanced(s);
    (if m.body.len() == 0 { m } else { cycled(m) }, is_dead(m))
}

/// One move without a path: eat if on the apple (the apple then goes to
/// `a`), then advance.
pub open spec fn step(s: SnakeView, a: Pos) -> (SnakeView, bool) {
    moved_on(after_eating(s, a))
}

/// The move `step` can be made: the head's new cell fits in `i32`, and there
/// is a key left for a new body part.
pub open spec fn can_step(s: SnakeView) -> bool {
    &&& sum_fits(s.head.0, s.head.2)
    &&& s.body.len() + 1 < u32::MAX
}

/// A path search from `s` while following `p` stays within the keys for
/// body parts, also after the snake has grown by eating, and the path can
/// count one more step.
pub open spec fn path_search_ok(s: SnakeView, p: PathView) -> bool {
    &&& s.body.len() + 2001 < u32::MAX
    &&& p.steps_taken < u32::MAX
}

/// `q` is what a search from `s` can leave of the path `p`: a path to the
/// apple of at most 899 steps from a head by the board, or, where the
/// search was bound to find none, `p` itself.
pub open spec fn searched(s: SnakeView, p: PathView, q: PathView) -> bool {
    ||| path_to_apple(s, q) && q.steps.len() <= 899 && by_the_board(s.head.0)
    ||| q == p && !search_owed(s) && !apple_within_reach(s)
}

/// The 5 x 5 pixels that show cell `p` lie in the buffer.
pub open spec fn cell_drawable(p: Pos) -> bool {
    &&& i32::MIN <= p[0] * 5
    &&& p[0] * 5 + 25 <= i32::MAX
    &&& i32::MIN <= p[1] * 5
    &&& p[1] * 5 + 25 <= i32::MAX
    &&& rect_ok(p[0] * 5 + 25, p[1] * 5 + 25, 5, 5)
}

/// The pixel with linear index `lin` shows part of cell `p`.
pub open spec fn cell_covers(p: Pos, lin: int) -> bool {
    rect_covers(p[0] * 5 + 25, p[1] * 5 + 25, 5, 5, lin)
}

/// Yellow, the snake's colour.
pub open spec fn snake_color() -> [u8; 3] {
    [255u8, 255u8, 0u8]
}

/// Red, the apple's colour.
pub open spec fn apple_color() -> [u8; 3] {
    [255u8, 0u8, 0u8]
}

/// The byte at `j` after drawing over `old` the apple's cell in red, then
/// the head's cell and the cell of each part in `body` in yellow.
pub open spec fn drawn_byte(old: Seq<u8>, apple: Pos, head: Pos, body: Set<SnakeBodyPart>, j: int) -> u8 {
    if j >= 3 && (cell_covers(head, (j - 3) / 3) || exists|b: SnakeBodyPart|
        body.contains(b) && #[trigger] cell_covers(b.0, (j - 3) / 3)) {
        snake_color()[(j - 3) % 3]
    } else if j >= 3 && cell_covers(apple, (j - 3) / 3) {
        apple_color()[(j - 3) % 3]
    } else {
        old[j]
    }
}

impl Clone for Snake {
    /// A snake in the same state.
    fn clone(&self) -> (r: Self)
        ensures
            r@ == self@,
            r.snake_body@ == self.snake_body@,
    {
        self.duplicate()
    }
}

impl Snake {
    /// The body is keyed `0, 1, .., n - 1`.
    pub open spec fn wf(&self) -> bool {
        keys_contiguous(self.snake_body@)
    }

    /// A snake of one head at `snake_pos`, standing still, with the apple on
    /// a random cell of the board.
    pub fn new(snake_pos: [i32; 2]) -> (r: Self)
        ensures
            r.wf(),
            r@.head == (snake_pos, still(), still()),
            r@.body.len() == 0,
            in_grid(r@.apple),
    {
        let mut rng = thread_rng();
        let x = gen_below(&mut rng, SNAKE_GRID_SIZE[0]) as i32;
        let y = gen_below(&mut rng, SNAKE_GRID_SIZE[0]) as i32;
        let r = Snake {
            snake_head: (snake_pos, [0, 0], [0, 0]),
            snake_body: HashMap::new(),
            apple_pos: [x, y],
        };
        assert(r.snake_head.1 =~= still());
        assert(r.snake_head.2 =~= still());
        r
    }

    /// A snake in the same state.
    pub fn duplicate(&self) -> (r: Self)
        ensures
            r@ == self@,
            r.snake_body@ == self.snake_body@,
    {
        Snake {
            snake_head: self.snake_head,
            snake_body: self.snake_body.clone(),
            apple_pos: self.apple_pos,
        }
    }

    /// The body part with key `k`.
    fn part(&self, k: u32) -> (p: SnakeBodyPart)
        requires
            self.wf(),
            k < self@.body.len(),
        ensures
            p == self@.body[k as int],
    {
        match self.snake_body.get(&k) {
            Some(p) => *p,
            None => {
                assert(self.snake_body@.dom().contains(k));
                self.snake_head
            },
        }
    }

    /// Takes a board coordinate to the pixel of the cell's top left corner.
    fn to_grid_pos(input: i32) -> (r: i32)
        requires
            i32::MIN <= input * 5,
            input * 5 + 25 <= i32::MAX,
        ensures
            r == input * 5 + 25,
    {
        input * 5 + 25
    }

    /// Points the head in `direction`.
    pub fn change_head_direction(&mut self, direction: &[i32; 2])
        ensures
            final(self).snake_body@ == old(self).snake_body@,
            final(self)@ == steered(old(self)@, *direction),
    {
        self.snake_head.2 = *direction;
    }

    /// Adds a part at the tail, keyed one past the largest key.
    fn grow(&mut self)
        requires
            old(self).wf(),
            old(self)@.body.len() < u32::MAX,
        ensures
            final(self).wf(),
            final(self)@ == grown(old(self)@),
    {
        let n = self.snake_body.len();
        let ghost m0 = self.snake_body@;
        let mut new_pos = self.snake_head.0;
        let mut new_key: u32 = 0;
        if n > 0 {
            let largest_key = (n - 1) as u32;
            new_key = largest_key + 1;
            new_pos = self.part(largest_key).0;
        }
        self.snake_body.insert(new_key, (new_pos, [0, 0], [0, 0]));
        proof {
            let m1 = self.snake_body@;
            assert(!m0.dom().contains(new_key));
            assert(m1.dom() == m0.dom().insert(new_key));
            assert(m1.dom().len() == n + 1);
            assert forall|k: u32| #[trigger] m1.dom().contains(k) <==> (k as int) < m1.dom().len() by {
                if k == new_key {
                } else {
                    assert(m1.dom().contains(k) == m0.dom().contains(k));
                }
            }
            let part: SnakeBodyPart = (new_pos, [0, 0], [0, 0]);
            assert(part.1 =~= still());
            assert(part.2 =~= still());
            assert(body_seq(m1) =~= body_seq(m0).push(part));
        }
    }

    /// Has the head run into the body (of more than one part) or off the board?
    fn check_death(&mut self) -> (died: bool)
        requires
            old(self).wf(),
        ensures
            *final(self) == *old(self),
            died == is_dead(old(self)@),
    {
        let mut result = false;
        let body_len = self.snake_body.len();
        let mut k: usize = 0;
        while k < body_len
            invariant
                self.wf(),
                body_len == self@.body.len(),
                k <= body_len,
                result == (body_len > 1 && exists|i: int| 0 <= i < k && #[trigger] self@.body[i].0 == self@.head.0),
            decreases body_len - k,
        {
            let p = self.part(k as u32);
            if same_pos(&p.0, &self.snake_head.0) && body_len > 1 {
                result = true;
            }
            k = k + 1;
        }
        if (self.snake_head.0[0] > SNAKE_GRID_SIZE_I32[0] - 1 || self.snake_head.0[1] > SNAKE_GRID_SIZE_I32[1] - 1)
            || (self.snake_head.0[0] < 0 || self.snake_head.0[1] < 0) {
            result = true
        }
        result
    }

    /// Eats the apple if the head is on it: the snake grows by one part and
    /// the apple goes to a random cell other than the head's.
    pub(crate) fn eat(&mut self) -> (ate: bool)
        requires
            old(self).wf(),
            old(self)@.body.len() < u32::MAX,
        ensures
            final(self).wf(),
            ate == (old(self)@.head.0 == old(self)@.apple),
            exists|a: Pos| apple_ok(old(self)@, a) && final(self)@ == after_eating(old(self)@, a),
    {
        let ghost s0 = self@;
        if same_pos(&self.snake_head.0, &self.apple_pos) {
            self.grow();
            let mut rng = thread_rng();
            let head = self.snake_head.0;
            let bound: u32 = if on_board(&head) { 899 } else { 900 };
            let draw = gen_below(&mut rng, bound);
            self.apple_pos = place_apple(head, draw);
            assert(apple_ok(s0, self.apple_pos));
            assert(self@ == after_eating(s0, self.apple_pos));
            return true;
        }
        assert(apple_ok(s0, s0.apple));
        false
    }

    /// The head moves by its velocity; `reset` is raised when the snake dies
    /// there; the body follows.
    pub(crate) fn advance(&mut self, reset: &mut bool)
        requires
            old(self).wf(),
            sum_fits(old(self).snake_head.0, old(self).snake_head.2),
        ensures
            final(self).wf(),
            final(self)@ == moved_on(old(self)@).0,
            *final(reset) == (*old(reset) || moved_on(old(self)@).1),
    {
        let ghost s0 = self@;
        self.snake_head.1 = self.snake_head.0;
        self.snake_head.0 = add_arrays(self.snake_head.0, self.snake_head.2);
        assert(self@ == advanced(s0));
        if self.check_death() {
            *reset = true;
        }
        if !self.snake_body.is_empty() {
            self.cycle_body();
        }
    }

    /// One move of a snake that follows no path: eat if the head is on the
    /// apple, advance, and raise `reset` on death.
    pub(crate) fn move_without_path(&mut self, reset: &mut bool)
        requires
            old(self).wf(),
            can_step(old(self)@),
        ensures
            final(self).wf(),
            exists|a: Pos|
                apple_ok(old(self)@, a) && final(self)@ == step(old(self)@, a).0 && *final(reset) == (
                *old(reset) || step(old(self)@, a).1),
    {
        let ghost s0 = self@;
        self.eat();
        let ghost a = self.apple_pos;
        self.advance(reset);
        assert(apple_ok(s0, a));
    }

    /// Eats the apple if the head is on it; then, given a path, searches for
    /// a new path to the apple and points the head along the path's next
    /// step.
    fn eat_apple(&mut self, path: Option<&mut Path>) -> (ate: bool)
        requires
            old(self).wf(),
            old(self)@.body.len() < u32::MAX,
            path matches Some(p) ==> path_search_ok(old(self)@, p@),
        ensures
            final(self).wf(),
            ate == (old(self)@.head.0 == old(self)@.apple),
            path is None ==> exists|a: Pos|
                apple_ok(old(self)@, a) && final(self)@ == after_eating(old(self)@, a),
            path matches Some(p) ==> exists|a: Pos, q: PathView|
                #![trigger after_eating(old(self)@, a), searched(after_eating(old(self)@, a), p@, q)]
                apple_ok(old(self)@, a) && searched(after_eating(old(self)@, a), p@, q) && (
                final(self)@,
                final(p)@,
            ) == followed(after_eating(old(self)@, a), q),
    {
        let ghost s0 = self@;
        let ate = self.eat();
        let ghost e = self@;
        let ghost a = self.apple_pos;
        match path {
            Some(p) => {
                let ghost p0 = p@;
                p.generate_path(self);
                let ghost q = p@;
                self.follow_path(p);
                assert(searched(after_eating(s0, a), p0, q));
            },
            None => {},
        }
        ate
    }

    /// One move of the game: eat if the head is on the apple (then, given a
    /// path, search for a new one and follow its next step), advance the
    /// head, raise `reset` if the snake died, and pull the body along.
    pub fn move_snake_head(&mut self, reset: &mut bool, path: Option<&mut Path>)
        requires
            old(self).wf(),
            path is None ==> can_step(old(self)@),
            path matches Some(p) ==> path_search_ok(old(self)@, p@) && sum_fits(
                old(self)@.head.0,
                followed(old(self)@, p@).0.head.2,
            ),
        ensures
            final(self).wf(),
            path is None ==> exists|a: Pos|
                apple_ok(old(self)@, a) && final(self)@ == step(old(self)@, a).0 && *final(reset) == (
                *old(reset) || step(old(self)@, a).1),
            path matches Some(p) ==> exists|a: Pos, q: PathView|
                #![trigger after_eating(old(self)@, a), searched(after_eating(old(self)@, a), p@, q)]
                apple_ok(old(self)@, a) && searched(after_eating(old(self)@, a), p@, q) && final(p)@
                    == followed(after_eating(old(self)@, a), q).1 && final(self)@ == moved_on(
                    followed(after_eating(old(self)@, a), q).0,
                ).0 && *final(reset) == (*old(reset) || moved_on(
                    followed(after_eating(old(self)@, a), q).0,
                ).1),
    {
        let ghost s0 = self@;
        let ghost is_none = path is None;
        proof {
            if !is_none {
                assert(s0.body.len() < u32::MAX);
            }
        }
        match path {
            Some(p) => {
                let ghost p0 = p@;
                self.eat_apple(Some(p));
                proof {
                    let (a, q) = choose|a: Pos, q: PathView|
                        #![trigger after_eating(s0, a), searched(after_eating(s0, a), p0, q)]
                        apple_ok(s0, a) && searched(after_eating(s0, a), p0, q) && (self@, p@)
                            == followed(after_eating(s0, a), q);
                    if path_to_apple(after_eating(s0, a), q) && q.steps.len() <= 899 && by_the_board(s0.head.0) {
                        lemma_manhattan_zero(after_eating(s0, a).head.0, after_eating(s0, a).apple);
                        assert(greedy(after_eating(s0, a), q.steps));
                        assert(is_move(q.steps[0]));
                        assert(self@.head.2 == q.steps[0]);
                    } else {
                        assert(q == p0);
                        assert(self@.head.2 == followed(s0, p0).0.head.2);
                    }
                    assert(self@.head.0 == s0.head.0);
                }
                self.advance(reset);
            },
            None => {
                self.eat_apple(None);
                self.advance(reset);
            },
        }
    }

    /// Draws the apple in red, then the head and every body part in yellow,
    /// each cell as 5 x 5 pixels.
    pub fn draw_snake(&self, pixel_buffer: &mut PixelBuffer)
        requires
            cell_drawable(self.apple_pos),
            cell_drawable(self.snake_head.0),
            forall|b: SnakeBodyPart| #[trigger] self.snake_body@.values().contains(b) ==> cell_drawable(b.0),
        ensures
            forall|j: int|
                0 <= j < PALLET_BYTES ==> #[trigger] final(pixel_buffer).pixels@[j] == drawn_byte(
                    old(pixel_buffer).pixels@,
                    self.apple_pos,
                    self.snake_head.0,
                    self.snake_body@.values(),
                    j,
                ),
    {
        let ghost old_px = pixel_buffer.pixels@;
        let ghost apple = self.apple_pos;
        let ghost head = self.snake_head.0;
        let ghost vals = self.snake_body@.values();
        let ghost mut seen: Set<SnakeBodyPart> = Set::empty();
        pixel_buffer.set_rect(
            Self::to_grid_pos(self.apple_pos[0]),
            Self::to_grid_pos(self.apple_pos[1]),
            5,
            5,
            [255, 0, 0],
        );
        pixel_buffer.set_rect(
            Self::to_grid_pos(self.snake_head.0[0]),
            Self::to_grid_pos(self.snake_head.0[1]),
            5,
            5,
            [255, 255, 0],
        );
        for f in it: self.snake_body.values()
            invariant
                it.seq() == spec_values_iter(&self.snake_body).remaining(),
                it.seq().unref().to_set() == vals,
                seen == it.seq().unref().take(it.index()).to_set(),
                it.index() == it.seq().len() ==> seen == vals,
                forall|b: SnakeBodyPart| #[trigger] vals.contains(b) ==> cell_drawable(b.0),
                pixel_buffer.pixels@.len() == PALLET_BYTES,
                forall|j: int|
                    0 <= j < PALLET_BYTES ==> #[trigger] pixel_buffer.pixels@[j] == drawn_byte(
                        old_px,
                        apple,
                        head,
                        seen,
                        j,
                    ),
            ensures
                seen == vals,
                forall|j: int|
                    0 <= j < PALLET_BYTES ==> #[trigger] pixel_buffer.pixels@[j] == drawn_byte(
                        old_px,
                        apple,
                        head,
                        seen,
                        j,
                    ),
        {
            proof {
                broadcast use vstd::seq::Seq::lemma_push_to_set_commute;

                assert(it.seq().unref()[it.index()] == *f);
                assert(it.seq().unref().take(it.index() + 1) =~= it.seq().unref().take(it.index()).push(*f));
                assert(it.index() + 1 == it.seq().len() ==> it.seq().unref().take(it.index() + 1) =~= it.seq().unref());
                assert(it.seq().unref().to_set().contains(*f));
                assert(vals.contains(*f));
            }
            pixel_buffer.set_rect(((f.0[0] * 5) + 25) as i32, ((f.0[1] * 5) + 25) as i32, 5, 5, [255, 255, 0]);
            proof {
                let s1 = seen;
                let s2 = seen.insert(*f);
                assert forall|j: int| 0 <= j < PALLET_BYTES implies #[trigger] pixel_buffer.pixels@[j] == drawn_byte(
                    old_px,
                    apple,
                    head,
                    s2,
                    j,
                ) by {
                    if j >= 3 && cell_covers(f.0, (j - 3) / 3) {
                        assert(s2.contains(*f));
                    } else if j >= 3 && exists|b: SnakeBodyPart| s2.contains(b) && #[trigger] cell_covers(b.0, (j - 3) / 3) {
                        let b = choose|b: SnakeBodyPart| s2.contains(b) && #[trigger] cell_covers(b.0, (j - 3) / 3);
                        assert(s1.contains(b));
                    } else if j >= 3 && exists|b: SnakeBodyPart| s1.contains(b) && #[trigger] cell_covers(b.0, (j - 3) / 3) {
                        let b = choose|b: SnakeBodyPart| s1.contains(b) && #[trigger] cell_covers(b.0, (j - 3) / 3);
                        assert(s2.contains(b));
                    }
                }
                seen = s2;
            }
        }
    }

    /// Moves every body part to where the part before it was, the first one
    /// to where the head was.
    fn cycle_body(&mut self)
        requires
            old(self).wf(),
        ensures
            final(self).wf(),
            final(self)@ == cycled(old(self)@),
    {
        let ghost s0 = self@;
        let n = self.snake_body.len();
        let mut changes: Vec<u32> = Vec::new();
        let mut k: usize = 0;
        while k < n
            invariant
                self.wf(),
                n == self@.body.len(),
                k <= n,
                self@.head == s0.head,
                self@.apple == s0.apple,
                changes@.len() == if k == 0 { 0 } else { k - 1 },
                forall|j: int| 0 <= j < changes@.len() ==> changes@[j] == j + 1,
                forall|j: int|
                    0 <= j < k ==> #[trigger] self@.body[j] == (
                    if j == 0 { s0.head.1 } else { s0.body[j].0 },
                    s0.body[j].0,
                    s0.body[j].2,
                ),
                forall|j: int| k <= j < n ==> #[trigger] self@.body[j] == s0.body[j],
            decreases n - k,
        {
            let p = self.part(k as u32);
            let moved;
            if k == 0 {
                moved = (self.snake_head.1, p.0, p.2);
            } else {
                changes.push(k as u32);
                moved = (p.0, p.0, p.2);
            }
            let ghost m0 = self.snake_body@;
            self.snake_body.insert(k as u32, moved);
            proof {
                let m1 = self.snake_body@;
                assert(m1.dom() =~= m0.dom());
                assert(body_seq(m1) =~= body_seq(m0).update(k as int, moved));
            }
            k = k + 1;
        }
        let mut c: usize = 0;
        while c < changes.len()
            invariant
                self.wf(),
                n == self@.body.len(),
                changes@.len() == if n == 0 { 0 } else { n - 1 },
                forall|j: int| 0 <= j < changes@.len() ==> changes@[j] == j + 1,
                c <= changes@.len(),
                self@.head == s0.head,
                self@.apple == s0.apple,
                forall|j: int|
                    0 <= j < n ==> (#[trigger] self@.body[j]).1 == s0.body[j].0 && self@.body[j].2 == s0.body[j].2,
                self@.body.len() > 0 ==> self@.body[0].0 == s0.head.1,
                forall|j: int| 1 <= j <= c ==> (#[trigger] self@.body[j]).0 == s0.body[j - 1].0,
            decreases changes@.len() - c,
        {
            let i = changes[c];
            let prev = self.part(i - 1);
            let cur = self.part(i);
            let ghost m0 = self.snake_body@;
            self.snake_body.insert(i, (prev.1, cur.1, cur.2));
            proof {
                let m1 = self.snake_body@;
                assert(m1.dom() =~= m0.dom());
                assert(body_seq(m1) =~= body_seq(m0).update(i as int, (prev.1, cur.1, cur.2)));
            }
            c = c + 1;
        }
        assert(self@.body =~= cycled(s0).body);
    }
}

/// Places the apple on the cell that the draw `draw` stands for (see
/// `apple_cell`): with `draw` uniform over `0..free_cells(head)`, every cell
/// but the head's is equally likely.
pub fn place_apple(head: [i32; 2], draw: u32) -> (apple: [i32; 2])
    requires
        draw < free_cells(head),
    ensures
        apple == apple_cell(head, draw as int),
        in_grid(apple),
        apple != head,
{
    let in_board = 0 <= head[0] && head[0] < 30 && 0 <= head[1] && head[1] < 30;
    let mut idx: u32 = draw;
    if in_board && draw as i64 >= head[1] as i64 * 30 + head[0] as i64 {
        idx = draw + 1;
    }
    let apple = [(idx % 30) as i32, (idx / 30) as i32];
    assert(apple =~= apple_cell(head, draw as int));
    proof {
        if in_board {
            assert(idx != cell_index(head));
            assert(apple[1] * 30 + apple[0] == idx);
            if apple == head {
                assert(cell_index(head) == idx);
            }
        }
    }
    apple
}

} // verus!

verus! {

/// A move grows the body by one part when the head starts on the apple,
/// and otherwise keeps its length.
pub proof fn law_step_length(s: SnakeView, a: Pos)
    ensures
        step(s, a).0.body.len() == s.body.len() + if s.head.0 == s.apple { 1int } else { 0int },
{
}

/// A move takes the head one velocity further, and the head remembers the
/// cell it left.
pub proof fn law_head_moves_by_velocity(s: SnakeView, a: Pos)
    ensures
        step(s, a).0.head.0 == spec_add(s.head.0, s.head.2),
        step(s, a).0.head.1 == s.head.0,
        step(s, a).0.head.2 == s.head.2,
{
}

/// After a move each body part is where the part before it was, the first
/// where the head was; a part added by eating starts on the old tail's (or
/// the head's) cell.
pub proof fn law_body_follows(s: SnakeView, a: Pos, k: int)
    requires
        0 <= k < step(s, a).0.body.len(),
    ensures
        k == 0 ==> step(s, a).0.body[k].0 == s.head.0,
        0 < k < s.body.len() ==> step(s, a).0.body[k].0 == s.body[k - 1].0,
        k == s.body.len() && k > 0 ==> step(s, a).0.body[k].0 == s.body[k - 1].0,
        k < s.body.len() ==> step(s, a).0.body[k].1 == s.body[k].0,
{
}

/// Once eaten, the apple lies on the board and not under the head.
pub proof fn law_eaten_apple_moves_away(s: SnakeView, a: Pos)
    requires
        apple_ok(s, a),
        s.head.0 == s.apple,
    ensures
        in_grid(after_eating(s, a).apple),
        after_eating(s, a).apple != s.head.0,
        after_eating(s, a).body.len() == s.body.len() + 1,
{
}

/// Distinct draws place the apple on distinct cells, and every cell of the
/// board but the head's is the place of some draw: a uniform draw puts the
/// apple on each free cell with the same chance.
pub proof fn law_apple_cells_one_to_one(head: Pos, d1: int, d2: int, c: Pos)
    requires
        0 <= d1 < free_cells(head),
        0 <= d2 < free_cells(head),
    ensures
        d1 != d2 ==> apple_cell(head, d1) != apple_cell(head, d2),
        in_grid(c) && c != head ==> exists|d: int| 0 <= d < free_cells(head) && #[trigger] apple_cell(head, d) == c,
{
    let i1 = if in_grid(head) && d1 >= cell_index(head) { d1 + 1 } else { d1 };
    let i2 = if in_grid(head) && d2 >= cell_index(head) { d2 + 1 } else { d2 };
    if d1 != d2 && apple_cell(head, d1) == apple_cell(head, d2) {
        assert(apple_cell(head, d1)[0] == i1 % 30 && apple_cell(head, d1)[1] == i1 / 30);
        assert(apple_cell(head, d2)[0] == i2 % 30 && apple_cell(head, d2)[1] == i2 / 30);
        assert(i1 == (i1 / 30) * 30 + i1 % 30);
        assert(i2 == (i2 / 30) * 30 + i2 % 30);
        assert(i1 == i2);
    }
    if in_grid(c) && c != head {
        let ci = cell_index(c);
        let d = if in_grid(head) && ci > cell_index(head) { ci - 1 } else { ci };
        if in_grid(head) {
            assert(ci != cell_index(head)) by {
                if ci == cell_index(head) {
                    assert(c[0] == head[0]);
                    assert(c =~= head);
                }
            }
        }
        assert(ci % 30 == c[0] && ci / 30 == c[1]);
        assert(apple_cell(head, d) =~= c);
    }
}

/// The linear index, in the 200-pixel-wide buffer, of the pixel `(i, u)`
/// of the 5 x 5 square at `(5 * p[0] + 25, 5 * p[1] + 25)` that shows
/// cell `p`.
pub open spec fn pixel_index(p: Pos, i: int, u: int) -> int {
    200 * (5 * p[1] + 25 + u) + (5 * p[0] + 25 + i)
}

/// Pixel `lin` lies in the square of cell `p`.
pub open spec fn in_square(p: Pos, lin: int) -> bool {
    exists|i: int, u: int| 0 <= i < 5 && 0 <= u < 5 && #[trigger] pixel_index(p, i, u) == lin
}

/// Byte `c` of pixel `lin` sits at `3 * lin + 3 + c`.
proof fn lemma_pixel_byte(lin: int, c: int)
    requires
        0 <= lin,
        0 <= c < 3,
    ensures
        (3 * lin + 3 + c - 3) / 3 == lin,
        (3 * lin + 3 + c - 3) % 3 == c,
        3 * lin + 3 + c >= 3,
{
    assert((3 * lin + c) / 3 == lin && (3 * lin + c) % 3 == c) by (nonlinear_arith)
        requires
            0 <= lin,
            0 <= c < 3,
    ;
}

/// `in_square` is what the drawing's own test of a cell says.
proof fn lemma_in_square(p: Pos, lin: int)
    ensures
        in_square(p, lin) == cell_covers(p, lin),
{
    if in_square(p, lin) {
        let (i, u) = choose|i: int, u: int| 0 <= i < 5 && 0 <= u < 5 && #[trigger] pixel_index(p, i, u) == lin;
        assert(200 * (p[1] * 5 + 25 + u) + (p[0] * 5 + 25 + i) == lin);
    }
    if cell_covers(p, lin) {
        let (i, u) = choose|i: int, u: int|
            0 <= i < 5 && 0 <= u < 5 && #[trigger] (200 * (p[1] * 5 + 25 + u) + (p[0] * 5 + 25 + i)) == lin;
        assert(pixel_index(p, i, u) == lin);
    }
}

/// Every pixel of the apple's square that no square of the head or of a
/// body part covers is drawn red.
pub proof fn law_apple_drawn_red(
    old: Seq<u8>,
    apple: Pos,
    head: Pos,
    body: Set<SnakeBodyPart>,
    i: int,
    u: int,
    c: int,
)
    requires
        0 <= i < 5,
        0 <= u < 5,
        0 <= c < 3,
        0 <= pixel_index(apple, i, u),
        !in_square(head, pixel_index(apple, i, u)),
        forall|b: SnakeBodyPart| body.contains(b) ==> !#[trigger] in_square(b.0, pixel_index(apple, i, u)),
    ensures
        drawn_byte(old, apple, head, body, 3 * pixel_index(apple, i, u) + 3 + c) == (if c == 0 {
            255u8
        } else {
            0u8
        }),
{
    let lin = pixel_index(apple, i, u);
    lemma_pixel_byte(lin, c);
    lemma_in_square(apple, lin);
    lemma_in_square(head, lin);
    assert(in_square(apple, lin));
    assert forall|b: SnakeBodyPart| body.contains(b) implies !cell_covers(b.0, lin) by {
        lemma_in_square(b.0, lin);
    }
}

/// Every pixel of the square of the head or of a body part is drawn yellow.
pub proof fn law_snake_drawn_yellow(
    old: Seq<u8>,
    apple: Pos,
    head: Pos,
    body: Set<SnakeBodyPart>,
    p: Pos,
    i: int,
    u: int,
    c: int,
)
    requires
        p == head || exists|b: SnakeBodyPart| body.contains(b) && b.0 == p,
        0 <= i < 5,
        0 <= u < 5,
        0 <= c < 3,
        0 <= pixel_index(p, i, u),
    ensures
        drawn_byte(old, apple, head, body, 3 * pixel_index(p, i, u) + 3 + c) == (if c == 2 {
            0u8
        } else {
            255u8
        }),
{
    let lin = pixel_index(p, i, u);
    lemma_pixel_byte(lin, c);
    lemma_in_square(p, lin);
    assert(in_square(p, lin));
    if p != head {
        let b = choose|b: SnakeBodyPart| body.contains(b) && b.0 == p;
        assert(cell_covers(b.0, lin));
    }
}

/// Drawing changes no byte outside the squares of the apple, the head and
/// the body parts.
pub proof fn law_drawing_leaves_the_rest(
    old: Seq<u8>,
    apple: Pos,
    head: Pos,
    body: Set<SnakeBodyPart>,
    j: int,
)
    requires
        j < 3 || (!in_square(apple, (j - 3) / 3) && !in_square(head, (j - 3) / 3) && forall|b: SnakeBodyPart|
            body.contains(b) ==> !#[trigger] in_square(b.0, (j - 3) / 3)),
    ensures
        drawn_byte(old, apple, head, body, j) == old[j],
{
    if j >= 3 {
        let lin = (j - 3) / 3;
        lemma_in_square(apple, lin);
        lemma_in_square(head, lin);
        assert forall|b: SnakeBodyPart| body.contains(b) implies !cell_covers(b.0, lin) by {
            lemma_in_square(b.0, lin);
        }
    }
}

/// Whenever some path of moves towards the apple, each bringing the head
/// one cell nearer, gets the head onto the apple alive, at whatever
/// distance, the path that a move's search leaves behind is such a path,
/// untaken, and following it points the head along its first move.
pub proof fn law_replanning_heads_for_the_apple(s: SnakeView, p: PathView, q: PathView, w: Seq<Pos>)
    requires
        s.head.0 != s.apple,
        greedy(s, w),
        w.len() == manhattan(s.head.0, s.apple),
        lands_on_apple(s, w),
        searched(s, p, q),
    ensures
        q.steps_taken == 0,
        greedy(s, q.steps),
        q.steps.len() == manhattan(s.head.0, s.apple),
        lands_on_apple(s, q.steps),
        followed(s, q).0.head.2 == q.steps[0],
        followed(s, q).0.head.0 == s.head.0,
        followed(s, q).1.steps == q.steps,
        followed(s, q).1.steps_taken == 1,
{
    assert(greedy_to_apple(s, w));
    assert(apple_within_reach(s));
    lemma_manhattan_zero(s.head.0, s.apple);
}

} // verus!
