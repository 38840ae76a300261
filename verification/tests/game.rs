use std::collections::HashMap;

use snake_game::draw::{PixelBuffer, BG_SHADE, PALLET_BYTES};
use snake_game::frame::count_frame;
use snake_game::geometry::{
    add_arrays, on_board, same_pos, squared_distance, SNAKE_DIR_DOWN, SNAKE_DIR_LEFT, SNAKE_DIR_RIGHT,
    SNAKE_DIR_UP,
};
use snake_game::pathfinding::Path;
use snake_game::snake::{place_apple, Snake};

fn snake_at(head: [i32; 2], vel: [i32; 2], apple: [i32; 2], body: &[[i32; 2]]) -> Snake {
    let mut snake_body = HashMap::new();
    for (k, p) in body.iter().enumerate() {
        snake_body.insert(k as u32, (*p, [0, 0], [0, 0]));
    }
    Snake { snake_head: (head, [0, 0], vel), snake_body, apple_pos: apple }
}

#[test]
fn new_buffer_is_background() {
    let b = PixelBuffer::new();
    assert_eq!(b.pixels.len(), PALLET_BYTES);
    assert!(b.pixels.iter().all(|p| *p == BG_SHADE));
}

#[test]
fn set_pixel_writes_three_bytes_one_pixel_on() {
    let mut b = PixelBuffer::new();
    b.set_pixel(0, 0, [1, 2, 3]);
    assert_eq!(&b.pixels[0..6], &[100, 100, 100, 1, 2, 3]);
    b.set_pixel(2, 1, [7, 8, 9]);
    let o = (200 * 1 + 2) * 3 + 3;
    assert_eq!(&b.pixels[o..o + 3], &[7, 8, 9]);
    assert_eq!(b.pixels[o + 3], 100);
}

#[test]
fn set_rect_paints_only_the_rectangle() {
    let mut b = PixelBuffer::new();
    b.set_rect(10, 20, 3, 2, [9, 9, 9]);
    let painted = b.pixels.iter().filter(|p| **p == 9).count();
    assert_eq!(painted, 3 * 2 * 3);
    for (px, py) in [(10, 20), (12, 20), (10, 21), (12, 21)] {
        let o = (200 * py + px) * 3 + 3;
        assert_eq!(&b.pixels[o..o + 3], &[9, 9, 9]);
    }
    let o = (200 * 20 + 13) * 3 + 3;
    assert_eq!(b.pixels[o], 100);
}

#[test]
fn set_rect_empty_does_nothing() {
    let mut b = PixelBuffer::new();
    b.set_rect(-5000, -5000, 0, 4, [1, 1, 1]);
    b.set_rect(10, 10, 4, -1, [1, 1, 1]);
    assert!(b.pixels.iter().all(|p| *p == BG_SHADE));
}

#[test]
fn geometry_helpers() {
    assert_eq!(add_arrays([3, -4], SNAKE_DIR_LEFT), [2, -4]);
    assert_eq!(add_arrays([3, -4], SNAKE_DIR_DOWN), [3, -3]);
    assert!(same_pos(&[1, 2], &[1, 2]));
    assert!(!same_pos(&[1, 2], &[2, 1]));
    assert_eq!(squared_distance([0, 0], [3, 4]), 25);
    assert_eq!(squared_distance([i32::MIN, i32::MIN], [i32::MAX, i32::MAX]), 2 * (u32::MAX as i128).pow(2));
    assert!(on_board(&[0, 29]));
    assert!(!on_board(&[30, 0]));
    assert!(!on_board(&[0, -1]));
}

#[test]
fn apple_skips_the_head_cell() {
    assert_eq!(place_apple([0, 0], 0), [1, 0]);
    assert_eq!(place_apple([5, 5], 154), [4, 5]);
    assert_eq!(place_apple([5, 5], 155), [6, 5]);
    assert_eq!(place_apple([29, 29], 898), [28, 29]);
    assert_eq!(place_apple([-1, 3], 0), [0, 0]);
    assert_eq!(place_apple([-1, 3], 899), [29, 29]);
}

#[test]
fn apple_draws_cover_every_free_cell_once() {
    let head = [7, 12];
    let mut seen = std::collections::HashSet::new();
    for d in 0..899 {
        let a = place_apple(head, d);
        assert!(a != head);
        assert!(a[0] >= 0 && a[0] < 30 && a[1] >= 0 && a[1] < 30);
        assert!(seen.insert(a));
    }
    assert_eq!(seen.len(), 899);
}

#[test]
fn new_snake_stands_still_with_apple_on_board() {
    for _ in 0..50 {
        let s = Snake::new([15, 15]);
        assert_eq!(s.snake_head, ([15, 15], [0, 0], [0, 0]));
        assert!(s.snake_body.is_empty());
        assert!(on_board(&s.apple_pos));
    }
}

#[test]
fn head_moves_by_its_velocity() {
    let mut s = snake_at([5, 5], [0, 0], [20, 20], &[]);
    s.change_head_direction(&SNAKE_DIR_RIGHT);
    let mut reset = false;
    s.move_snake_head(&mut reset, None);
    assert_eq!(s.snake_head, ([6, 5], [5, 5], [1, 0]));
    assert!(!reset);
    s.change_head_direction(&SNAKE_DIR_UP);
    s.move_snake_head(&mut reset, None);
    assert_eq!(s.snake_head.0, [6, 4]);
    assert!(!reset);
}

#[test]
fn leaving_the_board_raises_reset() {
    let mut s = snake_at([29, 5], SNAKE_DIR_RIGHT, [0, 0], &[]);
    let mut reset = false;
    s.move_snake_head(&mut reset, None);
    assert_eq!(s.snake_head.0, [30, 5]);
    assert!(reset);
    let mut s = snake_at([0, 0], SNAKE_DIR_UP, [3, 3], &[]);
    let mut reset = false;
    s.move_snake_head(&mut reset, None);
    assert!(reset);
}

#[test]
fn reset_is_never_lowered() {
    let mut s = snake_at([5, 5], SNAKE_DIR_RIGHT, [20, 20], &[]);
    let mut reset = true;
    s.move_snake_head(&mut reset, None);
    assert!(reset);
}

#[test]
fn body_follows_the_head() {
    let mut s = snake_at([5, 5], SNAKE_DIR_RIGHT, [20, 20], &[[4, 5], [3, 5], [2, 5]]);
    let mut reset = false;
    s.move_snake_head(&mut reset, None);
    assert!(!reset);
    assert_eq!(s.snake_head.0, [6, 5]);
    assert_eq!(s.snake_body[&0], ([5, 5], [4, 5], [0, 0]));
    assert_eq!(s.snake_body[&1], ([4, 5], [3, 5], [0, 0]));
    assert_eq!(s.snake_body[&2], ([3, 5], [2, 5], [0, 0]));
}

#[test]
fn eating_grows_and_moves_the_apple() {
    let mut s = snake_at([5, 5], SNAKE_DIR_RIGHT, [5, 5], &[[4, 5]]);
    let mut reset = false;
    s.move_snake_head(&mut reset, None);
    assert!(!reset);
    assert_eq!(s.snake_body.len(), 2);
    assert_eq!(s.snake_head.0, [6, 5]);
    assert_eq!(s.snake_body[&0].0, [5, 5]);
    assert_eq!(s.snake_body[&1].0, [4, 5]);
    assert!(s.apple_pos != [5, 5]);
    assert!(on_board(&s.apple_pos));
}

#[test]
fn eating_without_body_adds_a_part_at_the_head() {
    let mut s = snake_at([5, 5], SNAKE_DIR_DOWN, [5, 5], &[]);
    let mut reset = false;
    s.move_snake_head(&mut reset, None);
    assert_eq!(s.snake_body.len(), 1);
    assert_eq!(s.snake_body[&0], ([5, 5], [5, 5], [0, 0]));
    assert_eq!(s.snake_head.0, [5, 6]);
    assert!(!reset);
}

#[test]
fn biting_the_body_raises_reset() {
    let mut s = snake_at([5, 5], SNAKE_DIR_DOWN, [20, 20], &[[5, 4], [4, 4], [4, 5], [4, 6], [5, 6]]);
    let mut reset = false;
    s.move_snake_head(&mut reset, None);
    assert_eq!(s.snake_head.0, [5, 6]);
    assert!(reset);
}

#[test]
fn a_single_body_part_is_never_bitten() {
    let mut s = snake_at([5, 5], SNAKE_DIR_LEFT, [20, 20], &[[4, 5]]);
    let mut reset = false;
    s.move_snake_head(&mut reset, None);
    assert_eq!(s.snake_head.0, [4, 5]);
    assert!(!reset);
}

#[test]
fn path_reverse_and_steps_taken() {
    let mut p = Path::new(vec![SNAKE_DIR_LEFT, SNAKE_DIR_UP, SNAKE_DIR_RIGHT]);
    assert_eq!(p.steps_taken(), 0);
    p.reverse();
    assert_eq!(p.steps, vec![SNAKE_DIR_RIGHT, SNAKE_DIR_UP, SNAKE_DIR_LEFT]);
    p.reverse();
    assert_eq!(p.steps, vec![SNAKE_DIR_LEFT, SNAKE_DIR_UP, SNAKE_DIR_RIGHT]);
    let mut e = Path::new(vec![]);
    e.reverse();
    assert!(e.steps.is_empty());
}

#[test]
fn follow_path_points_the_head_and_counts() {
    let mut s = snake_at([5, 5], [0, 0], [20, 20], &[]);
    let mut p = Path::new(vec![SNAKE_DIR_DOWN, SNAKE_DIR_LEFT]);
    s.follow_path(&mut p);
    assert_eq!(s.snake_head.2, SNAKE_DIR_DOWN);
    assert_eq!(p.steps_taken(), 1);
    s.follow_path(&mut p);
    assert_eq!(s.snake_head.2, SNAKE_DIR_LEFT);
    s.follow_path(&mut p);
    assert_eq!(s.snake_head.2, SNAKE_DIR_LEFT);
    assert_eq!(p.steps_taken(), 3);
}

#[test]
fn add_path_plays_a_copy() {
    let s = snake_at([5, 5], [0, 0], [20, 20], &[[4, 5]]);
    let p = Path::new(vec![SNAKE_DIR_RIGHT, SNAKE_DIR_RIGHT, SNAKE_DIR_DOWN]);
    let t = s.add_path(&p).expect("the snake survives");
    assert_eq!(t.snake_head.0, [7, 6]);
    assert_eq!(t.snake_head.2, SNAKE_DIR_DOWN);
    assert_eq!(t.snake_body[&0].0, [7, 5]);
    assert_eq!(s.snake_head.0, [5, 5]);
    let same = s.add_path(&Path::new(vec![])).expect("no step, no death");
    assert_eq!(same.snake_head, s.snake_head);
    assert_eq!(same.snake_body, s.snake_body);
}

#[test]
fn add_path_into_a_wall_is_none() {
    let s = snake_at([1, 5], [0, 0], [20, 20], &[]);
    let p = Path::new(vec![SNAKE_DIR_LEFT, SNAKE_DIR_LEFT, SNAKE_DIR_RIGHT]);
    assert!(s.add_path(&p).is_none());
}

#[test]
fn generate_path_finds_a_straight_line() {
    let mut s = snake_at([10, 10], [0, 0], [14, 10], &[]);
    let mut p = Path::new(vec![]);
    assert!(p.generate_path(&mut s));
    assert_eq!(p.steps_taken(), 0);
    assert_eq!(p.steps, vec![SNAKE_DIR_RIGHT; 4]);
    assert_eq!(s.snake_head.0, [10, 10]);
    assert_eq!(s.apple_pos, [14, 10]);
}

#[test]
fn generate_path_replaces_the_old_path() {
    let mut s = snake_at([0, 0], [0, 0], [3, 0], &[]);
    let mut p = Path::new(vec![[0, 1], [0, 1]]);
    assert!(p.generate_path(&mut s));
    assert_eq!(p.steps, vec![[1, 0], [1, 0], [1, 0]]);
    assert_eq!(p.steps_taken(), 0);
    assert_eq!(s.snake_head.0, [0, 0]);
}

#[test]
fn generated_path_takes_the_head_to_the_apple() {
    let mut s = snake_at([3, 20], [0, 0], [8, 17], &[]);
    let mut p = Path::new(vec![]);
    assert!(p.generate_path(&mut s));
    assert_eq!(p.steps.len(), 5 + 3);
    let mut head = s.snake_head.0;
    for d in p.steps.iter() {
        assert!([SNAKE_DIR_LEFT, SNAKE_DIR_RIGHT, SNAKE_DIR_UP, SNAKE_DIR_DOWN].contains(d));
        let next = add_arrays(head, *d);
        assert!(squared_distance(next, s.apple_pos) < squared_distance(head, s.apple_pos));
        head = next;
    }
    assert_eq!(head, s.apple_pos);
    let t = s.add_path(&p).expect("the path is safe");
    assert_eq!(t.snake_head.0, s.apple_pos);
}

#[test]
fn generate_path_on_the_apple_keeps_the_path() {
    let mut s = snake_at([10, 10], [0, 0], [10, 10], &[]);
    let mut p = Path::new(vec![SNAKE_DIR_UP]);
    assert!(!p.generate_path(&mut s));
    assert_eq!(p.steps, vec![SNAKE_DIR_UP]);
    assert_eq!(p.steps_taken(), 0);
    assert_eq!(s.snake_body.len(), 0);
}

#[test]
fn generate_path_keeps_the_path_when_the_apple_is_out_of_reach() {
    let mut s = snake_at([0, 5], [0, 0], [-3, 5], &[]);
    let mut p = Path::new(vec![SNAKE_DIR_UP, SNAKE_DIR_UP]);
    assert!(!p.generate_path(&mut s));
    assert_eq!(p.steps, vec![SNAKE_DIR_UP, SNAKE_DIR_UP]);
    assert_eq!(p.steps_taken(), 0);
}

#[test]
fn generate_path_on_a_diagonal() {
    let mut s = snake_at([0, 0], [0, 0], [4, 3], &[]);
    let mut p = Path::new(vec![]);
    assert!(p.generate_path(&mut s));
    assert_eq!(p.steps.len(), 7);
    assert_eq!(p.steps.iter().filter(|d| **d == SNAKE_DIR_RIGHT).count(), 4);
    assert_eq!(p.steps.iter().filter(|d| **d == SNAKE_DIR_DOWN).count(), 3);
    assert_eq!(s.add_path(&p).expect("safe").snake_head.0, [4, 3]);
}

#[test]
fn generate_path_goes_round_a_body_in_the_way() {
    let mut s = snake_at([10, 10], [0, 0], [12, 11], &[[11, 10], [12, 10], [13, 10]]);
    let mut p = Path::new(vec![]);
    assert!(p.generate_path(&mut s));
    assert_eq!(p.steps.len(), 3);
    assert_eq!(p.steps[0], SNAKE_DIR_DOWN);
    assert_eq!(s.add_path(&p).expect("safe").snake_head.0, [12, 11]);
}

#[test]
fn moving_with_a_path_follows_the_search() {
    let mut s = snake_at([10, 10], [0, 0], [10, 13], &[]);
    let mut p = Path::new(vec![]);
    let mut reset = false;
    s.move_snake_head(&mut reset, Some(&mut p));
    assert!(!reset);
    assert_eq!(s.snake_head.0, [10, 11]);
    assert_eq!(p.steps_taken(), 1);
    s.move_snake_head(&mut reset, Some(&mut p));
    assert_eq!(s.snake_head.0, [10, 12]);
}

#[test]
fn drawing_shows_apple_and_snake() {
    let s = snake_at([2, 3], [0, 0], [10, 10], &[[2, 4]]);
    let mut b = PixelBuffer::new();
    s.draw_snake(&mut b);
    let at = |x: usize, y: usize| {
        let o = (200 * y + x) * 3 + 3;
        [b.pixels[o], b.pixels[o + 1], b.pixels[o + 2]]
    };
    assert_eq!(at(10 * 5 + 25, 10 * 5 + 25), [255, 0, 0]);
    assert_eq!(at(10 * 5 + 29, 10 * 5 + 29), [255, 0, 0]);
    assert_eq!(at(2 * 5 + 25, 3 * 5 + 25), [255, 255, 0]);
    assert_eq!(at(2 * 5 + 25, 4 * 5 + 29), [255, 255, 0]);
    assert_eq!(at(0, 0), [100, 100, 100]);
}

#[test]
fn frame_counter_reports_once_a_second() {
    assert_eq!(count_frame(0, 0), (1, None));
    assert_eq!(count_frame(41, 0), (42, None));
    assert_eq!(count_frame(59, 1), (0, Some(60)));
    assert_eq!(count_frame(7, 3), (0, Some(8)));
}

#[test]
fn generate_path_next_to_the_apple_is_one_move() {
    let mut s = snake_at([10, 10], [0, 0], [11, 10], &[[9, 10]]);
    let mut p = Path::new(vec![SNAKE_DIR_UP, SNAKE_DIR_UP]);
    assert!(p.generate_path(&mut s));
    assert_eq!(p.steps, vec![SNAKE_DIR_RIGHT]);
    assert_eq!(p.steps_taken(), 0);
    let mut s = snake_at([4, 0], [0, 0], [4, 1], &[]);
    let mut p = Path::new(vec![]);
    assert!(p.generate_path(&mut s));
    assert_eq!(p.steps, vec![SNAKE_DIR_DOWN]);
}

#[test]
fn add_path_in_pieces_is_add_path_whole() {
    let s = snake_at([5, 5], [0, 0], [25, 25], &[[4, 5], [3, 5]]);
    let first = Path::new(vec![SNAKE_DIR_DOWN, SNAKE_DIR_DOWN]);
    let second = Path::new(vec![SNAKE_DIR_RIGHT, SNAKE_DIR_UP]);
    let whole = Path::new(vec![SNAKE_DIR_DOWN, SNAKE_DIR_DOWN, SNAKE_DIR_RIGHT, SNAKE_DIR_UP]);
    let a = s.add_path(&first).unwrap().add_path(&second).unwrap();
    let b = s.add_path(&whole).unwrap();
    assert_eq!(a.snake_head, b.snake_head);
    assert_eq!(a.snake_body, b.snake_body);
    assert_eq!(b.snake_head.0, [6, 6]);
}

#[test]
fn set_rect_twice_is_set_rect_once() {
    let mut once = PixelBuffer::new();
    once.set_rect(30, 40, 7, 3, [5, 6, 7]);
    let mut twice = PixelBuffer::new();
    twice.set_rect(30, 40, 7, 3, [5, 6, 7]);
    twice.set_rect(30, 40, 7, 3, [5, 6, 7]);
    assert!(once.pixels.iter().eq(twice.pixels.iter()));
}

#[test]
fn rects_in_one_colour_commute() {
    let mut a = PixelBuffer::new();
    a.set_rect(30, 40, 7, 3, [5, 6, 7]);
    a.set_rect(33, 41, 7, 3, [5, 6, 7]);
    let mut b = PixelBuffer::new();
    b.set_rect(33, 41, 7, 3, [5, 6, 7]);
    b.set_rect(30, 40, 7, 3, [5, 6, 7]);
    assert!(a.pixels.iter().eq(b.pixels.iter()));
}

#[test]
fn squared_distance_orders_like_distance() {
    let apple = [10, 10];
    let a = squared_distance([13, 14], apple);
    let b = squared_distance([12, 13], apple);
    let c = squared_distance([10, 11], apple);
    assert_eq!((a, b, c), (25, 13, 1));
    assert!(c < b && b < a && c < a);
    assert_eq!(squared_distance(apple, apple), 0);
}

#[test]
fn directions_are_reexported_where_the_snake_is() {
    assert_eq!(snake_game::snake::SNAKE_DIR_RIGHT, [1, 0]);
    assert_eq!(snake_game::snake::SNAKE_DIR_UP, [0, -1]);
    assert_eq!(snake_game::SNAKE_GRID_SIZE, [30, 30]);
    assert_eq!(snake_game::SNAKE_GRID_SIZE_I32, [30, 30]);
}

#[test]
fn a_cloned_snake_is_the_same_snake() {
    let s = snake_at([5, 6], [1, 0], [20, 21], &[[4, 6], [3, 6]]);
    let c = s.clone();
    assert_eq!(c.snake_head, s.snake_head);
    assert_eq!(c.snake_body, s.snake_body);
    assert_eq!(c.apple_pos, s.apple_pos);
}

#[test]
fn drawing_shows_every_body_part_whatever_its_key() {
    let mut snake_body = HashMap::new();
    snake_body.insert(5u32, ([7, 8], [0, 0], [0, 0]));
    snake_body.insert(9u32, ([1, 1], [0, 0], [0, 0]));
    let s = Snake { snake_head: ([3, 3], [0, 0], [0, 0]), snake_body, apple_pos: [20, 20] };
    let mut b = PixelBuffer::new();
    s.draw_snake(&mut b);
    let at = |x: usize, y: usize| {
        let o = (200 * y + x) * 3 + 3;
        [b.pixels[o], b.pixels[o + 1], b.pixels[o + 2]]
    };
    assert_eq!(at(7 * 5 + 25, 8 * 5 + 25), [255, 255, 0]);
    assert_eq!(at(1 * 5 + 29, 1 * 5 + 29), [255, 255, 0]);
    assert_eq!(at(3 * 5 + 27, 3 * 5 + 27), [255, 255, 0]);
    assert_eq!(at(20 * 5 + 25, 20 * 5 + 25), [255, 0, 0]);
    assert_eq!(at(0, 0), [100, 100, 100]);
}

#[test]
fn generate_path_branches_where_the_first_choice_dies() {
    let mut s = snake_at([5, 5], [0, 0], [8, 6], &[[4, 5], [5, 6], [8, 5], [9, 5], [10, 5]]);
    let mut p = Path::new(vec![]);
    assert!(p.generate_path(&mut s));
    assert_eq!(p.steps.len(), 4);
    assert_eq!(p.steps[0], SNAKE_DIR_RIGHT);
    assert_eq!(p.steps.iter().filter(|d| **d == SNAKE_DIR_DOWN).count(), 1);
    assert_ne!(p.steps[3], SNAKE_DIR_DOWN);
    assert_eq!(s.add_path(&p).expect("safe").snake_head.0, [8, 6]);
}

#[test]
fn generate_path_far_off_the_board_keeps_the_path() {
    let far = i32::MAX - 1;
    let mut s = snake_at([far, far], [0, 0], [far - 3, far], &[]);
    let mut p = Path::new(vec![SNAKE_DIR_UP]);
    assert!(!p.generate_path(&mut s));
    assert_eq!(p.steps, vec![SNAKE_DIR_UP]);
    assert_eq!(p.steps_taken(), 0);
    assert_eq!(s.snake_head.0, [far, far]);
}
