# snake_game

A snake game on a 30 x 30 board in which the snake steers itself towards the
apple. The board, the snake's moves, the apple's placement, the drawing into
the pixel buffer and the path search are a library verified with Verus; an
SDL2 window runs it.

- `src/geometry.rs`: cells, directions, squared distances.
- `src/draw.rs`: the RGB pixel buffer, pixels and rectangles.
- `src/snake.rs`: the snake, one move (eat, advance, die, pull the body),
  where a new apple goes, drawing the snake.
- `src/pathfinding.rs`: paths, playing a path on a copy of the snake, and the
  search for a shortest path to the apple among those whose every move brings
  the head closer to it.
- `src/greedy.rs`: such paths, and what playing one does.
- `src/events.rs`, `src/frame.rs`: the answer to window events and the frame
  counter's rule.
- `src/rng.rs`: the random numbers drawn with `rand`.
- `app/`: the window, the event loop and frame pacing (SDL2, clock, `f32`).

The model of a snake is `SnakeView`: head, body parts from the neck to the
tail, apple. A move is `step`; playing a path is the relation `runs`, since
an eaten apple lands on a random cell. Laws are the `law_*` proof functions.
