use snake::game::Game;
use snake::tile::{opposite_facing, Facing, Outcome, Pos, TileState};

fn snapshot(game: &Game) -> Vec<TileState> {
    let mut tiles = Vec::new();
    for y in 0..game.height() {
        for x in 0..game.width() {
            tiles.push(game.tile_at(x, y));
        }
    }
    tiles
}

fn count_food(game: &Game) -> usize {
    let mut n = 0;
    for y in 0..game.height() {
        for x in 0..game.width() {
            if game.tile_at(x, y) == TileState::Food {
                n += 1;
            }
        }
    }
    n
}

#[test]
fn fresh_board_layout() {
    let game = Game::new(8, 8, 3);
    assert_eq!(game.width(), 8);
    assert_eq!(game.height(), 8);
    assert_eq!(game.length(), 3);
    assert_eq!(game.head_position(), Pos { x: 0, y: 0 });
    assert_eq!(game.facing(), Facing::Up);
    assert_eq!(game.prev_facing(), Facing::Right);
    assert_eq!(game.tail_len(), 0);
    assert_eq!(game.tile_at(0, 0), TileState::SnakeHead);
    for y in 0..8 {
        for x in 0..8 {
            if (x, y) != (0, 0) {
                assert_eq!(game.tile_at(x, y), TileState::Empty);
            }
        }
    }
}

#[test]
fn opposites() {
    assert_eq!(opposite_facing(Facing::Up), Facing::Down);
    assert_eq!(opposite_facing(Facing::Down), Facing::Up);
    assert_eq!(opposite_facing(Facing::Left), Facing::Right);
    assert_eq!(opposite_facing(Facing::Right), Facing::Left);
}

#[test]
fn three_steps_right() {
    let mut game = Game::new(8, 8, 3);
    game.set_facing(Facing::Right);
    assert_eq!(game.facing(), Facing::Right);

    assert_eq!(game.step(), Outcome::Continue);
    assert_eq!(game.head_position(), Pos { x: 1, y: 0 });
    assert_eq!(game.step(), Outcome::Continue);
    assert_eq!(game.head_position(), Pos { x: 2, y: 0 });
    assert_eq!(game.step(), Outcome::Continue);
    assert_eq!(game.head_position(), Pos { x: 3, y: 0 });

    assert_eq!(game.tail_len(), 3);
    assert_eq!(game.tail_at(0), Pos { x: 0, y: 0 });
    assert_eq!(game.tail_at(1), Pos { x: 1, y: 0 });
    assert_eq!(game.tail_at(2), Pos { x: 2, y: 0 });

    assert_eq!(game.tile_at(3, 0), TileState::SnakeHead);
    assert_eq!(game.tile_at(1, 0), TileState::SnakeBody);
    assert_eq!(game.tile_at(2, 0), TileState::SnakeBody);
    // (0, 0) is still in the trimmed tail (three entries, length 3), so it
    // stays a body cell this tick and is freed on the next move.
    assert_eq!(game.tile_at(0, 0), TileState::SnakeBody);
    for y in 1..8 {
        for x in 0..8 {
            assert_eq!(game.tile_at(x, y), TileState::Empty);
        }
    }
}

#[test]
fn trimming_frees_the_oldest_cell() {
    let mut game = Game::new(8, 8, 3);
    game.set_facing(Facing::Right);
    for _ in 0..4 {
        assert_eq!(game.step(), Outcome::Continue);
    }
    // After four moves the tail is trimmed back to three entries.
    assert_eq!(game.head_position(), Pos { x: 4, y: 0 });
    assert_eq!(game.tail_len(), 3);
    assert_eq!(game.tail_at(0), Pos { x: 1, y: 0 });
    assert_eq!(game.tail_at(1), Pos { x: 2, y: 0 });
    assert_eq!(game.tail_at(2), Pos { x: 3, y: 0 });
    assert_eq!(game.tile_at(0, 0), TileState::Empty);
    assert_eq!(game.tile_at(1, 0), TileState::SnakeBody);
    assert_eq!(game.tile_at(2, 0), TileState::SnakeBody);
    assert_eq!(game.tile_at(3, 0), TileState::SnakeBody);
    assert_eq!(game.tile_at(4, 0), TileState::SnakeHead);
}

#[test]
fn food_pickup_grows() {
    let mut game = Game::new(8, 8, 3);
    game.set_facing(Facing::Right);
    for _ in 0..3 {
        assert_eq!(game.step(), Outcome::Continue);
    }
    // Place food directly ahead of the head, at (4, 0): flat index 4.
    assert!(game.try_place_food(4));
    assert_eq!(game.tile_at(4, 0), TileState::Food);
    assert_eq!(count_food(&game), 1);

    assert_eq!(game.step(), Outcome::Grew);
    assert_eq!(game.length(), 4);
    assert_eq!(game.head_position(), Pos { x: 4, y: 0 });
    // The tail is not trimmed on the growth tick: it keeps one extra entry.
    assert_eq!(game.tail_len(), 4);
    // Exactly one new food item appeared, on a cell free of the snake.
    assert_eq!(count_food(&game), 1);
    for y in 0..8 {
        for x in 0..8 {
            if game.tile_at(x, y) == TileState::Food {
                assert!((x, y) != (4, 0));
            }
        }
    }
}

#[test]
fn try_place_food_refuses_snake_cells() {
    let mut game = Game::new(8, 8, 3);
    let before = snapshot(&game);
    // Flat index 0 is the head cell.
    assert!(!game.try_place_food(0));
    assert_eq!(snapshot(&game), before);
}

#[test]
fn place_food_takes_the_only_free_cell() {
    let mut game = Game::new(1, 2, 3);
    game.place_food();
    assert_eq!(game.tile_at(0, 0), TileState::SnakeHead);
    assert_eq!(game.tile_at(0, 1), TileState::Food);
}

#[test]
fn no_reversal_is_refused() {
    let mut game = Game::new(8, 8, 3);
    // Initially the last tick counts as Right, so Left is refused.
    game.set_facing(Facing::Left);
    assert_eq!(game.facing(), Facing::Up);

    assert_eq!(game.step(), Outcome::Continue);
    assert_eq!(game.prev_facing(), Facing::Up);
    // Facing and previous facing agree; the exact reverse is refused.
    game.set_facing(Facing::Down);
    assert_eq!(game.facing(), Facing::Up);
    // A quarter turn is accepted.
    game.set_facing(Facing::Right);
    assert_eq!(game.facing(), Facing::Right);
}

#[test]
fn edge_collision_leaves_state_unchanged() {
    let mut game = Game::new(8, 8, 3);
    assert_eq!(game.step(), Outcome::Continue);
    game.set_facing(Facing::Left);
    let before = snapshot(&game);
    // Head at (0, 1) facing Left: the step goes off-board.
    assert_eq!(game.step(), Outcome::GameOver);
    assert_eq!(snapshot(&game), before);
    assert_eq!(game.head_position(), Pos { x: 0, y: 1 });
    assert_eq!(game.length(), 3);
    assert_eq!(game.tail_len(), 1);
    // The wall is detected before the tick starts, so nothing is recorded.
    assert_eq!(game.prev_facing(), Facing::Up);
}

#[test]
fn bottom_edge_blocks_downward_step() {
    let mut game = Game::new(8, 8, 3);
    game.set_facing(Facing::Down);
    let before = snapshot(&game);
    assert_eq!(game.step(), Outcome::GameOver);
    assert_eq!(snapshot(&game), before);
    assert_eq!(game.head_position(), Pos { x: 0, y: 0 });
}

#[test]
fn top_edge_blocks_after_full_climb() {
    let mut game = Game::new(8, 8, 3);
    for y in 1..8 {
        assert_eq!(game.step(), Outcome::Continue);
        assert_eq!(game.head_position(), Pos { x: 0, y });
    }
    let before = snapshot(&game);
    assert_eq!(game.step(), Outcome::GameOver);
    assert_eq!(snapshot(&game), before);
}

#[test]
fn self_collision_ends_the_game() {
    let mut game = Game::new(8, 8, 5);
    game.set_facing(Facing::Right);
    assert_eq!(game.step(), Outcome::Continue);
    assert_eq!(game.step(), Outcome::Continue);
    game.set_facing(Facing::Up);
    assert_eq!(game.step(), Outcome::Continue);
    game.set_facing(Facing::Left);
    assert_eq!(game.step(), Outcome::Continue);
    assert_eq!(game.head_position(), Pos { x: 1, y: 1 });
    // The cell below the head, (1, 0), is part of the body.
    assert_eq!(game.tile_at(1, 0), TileState::SnakeBody);
    game.set_facing(Facing::Down);
    let before = snapshot(&game);
    assert_eq!(game.step(), Outcome::GameOver);
    assert_eq!(snapshot(&game), before);
    assert_eq!(game.head_position(), Pos { x: 1, y: 1 });
    assert_eq!(game.length(), 5);
    // The collision happened in bounds, so the facing used is recorded.
    assert_eq!(game.prev_facing(), Facing::Down);
}

#[test]
fn growth_tick_is_reproducible_with_injected_draws() {
    let mut game = Game::new(8, 8, 3);
    game.set_facing(Facing::Right);
    // Food at (1, 0): flat index 1.
    assert!(game.try_place_food(1));
    assert_eq!(game.step_without_food(), Outcome::Grew);
    assert_eq!(game.length(), 4);
    assert_eq!(game.head_position(), Pos { x: 1, y: 0 });
    // The move left the board food-free; the caller injects the next draw.
    assert_eq!(count_food(&game), 0);
    // Draw (5, 5): flat index 5 + 5 * 8.
    assert!(game.try_place_food(45));
    assert_eq!(game.tile_at(5, 5), TileState::Food);
    assert_eq!(count_food(&game), 1);

    // Replaying the same inputs and draws gives the identical state.
    let mut replay = Game::new(8, 8, 3);
    replay.set_facing(Facing::Right);
    assert!(replay.try_place_food(1));
    assert_eq!(replay.step_without_food(), Outcome::Grew);
    assert!(replay.try_place_food(45));
    assert_eq!(snapshot(&game), snapshot(&replay));
    assert_eq!(game.head_position(), replay.head_position());
    assert_eq!(game.length(), replay.length());
    assert_eq!(game.tail_len(), replay.tail_len());
    assert_eq!(game.facing(), replay.facing());
    assert_eq!(game.prev_facing(), replay.prev_facing());
}
