use vstd::prelude::*;

verus! {

/// What a single board cell holds.
#[derive(Clone, Copy, PartialEq, Eq, Structural, Debug)]
pub enum TileState {
    Food,
    Empty,
    SnakeBody,
    SnakeHead,
}

/// The direction the snake will move on the next tick.
#[derive(Clone, Copy, PartialEq, Eq, Structural, Debug)]
pub enum Facing {
    Up,
    Down,
    Left,
    Right,
}

/// The per-tick result: the snake moved onto an empty cell, moved onto food
/// and grew, or hit a wall or its own body and the game is over.
#[derive(Clone, Copy, PartialEq, Eq, Structural, Debug)]
pub enum Outcome {
    Continue,
    Grew,
    GameOver,
}

/// A cell coordinate: `x` increases rightward, `y` upward.
#[derive(Clone, Copy, PartialEq, Eq, Structural, Debug)]
pub struct Pos {
    pub x: usize,
    pub y: usize,
}

/// The exact reverse of a direction.
pub open spec fn opposite(f: Facing) -> Facing {
    match f {
        Facing::Up => Facing::Down,
        Facing::Down => Facing::Up,
        Facing::Left => Facing::Right,
        Facing::Right => Facing::Left,
    }
}

/// The exact reverse of a direction; a `set_facing` request for it is refused.
pub fn opposite_facing(f: Facing) -> (r: Facing)
    ensures
        r == opposite(f),
{
    match f {
        Facing::Up => Facing::Down,
        Facing::Down => Facing::Up,
        Facing::Left => Facing::Right,
        Facing::Right => Facing::Left,
    }
}

} // verus!
