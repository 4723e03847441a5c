//! The four unit steps on the grid.
use vstd::prelude::*;

verus! {

#[derive(Clone, Copy, Debug, PartialEq, Eq, Structural)]
pub enum Direction {
    Up,
    Down,
    Left,
    Right,
}

impl Direction {
    /// The step as (columns, rows); rows grow downwards.
    pub open spec fn vector(self) -> (i32, i32) {
        match self {
            Direction::Up => (0i32, -1i32),
            Direction::Down => (0i32, 1i32),
            Direction::Left => (-1i32, 0i32),
            Direction::Right => (1i32, 0i32),
        }
    }

    pub fn get_vector(&self) -> (r: (i32, i32))
        ensures
            r == self.vector(),
    {
        match *self {
            Direction::Up => (0, -1),
            Direction::Down => (0, 1),
            Direction::Left => (-1, 0),
            Direction::Right => (1, 0),
        }
    }

    /// All four steps, clockwise from up.
    pub fn directions() -> (r: Vec<Direction>)
        ensures
            r@ == seq![Direction::Up, Direction::Right, Direction::Down, Direction::Left],
    {
        let mut r: Vec<Direction> = Vec::new();
        r.push(Direction::Up);
        r.push(Direction::Right);
        r.push(Direction::Down);
        r.push(Direction::Left);
        proof {
            assert(r@ =~= seq![Direction::Up, Direction::Right, Direction::Down, Direction::Left]);
        }
        r
    }
}

} // verus!
