use vstd::prelude::*;

verus! {

/// The static parameters of a game variant: the inclusive board bounds and
/// the run length required to win.
#[derive(PartialEq, Eq, Structural, Clone, Copy, Debug)]
pub struct Game {
    pub min_x: i8,
    pub max_x: i8,
    pub min_y: i8,
    pub max_y: i8,
    pub goal: i8,
}

impl Game {
    /// The number of columns of the grid.
    pub open spec fn width(self) -> int {
        self.max_x - self.min_x + 1
    }

    /// The number of rows of the grid.
    pub open spec fn height(self) -> int {
        self.max_y - self.min_y + 1
    }

    /// The configuration invariant: the bounds are ordered and the goal is a
    /// positive run length that fits on the board.
    pub open spec fn wf(self) -> bool {
        &&& self.min_x <= self.max_x
        &&& self.min_y <= self.max_y
        &&& 1 <= self.goal
        &&& self.goal <= vstd::math::max(self.width(), self.height())
    }

    /// The 3x3 three-in-a-row variant.
    pub fn tic_tac_toe() -> (r: Game)
        ensures
            r == (Game { min_x: -1i8, max_x: 1i8, min_y: -1i8, max_y: 1i8, goal: 3i8 }),
            r.wf(),
    {
        Game { min_x: -1, max_x: 1, min_y: -1, max_y: 1, goal: 3 }
    }

    /// The 15x15 five-in-a-row variant.
    pub fn gomoku() -> (r: Game)
        ensures
            r == (Game { min_x: -7i8, max_x: 7i8, min_y: -7i8, max_y: 7i8, goal: 5i8 }),
            r.wf(),
    {
        Game { min_x: -7, max_x: 7, min_y: -7, max_y: 7, goal: 5 }
    }
}

} // verus!
