//! Absolute grid actions.

use vstd::prelude::*;

verus! {

/// A heading on a grid whose rows grow downward.
#[derive(Clone, Copy, PartialEq, Eq, Debug, Hash, Structural)]
pub enum Action {
    Up,
    Down,
    Left,
    Right,
}

impl Action {
    /// The (row, column) step of the heading.
    pub open spec fn spec_delta(self) -> (i32, i32) {
        match self {
            Action::Up => (-1i32, 0i32),
            Action::Down => (1, 0),
            Action::Left => (0i32, -1i32),
            Action::Right => (0, 1),
        }
    }

    /// The (row, column) step of the heading.
    pub fn delta(self) -> (r: (i32, i32))
        ensures
            r == self.spec_delta(),
    {
        match self {
            Action::Up => (-1, 0),
            Action::Down => (1, 0),
            Action::Left => (0, -1),
            Action::Right => (0, 1),
        }
    }

    /// The heading half a turn away.
    pub open spec fn spec_opposite(self) -> Action {
        match self {
            Action::Up => Action::Down,
            Action::Down => Action::Up,
            Action::Left => Action::Right,
            Action::Right => Action::Left,
        }
    }

    /// The heading half a turn away.
    pub fn opposite(self) -> (r: Action)
        ensures
            r == self.spec_opposite(),
    {
        match self {
            Action::Up => Action::Down,
            Action::Down => Action::Up,
            Action::Left => Action::Right,
            Action::Right => Action::Left,
        }
    }

    /// Counter-clockwise quarter turns that bring the heading to [`Action::Up`].
    pub open spec fn spec_ego_rot_k(self) -> u8 {
        match self {
            Action::Up => 0,
            Action::Right => 1,
            Action::Down => 2,
            Action::Left => 3,
        }
    }

    /// Counter-clockwise quarter turns that bring the heading to [`Action::Up`].
    pub fn ego_rot_k(self) -> (r: u8)
        ensures
            r == self.spec_ego_rot_k(),
    {
        match self {
            Action::Up => 0,
            Action::Right => 1,
            Action::Down => 2,
            Action::Left => 3,
        }
    }
}

/// A (row, column) step turned a quarter counter-clockwise, rows growing downward.
pub open spec fn quarter_turn(step: (int, int)) -> (int, int) {
    (-step.1, step.0)
}

/// A step turned `k` quarters counter-clockwise.
pub open spec fn turned(step: (int, int), k: nat) -> (int, int)
    decreases k,
{
    if k == 0 {
        step
    } else {
        quarter_turn(turned(step, (k - 1) as nat))
    }
}

/// Opposites undo each other, and the step of the opposite heading takes the step back.
pub proof fn law_opposite(a: Action)
    ensures
        a.spec_opposite().spec_opposite() == a,
        a.spec_opposite() != a,
        a.spec_opposite().spec_delta().0 == -a.spec_delta().0,
        a.spec_opposite().spec_delta().1 == -a.spec_delta().1,
{
}

/// Turning a heading's step by its own number of quarter turns gives the step of
/// [`Action::Up`].
pub proof fn law_ego_rotation(a: Action)
    ensures
        turned(
            (a.spec_delta().0 as int, a.spec_delta().1 as int),
            a.spec_ego_rot_k() as nat,
        ) == (-1int, 0int),
{
    reveal_with_fuel(turned, 4);
}

} // verus!
