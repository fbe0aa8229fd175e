use vstd::prelude::*;

verus! {

/// A grid cell: `x` along the first axis, `y` along the second.
#[derive(Clone, Copy, Debug, PartialEq, Eq, Structural, Hash)]
pub struct Cell {
    pub x: i8,
    pub y: i8,
}

/// The coordinates at which a rack was last picked up or released.
#[derive(Clone, Copy, Debug, PartialEq, Eq, Structural, Hash)]
pub struct RackCell {
    pub x: u8,
    pub y: u8,
}

/// One state of the agent: where it stands, whether it holds a rack
/// (0 or 1), and the last place where a rack was picked up or released.
#[derive(Clone, Copy, Debug, PartialEq, Eq, Structural, Hash)]
pub struct State {
    pub pos: Cell,
    pub carrying: u8,
    pub rack: Option<RackCell>,
}

/// Failures of the transition rule.
#[derive(Clone, Copy, Debug, PartialEq, Eq, Structural)]
pub enum StepError {
    /// The action code names none of the six actions.
    UnknownAction(u8),
    /// A movement action whose offset is missing from the direction table.
    MissingDirection(u8),
}

/// The six actions: four movements (by their code into the direction
/// table), picking a rack up, and dropping it.
#[derive(Clone, Copy, Debug, PartialEq, Eq, Structural)]
pub enum Action {
    Move(u8),
    Pickup,
    Drop,
}

/// The action that a code stands for, if any.
pub open spec fn action_of(code: u8) -> Option<Action> {
    if code < 4 {
        Some(Action::Move(code))
    } else if code == 4 {
        Some(Action::Pickup)
    } else if code == 5 {
        Some(Action::Drop)
    } else {
        None
    }
}

impl Action {
    /// Reads an action code; codes above 5 are refused.
    pub fn from_code(code: u8) -> (r: Result<Action, StepError>)
        ensures
            r matches Ok(a) ==> action_of(code) == Some(a),
            r matches Err(e) ==> action_of(code).is_none() && e == StepError::UnknownAction(code),
            r.is_ok() <==> code <= 5,
    {
        if code < 4 {
            Ok(Action::Move(code))
        } else if code == 4 {
            Ok(Action::Pickup)
        } else if code == 5 {
            Ok(Action::Drop)
        } else {
            Err(StepError::UnknownAction(code))
        }
    }
}

impl State {
    pub fn new(pos: Cell, carrying: u8, rack: Option<RackCell>) -> (r: State)
        ensures
            r == (State { pos, carrying, rack }),
    {
        State { pos, carrying, rack }
    }
}

/// A grid of `xsize` rows and `ysize` columns fits in the `i8` coordinates.
pub open spec fn grid_ok(xsize: int, ysize: int) -> bool {
    1 <= xsize <= 128 && 1 <= ysize <= 128
}

/// The cell lies on the grid.
pub open spec fn in_grid(p: Cell, xsize: int, ysize: int) -> bool {
    0 <= p.x < xsize && 0 <= p.y < ysize
}

/// A state that the model can hold: on the grid, with a 0/1 carry flag.
pub open spec fn wf_state(s: State, xsize: int, ysize: int) -> bool {
    in_grid(s.pos, xsize, ysize) && s.carrying <= 1
}

/// The rack coordinate of a grid cell.
pub open spec fn rack_cell(p: Cell) -> RackCell {
    RackCell { x: p.x as u8, y: p.y as u8 }
}

pub fn rack_cell_of(p: Cell) -> (r: RackCell)
    requires
        p.x >= 0,
        p.y >= 0,
    ensures
        r == rack_cell(p),
        r.x == p.x,
        r.y == p.y,
{
    RackCell { x: p.x as u8, y: p.y as u8 }
}

} // verus!
