use vstd::prelude::*;
use crate::state::{Action, Cell, State, StepError, grid_ok, wf_state, rack_cell, rack_cell_of};
use crate::grid::{moved, pos_addition};
use crate::tables::{CellSet, DirTable, cells_of, dirs_of};
use crate::record::{record_text, serialize_state};

verus! {

/// One outcome of the transition rule: the successor, its probability in
/// hundredths, and the successor's record text.
#[derive(Clone, Debug)]
pub struct Outcome {
    pub state: State,
    pub percent: u8,
    pub text: String,
}

/// The outcomes of action `code` from `s`, as (successor, probability in
/// hundredths), in the order the rule lists them.
///
/// A carrying agent that moves between two corridor cells stays where it is.
/// Any other carrying move reaches the clamped cell: with 99 hundredths the
/// rack comes along, with 1 hundredth it is lost on the way. Dropping gives
/// the state without the rack, whose reference is the current cell.
pub open spec fn successors(
    s: State,
    code: u8,
    dirs: Map<u8, Cell>,
    xsize: int,
    ysize: int,
    racks: Set<Cell>,
) -> Result<Seq<(State, u8)>, StepError> {
    if code < 4 {
        if !dirs.contains_key(code) {
            Err(StepError::MissingDirection(code))
        } else {
            let n = moved(s.pos, dirs[code], xsize, ysize);
            if s.carrying == 0 {
                Ok(seq![(State { pos: n, carrying: 0, rack: s.rack }, 100u8)])
            } else if racks.contains(s.pos) && racks.contains(n) {
                Ok(seq![(s, 100u8)])
            } else {
                Ok(
                    seq![
                        (State { pos: n, carrying: 1, rack: Some(rack_cell(n)) }, 99u8),
                        (State { pos: n, carrying: 0, rack: s.rack }, 1u8),
                    ],
                )
            }
        }
    } else if code == 4 {
        if s.carrying == 0 && (racks.contains(s.pos) || s.rack == Some(rack_cell(s.pos))) {
            Ok(seq![(State { pos: s.pos, carrying: 1, rack: Some(rack_cell(s.pos)) }, 100u8)])
        } else {
            Ok(seq![(s, 100u8)])
        }
    } else if code == 5 {
        if s.carrying == 1 {
            Ok(seq![(State { pos: s.pos, carrying: 0, rack: Some(rack_cell(s.pos)) }, 100u8)])
        } else {
            Ok(seq![(s, 100u8)])
        }
    } else {
        Err(StepError::UnknownAction(code))
    }
}

/// The sum of the probabilities of an outcome list, in hundredths.
pub open spec fn percent_total(w: Seq<(State, u8)>) -> int
    decreases w.len(),
{
    if w.len() == 0 {
        0
    } else {
        percent_total(w.drop_last()) + w.last().1 as int
    }
}

/// The outcomes `v` are `w`, each with the record text of its successor.
pub open spec fn outcomes_are(v: Seq<Outcome>, w: Seq<(State, u8)>) -> bool {
    &&& v.len() == w.len()
    &&& forall|j: int|
        0 <= j < v.len() ==> (#[trigger] v[j]).state == w[j].0 && v[j].percent == w[j].1
            && v[j].text@ == record_text(w[j].0)
}

/// `r` is what `successors` gives: the same error, or the same outcomes.
pub open spec fn step_agrees(r: Result<Vec<Outcome>, StepError>, e: Result<Seq<(State, u8)>, StepError>) -> bool {
    match (r, e) {
        (Ok(v), Ok(w)) => outcomes_are(v@, w),
        (Err(a), Err(b)) => a == b,
        _ => false,
    }
}

fn outcome(state: State, percent: u8) -> (r: Outcome)
    ensures
        r.state == state,
        r.percent == percent,
        r.text@ == record_text(state),
{
    let text = serialize_state(&state);
    Outcome { state, percent, text }
}

/// The transition rule: the outcomes of action `action` from `state`.
pub fn step(
    state: State,
    action: u8,
    action_to_dir: &DirTable,
    xsize: usize,
    ysize: usize,
    racks: &CellSet,
) -> (r: Result<Vec<Outcome>, StepError>)
    requires
        grid_ok(xsize as int, ysize as int),
        wf_state(state, xsize as int, ysize as int),
    ensures
        step_agrees(r, successors(state, action, dirs_of(*action_to_dir), xsize as int, ysize as int, cells_of(*racks))),
{
    let mut v: Vec<Outcome> = Vec::new();
    match Action::from_code(action) {
        Err(e) => {
            return Err(e);
        },
        Ok(Action::Move(code)) => {
            let direction = match action_to_dir.get(code) {
                Some(d) => d,
                None => {
                    return Err(StepError::MissingDirection(code));
                },
            };
            let n = pos_addition(&state.pos, &direction, 0, xsize, 0, ysize);
            assert(n == moved(state.pos, direction, xsize as int, ysize as int));
            if state.carrying == 0 {
                v.push(outcome(State { pos: n, carrying: 0, rack: state.rack }, 100));
            } else if racks.contains(state.pos) && racks.contains(n) {
                v.push(outcome(state, 100));
            } else {
                let carried = Some(rack_cell_of(n));
                v.push(outcome(State { pos: n, carrying: 1, rack: carried }, 99));
                v.push(outcome(State { pos: n, carrying: 0, rack: state.rack }, 1));
            }
        },
        Ok(Action::Pickup) => {
            let here = rack_cell_of(state.pos);
            let on_rack = match state.rack {
                Some(c) => c == here,
                None => false,
            };
            if state.carrying == 0 && (racks.contains(state.pos) || on_rack) {
                v.push(outcome(State { pos: state.pos, carrying: 1, rack: Some(here) }, 100));
            } else {
                v.push(outcome(state, 100));
            }
        },
        Ok(Action::Drop) => {
            if state.carrying == 1 {
                let here = rack_cell_of(state.pos);
                v.push(outcome(State { pos: state.pos, carrying: 0, rack: Some(here) }, 100));
            } else {
                v.push(outcome(state, 100));
            }
        },
    }
    Ok(v)
}

/// Every outcome list of the rule has probabilities that add up to one.
pub proof fn lemma_percents_total(
    s: State,
    code: u8,
    dirs: Map<u8, Cell>,
    xsize: int,
    ysize: int,
    racks: Set<Cell>,
)
    ensures
        successors(s, code, dirs, xsize, ysize, racks) matches Ok(w) ==> percent_total(w) == 100,
{
    reveal_with_fuel(percent_total, 3);
    if let Ok(w) = successors(s, code, dirs, xsize, ysize, racks) {
        if w.len() == 2 {
            assert(w.drop_last().drop_last().len() == 0);
        } else {
            assert(w.drop_last().len() == 0);
        }
    }
}

/// From a state on the grid, every successor is on the grid with a 0/1
/// carry flag, whatever the offset of a movement.
pub proof fn lemma_successors_on_grid(
    s: State,
    code: u8,
    dirs: Map<u8, Cell>,
    xsize: int,
    ysize: int,
    racks: Set<Cell>,
)
    requires
        grid_ok(xsize, ysize),
        wf_state(s, xsize, ysize),
    ensures
        successors(s, code, dirs, xsize, ysize, racks) matches Ok(w) ==> forall|j: int|
            0 <= j < w.len() ==> wf_state(#[trigger] w[j].0, xsize, ysize),
{
}

/// Picking up where there is neither a corridor cell nor the tracked rack
/// leaves the state as it is, and so does picking up once more.
pub proof fn lemma_pickup_twice_self_loop(
    s: State,
    dirs: Map<u8, Cell>,
    xsize: int,
    ysize: int,
    racks: Set<Cell>,
)
    requires
        s.carrying == 0,
        !racks.contains(s.pos),
        s.rack != Some(rack_cell(s.pos)),
    ensures
        successors(s, 4, dirs, xsize, ysize, racks) == Ok::<Seq<(State, u8)>, StepError>(seq![(s, 100u8)]),
        ({
            let first = successors(s, 4, dirs, xsize, ysize, racks).unwrap()[0].0;
            successors(first, 4, dirs, xsize, ysize, racks) == Ok::<Seq<(State, u8)>, StepError>(seq![(s, 100u8)])
        }),
{
}

/// Moving without a rack, and a pickup or drop that changes nothing, give
/// one outcome of probability one; a carrying move that is not blocked by
/// two corridor cells gives two outcomes, 99 and 1 hundredths.
pub proof fn lemma_outcome_counts(
    s: State,
    code: u8,
    dirs: Map<u8, Cell>,
    xsize: int,
    ysize: int,
    racks: Set<Cell>,
)
    ensures
        code < 4 && dirs.contains_key(code) && s.carrying == 0 ==> (successors(s, code, dirs, xsize, ysize, racks) matches Ok(w) && w.len() == 1 && w[0].1 == 100),
        code == 4 || code == 5 ==> (successors(s, code, dirs, xsize, ysize, racks) matches Ok(w) && w.len() == 1 && w[0].1 == 100),
        code < 4 && dirs.contains_key(code) && s.carrying != 0 && !(racks.contains(s.pos) && racks.contains(moved(s.pos, dirs[code], xsize, ysize)))
            ==> (successors(s, code, dirs, xsize, ysize, racks) matches Ok(w) && w.len() == 2 && w[0].1 == 99 && w[1].1 == 1),
{
}

} // verus!
