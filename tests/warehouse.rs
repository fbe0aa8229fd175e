use dp_warehouse::grid::pos_addition;
use dp_warehouse::layout::{place_racks, LayoutError};
use dp_warehouse::record::serialize_state;
use dp_warehouse::space::set_state_space;
use dp_warehouse::state::{Action, Cell, RackCell, State, StepError};
use dp_warehouse::step::{step, Outcome};
use dp_warehouse::tables::{CellSet, DirTable};

fn cell(x: i8, y: i8) -> Cell {
    Cell { x, y }
}

fn rack(x: u8, y: u8) -> Option<RackCell> {
    Some(RackCell { x, y })
}

fn directions() -> DirTable {
    DirTable::from_pairs(&vec![
        (0, cell(-1, 0)),
        (1, cell(1, 0)),
        (2, cell(0, -1)),
        (3, cell(0, 1)),
    ])
}

fn layout() -> CellSet {
    place_racks(8, 6).unwrap()
}

fn only(v: &[Outcome]) -> &Outcome {
    assert_eq!(v.len(), 1);
    &v[0]
}

#[test]
fn move_up_from_corner_stays_put() {
    let s = State::new(cell(0, 0), 0, None);
    let v = step(s, 0, &directions(), 8, 6, &layout()).unwrap();
    let o = only(&v);
    assert_eq!(o.state, State::new(cell(0, 0), 0, None));
    assert_eq!(o.percent, 100);
    assert_eq!(o.text, "{\"a\":[0,0],\"c\":0,\"r\":null}");
}

#[test]
fn pickup_on_corridor_cell() {
    let s = State::new(cell(2, 3), 0, None);
    let v = step(s, 4, &directions(), 8, 6, &layout()).unwrap();
    let o = only(&v);
    assert_eq!(o.state, State::new(cell(2, 3), 1, rack(2, 3)));
    assert_eq!(o.percent, 100);
    assert_eq!(o.text, "{\"a\":[2,3],\"c\":1,\"r\":[2,3]}");
}

#[test]
fn carrying_move_off_corridor_branches() {
    let s = State::new(cell(2, 3), 1, rack(2, 3));
    let v = step(s, 1, &directions(), 8, 6, &layout()).unwrap();
    assert_eq!(v.len(), 2);
    assert_eq!(v[0].state, State::new(cell(3, 3), 1, rack(3, 3)));
    assert_eq!(v[0].percent, 99);
    assert_eq!(v[0].text, "{\"a\":[3,3],\"c\":1,\"r\":[3,3]}");
    assert_eq!(v[1].state, State::new(cell(3, 3), 0, rack(2, 3)));
    assert_eq!(v[1].percent, 1);
    assert_eq!(v[1].text, "{\"a\":[3,3],\"c\":0,\"r\":[2,3]}");
}

#[test]
fn carrying_move_between_corridor_cells_is_blocked() {
    let s = State::new(cell(2, 3), 1, rack(2, 3));
    let v = step(s, 0, &directions(), 8, 6, &layout()).unwrap();
    let o = only(&v);
    assert_eq!(o.state, s);
    assert_eq!(o.percent, 100);
}

#[test]
fn carrying_move_from_open_cell_branches() {
    let s = State::new(cell(4, 0), 1, rack(3, 0));
    let v = step(s, 3, &directions(), 8, 6, &layout()).unwrap();
    assert_eq!(v.len(), 2);
    assert_eq!(v[0].state, State::new(cell(4, 1), 1, rack(4, 1)));
    assert_eq!(v[1].state, State::new(cell(4, 1), 0, rack(3, 0)));
    assert_eq!(v[0].percent as u32 + v[1].percent as u32, 100);
}

#[test]
fn pickup_twice_off_corridor_is_self_loop() {
    let s = State::new(cell(0, 0), 0, rack(5, 5));
    let first = step(s, 4, &directions(), 8, 6, &layout()).unwrap();
    assert_eq!(only(&first).state, s);
    assert_eq!(only(&first).percent, 100);
    let second = step(first[0].state, 4, &directions(), 8, 6, &layout()).unwrap();
    assert_eq!(only(&second).state, s);
    assert_eq!(only(&second).percent, 100);
}

#[test]
fn pickup_on_tracked_rack_off_corridor() {
    let s = State::new(cell(5, 0), 0, rack(5, 0));
    let v = step(s, 4, &directions(), 8, 6, &layout()).unwrap();
    assert_eq!(only(&v).state, State::new(cell(5, 0), 1, rack(5, 0)));
}

#[test]
fn pickup_while_carrying_is_self_loop() {
    let s = State::new(cell(5, 0), 1, rack(5, 0));
    let v = step(s, 4, &directions(), 8, 6, &layout()).unwrap();
    assert_eq!(only(&v).state, s);
}

#[test]
fn drop_releases_rack_here() {
    let s = State::new(cell(4, 1), 1, rack(2, 3));
    let v = step(s, 5, &directions(), 8, 6, &layout()).unwrap();
    let o = only(&v);
    assert_eq!(o.state, State::new(cell(4, 1), 0, rack(4, 1)));
    assert_eq!(o.percent, 100);
    assert_eq!(o.text, "{\"a\":[4,1],\"c\":0,\"r\":[4,1]}");
}

#[test]
fn drop_without_rack_is_self_loop() {
    let s = State::new(cell(4, 1), 0, None);
    let v = step(s, 5, &directions(), 8, 6, &layout()).unwrap();
    assert_eq!(only(&v).state, s);
    assert_eq!(only(&v).percent, 100);
}

#[test]
fn moving_without_rack_keeps_reference() {
    let s = State::new(cell(3, 3), 0, rack(1, 1));
    let v = step(s, 2, &directions(), 8, 6, &layout()).unwrap();
    let o = only(&v);
    assert_eq!(o.state, State::new(cell(3, 2), 0, rack(1, 1)));
    assert_eq!(o.percent, 100);
}

#[test]
fn unknown_action_is_refused() {
    let s = State::new(cell(0, 0), 0, None);
    let r = step(s, 6, &directions(), 8, 6, &layout());
    assert_eq!(r.unwrap_err(), StepError::UnknownAction(6));
    assert_eq!(Action::from_code(9), Err(StepError::UnknownAction(9)));
    assert_eq!(Action::from_code(4), Ok(Action::Pickup));
    assert_eq!(Action::from_code(2), Ok(Action::Move(2)));
}

#[test]
fn missing_direction_is_refused() {
    let dirs = DirTable::from_pairs(&vec![(0, cell(-1, 0))]);
    let s = State::new(cell(1, 1), 0, None);
    assert_eq!(step(s, 1, &dirs, 8, 6, &layout()).unwrap_err(), StepError::MissingDirection(1));
    assert_eq!(dirs.get(0), Some(cell(-1, 0)));
    assert_eq!(dirs.get(1), None);
}

#[test]
fn clamping_stops_at_every_edge() {
    assert_eq!(pos_addition(&cell(0, 0), &cell(-1, -1), 0, 8, 0, 6), cell(0, 0));
    assert_eq!(pos_addition(&cell(7, 5), &cell(1, 1), 0, 8, 0, 6), cell(7, 5));
    assert_eq!(pos_addition(&cell(3, 2), &cell(127, -128), 0, 8, 0, 6), cell(7, 0));
    assert_eq!(pos_addition(&cell(127, 127), &cell(127, 127), 0, 128, 0, 128), cell(127, 127));
    assert_eq!(pos_addition(&cell(1, 0), &cell(-1, 0), 0, 8, 0, 6), cell(0, 0));
    assert_eq!(pos_addition(&cell(3, 2), &cell(1, 1), 0, 8, 0, 6), cell(4, 3));
}

#[test]
fn racks_of_eight_by_six() {
    let racks = layout();
    let mut expected = Vec::new();
    for c in 2..6i8 {
        expected.push(cell(1, c));
        expected.push(cell(2, c));
    }
    for x in -2..10i8 {
        for y in -2..10i8 {
            assert_eq!(racks.contains(cell(x, y)), expected.contains(&cell(x, y)), "cell ({}, {})", x, y);
        }
    }
}

#[test]
fn racks_pattern_runs_across_columns() {
    // 7 rows give 4 walked rows per column, so the skip moves down the columns.
    let racks = place_racks(6, 7).unwrap();
    let marked: Vec<Cell> = vec![cell(1, 2), cell(2, 2), cell(4, 2), cell(1, 3), cell(3, 3), cell(4, 3)];
    for x in 0..7i8 {
        for y in 0..6i8 {
            assert_eq!(racks.contains(cell(x, y)), marked.contains(&cell(x, y)), "cell ({}, {})", x, y);
        }
    }
}

#[test]
fn small_grids_are_refused() {
    assert_eq!(place_racks(5, 6).err(), Some(LayoutError::InvalidGridSize));
    assert_eq!(place_racks(8, 4).err(), Some(LayoutError::InvalidGridSize));
    assert!(place_racks(6, 5).is_ok());
}

#[test]
fn record_text_of_states() {
    assert_eq!(serialize_state(&State::new(cell(7, 5), 1, rack(12, 0))), "{\"a\":[7,5],\"c\":1,\"r\":[12,0]}");
    assert_eq!(serialize_state(&State::new(cell(0, 10), 0, None)), "{\"a\":[0,10],\"c\":0,\"r\":null}");
}

#[test]
fn cell_set_from_cells() {
    let s = CellSet::from_cells(&vec![cell(1, 2), cell(3, 4), cell(1, 2)]);
    assert!(s.contains(cell(1, 2)));
    assert!(s.contains(cell(3, 4)));
    assert!(!s.contains(cell(2, 1)));
}

#[test]
fn state_space_is_closed_and_indexed() {
    let init = State::new(cell(0, 0), 0, None);
    let sp = set_state_space(init, 6, &directions(), &layout(), (8, 6)).unwrap();
    let n = sp.len();
    assert!(n > 1);
    assert_eq!(sp.states[0], init);
    assert_eq!(sp.index_of_state(&init), Some(0));
    for i in 0..n {
        let s = sp.states[i];
        assert_eq!(sp.index_of_state(&s), Some(i as u64));
        assert_eq!(sp.state_at(i as u64), Some(s));
        for a in 0..6u8 {
            let entries = sp.outcomes(i as u64, a).unwrap();
            let total: u32 = entries.iter().map(|e| e.percent as u32).sum();
            assert_eq!(total, 100);
            let direct = step(s, a, &directions(), 8, 6, &layout()).unwrap();
            assert_eq!(entries.len(), direct.len());
            for (e, o) in entries.iter().zip(direct.iter()) {
                assert!((e.target as usize) < n);
                assert_eq!(sp.states[e.target as usize], o.state);
                assert_eq!(e.percent, o.percent);
                assert_eq!(e.text, o.text);
            }
        }
        assert!(sp.outcomes(i as u64, 6).is_none());
    }
    assert!(sp.state_at(n as u64).is_none());
    let mut seen = std::collections::HashSet::new();
    for s in sp.states.iter() {
        assert!(seen.insert(*s));
    }
}

#[test]
fn state_space_reaches_carrying_states() {
    let init = State::new(cell(0, 0), 0, None);
    let sp = set_state_space(init, 6, &directions(), &layout(), (8, 6)).unwrap();
    let carrying = State::new(cell(2, 3), 1, rack(2, 3));
    assert!(sp.index_of_state(&carrying).is_some());
    let lost = State::new(cell(3, 3), 0, rack(2, 3));
    assert!(sp.index_of_state(&lost).is_some());
}

#[test]
fn state_space_with_movements_only() {
    let init = State::new(cell(1, 1), 0, None);
    let sp = set_state_space(init, 4, &directions(), &layout(), (8, 6)).unwrap();
    assert_eq!(sp.len(), 48);
    assert!(sp.outcomes(0, 4).is_none());
}

#[test]
fn state_space_errors() {
    let init = State::new(cell(0, 0), 0, None);
    let r = set_state_space(init, 7, &directions(), &layout(), (8, 6));
    assert_eq!(r.err(), Some(StepError::UnknownAction(6)));
    let partial = DirTable::from_pairs(&vec![(0, cell(-1, 0)), (1, cell(1, 0)), (3, cell(0, 1))]);
    let r = set_state_space(init, 6, &partial, &layout(), (8, 6));
    assert_eq!(r.err(), Some(StepError::MissingDirection(2)));
    let r = set_state_space(init, 2, &partial, &layout(), (8, 6));
    assert!(r.is_ok());
}
