use vstd::prelude::*;
use vstd::set_lib::{lemma_int_range, lemma_len_subset, lemma_map_size, set_int_range};
use crate::state::{Cell, State, StepError, grid_ok, wf_state};
use crate::step::{outcomes_are, percent_total, step, successors, lemma_percents_total, lemma_successors_on_grid};
use crate::tables::{
    CellSet, DirTable, Entry, IndexStates, StateIndex, TransitionTable, cells_of, dirs_of, index_of,
    states_of, table_of,
};
use crate::record::record_text;

verus! {

/// The number of distinct states that a grid of at most 128 by 128 cells can
/// hold: 128 * 128 positions, 0/1 carry flag, 65537 rack references.
pub open spec fn state_bound() -> int {
    2147516416int
}

/// A number for each state on the grid, distinct for distinct states.
pub open spec fn state_code(s: State) -> int {
    ((s.pos.x as int * 128 + s.pos.y as int) * 2 + s.carrying as int) * 65537 + match s.rack {
        None => 0int,
        Some(c) => 1 + c.x as int * 256 + c.y as int,
    }
}

proof fn lemma_digits(q1: int, r1: int, q2: int, r2: int, m: int)
    requires
        0 <= r1 < m,
        0 <= r2 < m,
        q1 * m + r1 == q2 * m + r2,
    ensures
        q1 == q2,
        r1 == r2,
{
    assert(q1 == q2) by (nonlinear_arith)
        requires
            0 <= r1 < m,
            0 <= r2 < m,
            q1 * m + r1 == q2 * m + r2,
    ;
}

proof fn lemma_code_range(s: State)
    requires
        wf_state(s, 128, 128),
    ensures
        0 <= state_code(s) < state_bound(),
{
    let p = (s.pos.x as int * 128 + s.pos.y as int) * 2 + s.carrying as int;
    let r = match s.rack {
        None => 0int,
        Some(c) => 1 + c.x as int * 256 + c.y as int,
    };
    assert(0 <= p < 32768);
    assert(0 <= r < 65537);
    assert(0 <= p * 65537 + r < 32768 * 65537) by (nonlinear_arith)
        requires
            0 <= p < 32768,
            0 <= r < 65537,
    ;
}

proof fn lemma_code_injective(a: State, b: State)
    requires
        wf_state(a, 128, 128),
        wf_state(b, 128, 128),
        state_code(a) == state_code(b),
    ensures
        a == b,
{
    let ra = match a.rack {
        None => 0int,
        Some(c) => 1 + c.x as int * 256 + c.y as int,
    };
    let rb = match b.rack {
        None => 0int,
        Some(c) => 1 + c.x as int * 256 + c.y as int,
    };
    lemma_digits((a.pos.x as int * 128 + a.pos.y as int) * 2 + a.carrying as int, ra,
        (b.pos.x as int * 128 + b.pos.y as int) * 2 + b.carrying as int, rb, 65537);
    lemma_digits(a.pos.x as int * 128 + a.pos.y as int, a.carrying as int,
        b.pos.x as int * 128 + b.pos.y as int, b.carrying as int, 2);
    lemma_digits(a.pos.x as int, a.pos.y as int, b.pos.x as int, b.pos.y as int, 128);
    if let Some(ca) = a.rack {
        if let Some(cb) = b.rack {
            lemma_digits(ca.x as int, ca.y as int, cb.x as int, cb.y as int, 256);
        }
    }
}

/// Distinct states on the grid are at most `state_bound()` in number.
proof fn lemma_states_bounded(states: Seq<State>, xsize: int, ysize: int)
    requires
        grid_ok(xsize, ysize),
        states.no_duplicates(),
        forall|i: int| 0 <= i < states.len() ==> wf_state(#[trigger] states[i], xsize, ysize),
    ensures
        states.len() <= state_bound(),
{
    let s = states.to_set();
    states.unique_seq_to_set();
    let f = |x: State| state_code(x);
    let c = s.map(f);
    assert forall|x: State, y: State| s.contains(x) && s.contains(y) && #[trigger] f(x) == #[trigger] f(y) implies x == y by {
        lemma_code_injective(x, y);
    }
    lemma_map_size(s, c, f);
    lemma_int_range(0, state_bound());
    assert forall|n: int| c.contains(n) implies set_int_range(0, state_bound()).contains(n) by {
        let x = choose|x: State| s.contains(x) && f(x) == n;
        lemma_code_range(x);
    }
    lemma_len_subset(c, set_int_range(0, state_bound()));
}

/// The table entries `v` stand for the outcomes `w`: each target is the
/// index in `states` of its successor, with its probability and record text.
pub open spec fn entries_are(v: Seq<Entry>, w: Seq<(State, u8)>, states: Seq<State>) -> bool {
    &&& v.len() == w.len()
    &&& forall|j: int|
        0 <= j < v.len() ==> (#[trigger] v[j]).target < states.len() && states[v[j].target as int] == w[j].0
            && v[j].percent == w[j].1 && v[j].text@ == record_text(w[j].0)
}

/// The table holds the outcome list of action `a` from the state of index
/// `i`, as the rule gives it, with every successor among `states`.
pub open spec fn action_done(
    table: Map<(u64, u8), Seq<Entry>>,
    states: Seq<State>,
    i: int,
    a: u8,
    dirs: Map<u8, Cell>,
    xsize: int,
    ysize: int,
    racks: Set<Cell>,
) -> bool {
    &&& table.contains_key((i as u64, a))
    &&& successors(states[i], a, dirs, xsize, ysize, racks) matches Ok(w)
    &&& entries_are(table[(i as u64, a)], successors(states[i], a, dirs, xsize, ysize, racks).unwrap(), states)
}

/// Every action below `nact` from the state of index `i` has its outcome
/// list in the table.
pub open spec fn expanded(
    table: Map<(u64, u8), Seq<Entry>>,
    states: Seq<State>,
    i: int,
    nact: int,
    dirs: Map<u8, Cell>,
    xsize: int,
    ysize: int,
    racks: Set<Cell>,
) -> bool {
    forall|a: u8| a < nact ==> #[trigger] action_done(table, states, i, a, dirs, xsize, ysize, racks)
}

/// The states are distinct and on the grid, and the two maps give each its
/// position in `states` and back.
pub open spec fn indexed(
    states: Seq<State>,
    forward: Map<State, u64>,
    reverse: Map<u64, State>,
    xsize: int,
    ysize: int,
) -> bool {
    &&& states.no_duplicates()
    &&& forall|i: int| 0 <= i < states.len() ==> wf_state(#[trigger] states[i], xsize, ysize)
    &&& forall|s: State| #[trigger] forward.contains_key(s) <==> states.contains(s)
    &&& forall|i: int| 0 <= i < states.len() ==> forward[#[trigger] states[i]] == i
    &&& forall|n: u64| #[trigger] reverse.contains_key(n) <==> n < states.len()
    &&& forall|n: u64| n < states.len() ==> #[trigger] reverse[n] == states[n as int]
}

/// `b` keeps the states of `a` at their places and may add more after them.
pub open spec fn extends(a: Seq<State>, b: Seq<State>) -> bool {
    &&& a.len() <= b.len()
    &&& forall|t: int| 0 <= t < a.len() ==> #[trigger] b[t] == a[t]
}

/// The worklist holds distinct states, all of them already indexed.
pub open spec fn frontier(stack: Seq<State>, states: Seq<State>) -> bool {
    &&& stack.no_duplicates()
    &&& forall|x: State| #[trigger] stack.contains(x) ==> states.contains(x)
}

/// What makes a build fail: the first movement code below `nact` that the
/// direction table lacks, else action code 6 when `nact` reaches it.
pub open spec fn build_error(nact: int, dirs: Map<u8, Cell>) -> Option<StepError> {
    if nact > 0 && !dirs.contains_key(0u8) {
        Some(StepError::MissingDirection(0))
    } else if nact > 1 && !dirs.contains_key(1u8) {
        Some(StepError::MissingDirection(1))
    } else if nact > 2 && !dirs.contains_key(2u8) {
        Some(StepError::MissingDirection(2))
    } else if nact > 3 && !dirs.contains_key(3u8) {
        Some(StepError::MissingDirection(3))
    } else if nact > 6 {
        Some(StepError::UnknownAction(6))
    } else {
        None
    }
}

/// The enumerated model: every state found, both index maps, and the
/// outcome list of each (state index, action code).
pub struct StateSpace {
    pub states: Vec<State>,
    pub forward: StateIndex,
    pub reverse: IndexStates,
    pub transitions: TransitionTable,
}

impl StateSpace {
    /// The number of states found.
    pub fn len(&self) -> (r: usize)
        ensures
            r == self.states@.len(),
    {
        self.states.len()
    }

    /// The index of `s`, if it was found.
    pub fn index_of_state(&self, s: &State) -> (r: Option<u64>)
        ensures
            r.is_some() == index_of(self.forward).contains_key(*s),
            r matches Some(i) ==> i == index_of(self.forward)[*s],
    {
        self.forward.lookup(s)
    }

    /// The state under index `i`, if there is one.
    pub fn state_at(&self, i: u64) -> (r: Option<State>)
        ensures
            r.is_some() == states_of(self.reverse).contains_key(i),
            r matches Some(s) ==> s == states_of(self.reverse)[i],
    {
        self.reverse.lookup(i)
    }

    /// The outcome list of action `a` from the state of index `i`, if the
    /// table has one.
    pub fn outcomes(&self, i: u64, a: u8) -> (r: Option<Vec<Entry>>)
        ensures
            r.is_some() == table_of(self.transitions).contains_key((i, a)),
            r matches Some(v) ==> v@ == table_of(self.transitions)[(i, a)],
    {
        self.transitions.lookup((i, a))
    }
}

/// `sp` is the closed model of `init`: index 0 is `init`, the states are
/// indexed both ways, the table has exactly one key for each state index
/// and action below `nact`, and each outcome list is the rule's own, with
/// every successor among the states.
pub open spec fn space_ok(
    sp: StateSpace,
    init: State,
    nact: int,
    dirs: Map<u8, Cell>,
    xsize: int,
    ysize: int,
    racks: Set<Cell>,
) -> bool {
    let states = sp.states@;
    let table = table_of(sp.transitions);
    &&& states.len() >= 1
    &&& states[0] == init
    &&& indexed(states, index_of(sp.forward), states_of(sp.reverse), xsize, ysize)
    &&& forall|k: (u64, u8)| #[trigger] table.contains_key(k) <==> k.0 < states.len() && k.1 < nact
    &&& forall|i: int| 0 <= i < states.len() ==> #[trigger] expanded(table, states, i, nact, dirs, xsize, ysize, racks)
}

fn first_failure(nact: usize, dirs: &DirTable) -> (r: Option<StepError>)
    ensures
        r == build_error(nact as int, dirs_of(*dirs)),
{
    if nact > 0 && dirs.get(0).is_none() {
        Some(StepError::MissingDirection(0))
    } else if nact > 1 && dirs.get(1).is_none() {
        Some(StepError::MissingDirection(1))
    } else if nact > 2 && dirs.get(2).is_none() {
        Some(StepError::MissingDirection(2))
    } else if nact > 3 && dirs.get(3).is_none() {
        Some(StepError::MissingDirection(3))
    } else if nact > 6 {
        Some(StepError::UnknownAction(6))
    } else {
        None
    }
}

/// The index of `t`, which is added to the states, both maps and the
/// worklist when it is new.
fn visit(
    t: State,
    states: &mut Vec<State>,
    forward: &mut StateIndex,
    reverse: &mut IndexStates,
    stack: &mut Vec<State>,
    xsize: usize,
    ysize: usize,
) -> (idx: u64)
    requires
        grid_ok(xsize as int, ysize as int),
        wf_state(t, xsize as int, ysize as int),
        indexed(old(states)@, index_of(*old(forward)), states_of(*old(reverse)), xsize as int, ysize as int),
        frontier(old(stack)@, old(states)@),
    ensures
        indexed(final(states)@, index_of(*final(forward)), states_of(*final(reverse)), xsize as int, ysize as int),
        frontier(final(stack)@, final(states)@),
        extends(old(states)@, final(states)@),
        final(states)@.len() <= old(states)@.len() + 1,
        final(states)@.len() - old(states)@.len() == final(stack)@.len() - old(stack)@.len(),
        forall|x: State| old(stack)@.contains(x) ==> #[trigger] final(stack)@.contains(x),
        forall|x: State| #[trigger] final(stack)@.contains(x) ==> old(stack)@.contains(x) || !old(states)@.contains(x),
        forall|k: int| old(states)@.len() <= k < final(states)@.len() ==> final(stack)@.contains(#[trigger] final(states)@[k]),
        idx < final(states)@.len(),
        final(states)@[idx as int] == t,
        final(states)@.len() <= state_bound(),
{
    proof {
        lemma_states_bounded(states@, xsize as int, ysize as int);
    }
    match forward.lookup(&t) {
        Some(i) => {
            proof {
                assert(states@.contains(t));
                let k = choose|k: int| 0 <= k < states@.len() && states@[k] == t;
                assert(i == k);
            }
            i
        },
        None => {
            let ghost s0 = states@;
            let ghost k0 = stack@;
            proof {
                assert(s0.push(t).no_duplicates()) by {
                    assert forall|a: int, b: int| 0 <= a < b < s0.push(t).len() implies s0.push(t)[a] != s0.push(t)[b] by {
                        if b == s0.len() {
                            assert(s0.contains(s0[a]));
                        }
                    }
                }
                assert forall|k: int| 0 <= k < s0.push(t).len() implies wf_state(#[trigger] s0.push(t)[k], xsize as int, ysize as int) by {
                    if k < s0.len() {
                        assert(wf_state(s0[k], xsize as int, ysize as int));
                    }
                }
                lemma_states_bounded(s0.push(t), xsize as int, ysize as int);
            }
            let n = states.len() as u64;
            states.push(t);
            forward.put(t, n);
            reverse.put(n, t);
            stack.push(t);
            proof {
                assert(states@ == s0.push(t));
                assert(stack@ == k0.push(t));
                assert(!k0.contains(t));
                assert(stack@[k0.len() as int] == t);
                assert forall|a: int, b: int| 0 <= a < b < stack@.len() implies stack@[a] != stack@[b] by {
                    if b == k0.len() {
                        assert(k0.contains(k0[a]));
                    }
                }
                assert forall|x: State| #[trigger] stack@.contains(x) implies states@.contains(x) by {
                    if x != t {
                        let q = choose|q: int| 0 <= q < stack@.len() && stack@[q] == x;
                        assert(k0[q] == x);
                        assert(k0.contains(x));
                        let p = choose|p: int| 0 <= p < s0.len() && s0[p] == x;
                        assert(states@[p] == x);
                    } else {
                        assert(states@[s0.len() as int] == t);
                    }
                }
                assert forall|x: State| k0.contains(x) implies #[trigger] stack@.contains(x) by {
                    let q = choose|q: int| 0 <= q < k0.len() && k0[q] == x;
                    assert(stack@[q] == x);
                }
                assert forall|x: State| #[trigger] stack@.contains(x) implies k0.contains(x) || !s0.contains(x) by {
                    if x != t {
                        let q = choose|q: int| 0 <= q < stack@.len() && stack@[q] == x;
                        assert(k0[q] == x);
                    }
                }
                assert forall|x: State| #[trigger] index_of(*forward).contains_key(x) <==> states@.contains(x) by {
                    if x == t {
                        assert(states@[s0.len() as int] == t);
                    } else if s0.contains(x) {
                        let p = choose|p: int| 0 <= p < s0.len() && s0[p] == x;
                        assert(states@[p] == x);
                    } else if states@.contains(x) {
                        let p = choose|p: int| 0 <= p < states@.len() && states@[p] == x;
                        assert(s0[p] == x);
                    }
                }
                assert forall|i: int| 0 <= i < states@.len() implies index_of(*forward)[#[trigger] states@[i]] == i by {
                    if i < s0.len() {
                        assert(s0.contains(s0[i]));
                    }
                }
            }
            n
        },
    }
}

proof fn lemma_expanded_extend(
    table: Map<(u64, u8), Seq<Entry>>,
    s1: Seq<State>,
    s2: Seq<State>,
    i: int,
    nact: int,
    dirs: Map<u8, Cell>,
    xsize: int,
    ysize: int,
    racks: Set<Cell>,
)
    requires
        expanded(table, s1, i, nact, dirs, xsize, ysize, racks),
        extends(s1, s2),
        0 <= i < s1.len(),
        i < state_bound(),
    ensures
        expanded(table, s2, i, nact, dirs, xsize, ysize, racks),
{
    assert(s2[i] == s1[i]);
    assert forall|a: u8| a < nact implies #[trigger] action_done(table, s2, i, a, dirs, xsize, ysize, racks) by {
        assert(action_done(table, s1, i, a, dirs, xsize, ysize, racks));
        let w = successors(s1[i], a, dirs, xsize, ysize, racks).unwrap();
        let v = table[(i as u64, a)];
        assert forall|j: int| 0 <= j < v.len() implies (#[trigger] v[j]).target < s2.len()
            && s2[v[j].target as int] == w[j].0 && v[j].percent == w[j].1 && v[j].text@ == record_text(w[j].0) by {
            assert(s2[v[j].target as int] == s1[v[j].target as int]);
        }
    }
}

proof fn lemma_expanded_insert(
    table: Map<(u64, u8), Seq<Entry>>,
    states: Seq<State>,
    i: int,
    nact: int,
    dirs: Map<u8, Cell>,
    xsize: int,
    ysize: int,
    racks: Set<Cell>,
    k: (u64, u8),
    v: Seq<Entry>,
)
    requires
        expanded(table, states, i, nact, dirs, xsize, ysize, racks),
        0 <= i < state_bound(),
        k.0 != i,
    ensures
        expanded(table.insert(k, v), states, i, nact, dirs, xsize, ysize, racks),
{
    assert forall|a: u8| a < nact implies #[trigger] action_done(table.insert(k, v), states, i, a, dirs, xsize, ysize, racks) by {
        assert(action_done(table, states, i, a, dirs, xsize, ysize, racks));
        assert((i as u64, a) != k);
    }
}

/// Builds the closed model of `init_state`: every state reachable by the
/// actions below `nact`, with index 0 for `init_state` and the next free
/// index for each new state, and the outcome list of every (state, action).
///
/// The build fails before anything is explored when an action below `nact`
/// cannot be taken from any state: a movement code missing from
/// `action_to_dir`, or a code above 5.
pub fn set_state_space(
    init_state: State,
    nact: usize,
    action_to_dir: &DirTable,
    racks: &CellSet,
    grid_size: (usize, usize),
) -> (r: Result<StateSpace, StepError>)
    requires
        grid_ok(grid_size.0 as int, grid_size.1 as int),
        wf_state(init_state, grid_size.0 as int, grid_size.1 as int),
    ensures
        r.is_err() <==> build_error(nact as int, dirs_of(*action_to_dir)).is_some(),
        r matches Err(e) ==> build_error(nact as int, dirs_of(*action_to_dir)) == Some(e),
        r matches Ok(sp) ==> space_ok(
            sp,
            init_state,
            nact as int,
            dirs_of(*action_to_dir),
            grid_size.0 as int,
            grid_size.1 as int,
            cells_of(*racks),
        ),
{
    if let Some(e) = first_failure(nact, action_to_dir) {
        return Err(e);
    }
    let xsize = grid_size.0;
    let ysize = grid_size.1;
    let ghost dirs = dirs_of(*action_to_dir);
    let ghost cells = cells_of(*racks);
    let ghost xs = xsize as int;
    let ghost ys = ysize as int;
    let mut states: Vec<State> = Vec::new();
    let mut forward = StateIndex::empty();
    let mut reverse = IndexStates::empty();
    let mut stack: Vec<State> = Vec::new();
    let mut transitions = TransitionTable::empty();
    states.push(init_state);
    forward.put(init_state, 0);
    reverse.put(0, init_state);
    stack.push(init_state);
    proof {
        assert(states@ == seq![init_state]);
        assert(stack@ == seq![init_state]);
        assert forall|x: State| #[trigger] index_of(forward).contains_key(x) <==> states@.contains(x) by {
            if x == init_state {
                assert(states@[0] == x);
            }
        }
        assert forall|x: State| #[trigger] stack@.contains(x) implies states@.contains(x) by {
            assert(states@[0] == init_state);
        }
        assert(state_bound() >= 1);
    }
    while stack.len() > 0
        invariant
            grid_ok(xs, ys),
            xs == xsize,
            ys == ysize,
            dirs == dirs_of(*action_to_dir),
            cells == cells_of(*racks),
            build_error(nact as int, dirs).is_none(),
            states@.len() >= 1,
            states@[0] == init_state,
            indexed(states@, index_of(forward), states_of(reverse), xs, ys),
            frontier(stack@, states@),
            states@.len() <= state_bound(),
            forall|k: (u64, u8)| #[trigger] table_of(transitions).contains_key(k) ==> k.0 < states@.len() && k.1 < nact,
            forall|i: int|
                0 <= i < states@.len() && !stack@.contains(#[trigger] states@[i]) ==> expanded(
                    table_of(transitions),
                    states@,
                    i,
                    nact as int,
                    dirs,
                    xs,
                    ys,
                    cells,
                ),
        decreases state_bound() - states@.len(), stack@.len(),
    {
        let ghost n0 = states@.len();
        let ghost k0 = stack@;
        let s = stack.pop().unwrap();
        proof {
            assert(k0 == stack@.push(s));
            assert(k0.contains(s)) by {
                assert(k0[k0.len() - 1] == s);
            }
            assert(!stack@.contains(s)) by {
                if stack@.contains(s) {
                    let q = choose|q: int| 0 <= q < stack@.len() && stack@[q] == s;
                    assert(k0[q] == k0[k0.len() - 1]);
                }
            }
            assert forall|x: State| #[trigger] stack@.contains(x) implies k0.contains(x) by {
                let q = choose|q: int| 0 <= q < stack@.len() && stack@[q] == x;
                assert(k0[q] == x);
            }
            assert forall|a: int, b: int| 0 <= a < b < stack@.len() implies stack@[a] != stack@[b] by {
                assert(k0[a] == stack@[a] && k0[b] == stack@[b]);
            }
        }
        let si = forward.lookup(&s).unwrap();
        proof {
            let p = choose|p: int| 0 <= p < states@.len() && states@[p] == s;
            assert(index_of(forward)[states@[p]] == p);
        }
        let mut a: usize = 0;
        while a < nact
            invariant
                grid_ok(xs, ys),
                xs == xsize,
                ys == ysize,
                dirs == dirs_of(*action_to_dir),
                cells == cells_of(*racks),
                build_error(nact as int, dirs).is_none(),
                a <= nact,
                states@.len() >= n0,
                stack@.len() == k0.len() - 1 + (states@.len() - n0),
                states@.len() >= 1,
                states@[0] == init_state,
                indexed(states@, index_of(forward), states_of(reverse), xs, ys),
                frontier(stack@, states@),
                states@.len() <= state_bound(),
                si < states@.len(),
                states@[si as int] == s,
                !stack@.contains(s),
                forall|k: (u64, u8)| #[trigger] table_of(transitions).contains_key(k) ==> k.0 < states@.len() && k.1 < nact,
                forall|i: int|
                    0 <= i < states@.len() && i != si && !stack@.contains(#[trigger] states@[i]) ==> expanded(
                        table_of(transitions),
                        states@,
                        i,
                        nact as int,
                        dirs,
                        xs,
                        ys,
                        cells,
                    ),
                expanded(table_of(transitions), states@, si as int, a as int, dirs, xs, ys, cells),
            decreases nact - a,
        {
            let act = a as u8;
            let res = step(s, act, action_to_dir, xsize, ysize, racks);
            let v = match res {
                Ok(v) => v,
                Err(e) => {
                    return Err(e);
                },
            };
            let ghost w = successors(s, act, dirs, xs, ys, cells).unwrap();
            proof {
                lemma_successors_on_grid(s, act, dirs, xs, ys, cells);
            }
            let mut entries: Vec<Entry> = Vec::new();
            let mut j: usize = 0;
            while j < v.len()
                invariant
                    grid_ok(xs, ys),
                    xs == xsize,
                    ys == ysize,
                    dirs == dirs_of(*action_to_dir),
                    cells == cells_of(*racks),
                    build_error(nact as int, dirs).is_none(),
                    a < nact,
                    act == a,
                    successors(s, act, dirs, xs, ys, cells) == Ok::<Seq<(State, u8)>, StepError>(w),
                    outcomes_are(v@, w),
                    forall|q: int| 0 <= q < w.len() ==> wf_state(#[trigger] w[q].0, xs, ys),
                    j <= v.len(),
                    entries@.len() == j,
                    forall|q: int|
                        0 <= q < j ==> (#[trigger] entries@[q]).target < states@.len()
                            && states@[entries@[q].target as int] == w[q].0 && entries@[q].percent == w[q].1
                            && entries@[q].text@ == record_text(w[q].0),
                    states@.len() >= n0,
                    stack@.len() == k0.len() - 1 + (states@.len() - n0),
                    states@.len() >= 1,
                    states@[0] == init_state,
                    indexed(states@, index_of(forward), states_of(reverse), xs, ys),
                    frontier(stack@, states@),
                    states@.len() <= state_bound(),
                    si < states@.len(),
                    states@[si as int] == s,
                    !stack@.contains(s),
                    forall|k: (u64, u8)| #[trigger] table_of(transitions).contains_key(k) ==> k.0 < states@.len() && k.1 < nact,
                    forall|i: int|
                        0 <= i < states@.len() && i != si && !stack@.contains(#[trigger] states@[i]) ==> expanded(
                            table_of(transitions),
                            states@,
                            i,
                            nact as int,
                            dirs,
                            xs,
                            ys,
                            cells,
                        ),
                    expanded(table_of(transitions), states@, si as int, a as int, dirs, xs, ys, cells),
                decreases v.len() - j,
            {
                let ghost s_before = states@;
                let ghost k_before = stack@;
                let ghost e_before = entries@;
                assert(v@[j as int].state == w[j as int].0);
                let target = visit(v[j].state, &mut states, &mut forward, &mut reverse, &mut stack, xsize, ysize);
                entries.push(Entry { target, percent: v[j].percent, text: v[j].text.clone() });
                proof {
                    assert(!stack@.contains(s)) by {
                        if stack@.contains(s) {
                            assert(s_before[si as int] == s);
                            assert(s_before.contains(s));
                        }
                    }
                    assert forall|i: int|
                        0 <= i < states@.len() && i != si && !stack@.contains(#[trigger] states@[i]) implies expanded(
                            table_of(transitions),
                            states@,
                            i,
                            nact as int,
                            dirs,
                            xs,
                            ys,
                            cells,
                        ) by {
                        if i >= s_before.len() {
                            assert(stack@.contains(states@[i]));
                        } else {
                            assert(states@[i] == s_before[i]);
                            if k_before.contains(s_before[i]) {
                                assert(stack@.contains(s_before[i]));
                            }
                            lemma_expanded_extend(table_of(transitions), s_before, states@, i, nact as int, dirs, xs, ys, cells);
                        }
                    }
                    lemma_expanded_extend(table_of(transitions), s_before, states@, si as int, a as int, dirs, xs, ys, cells);
                    assert forall|q: int|
                        0 <= q < j + 1 implies (#[trigger] entries@[q]).target < states@.len()
                            && states@[entries@[q].target as int] == w[q].0 && entries@[q].percent == w[q].1
                            && entries@[q].text@ == record_text(w[q].0) by {
                        if q < j {
                            assert(entries@[q] == e_before[q]);
                            assert(states@[e_before[q].target as int] == s_before[e_before[q].target as int]);
                        }
                    }
                }
                j = j + 1;
            }
            let ghost t_before = table_of(transitions);
            transitions.put((si, act), entries);
            proof {
                assert forall|i: int|
                    0 <= i < states@.len() && i != si && !stack@.contains(#[trigger] states@[i]) implies expanded(
                        table_of(transitions),
                        states@,
                        i,
                        nact as int,
                        dirs,
                        xs,
                        ys,
                        cells,
                    ) by {
                    lemma_expanded_insert(t_before, states@, i, nact as int, dirs, xs, ys, cells, (si, act), entries@);
                }
                assert forall|b: u8| b < a + 1 implies #[trigger] action_done(
                    table_of(transitions),
                    states@,
                    si as int,
                    b,
                    dirs,
                    xs,
                    ys,
                    cells,
                ) by {
                    if b != act {
                        assert(action_done(t_before, states@, si as int, b, dirs, xs, ys, cells));
                    }
                }
            }
            a = a + 1;
        }
        proof {
            assert forall|i: int|
                0 <= i < states@.len() && !stack@.contains(#[trigger] states@[i]) implies expanded(
                    table_of(transitions),
                    states@,
                    i,
                    nact as int,
                    dirs,
                    xs,
                    ys,
                    cells,
                ) by {
            }
        }
    }
    let sp = StateSpace { states, forward, reverse, transitions };
    proof {
        assert forall|k: (u64, u8)| #[trigger] table_of(sp.transitions).contains_key(k) <==> k.0 < sp.states@.len() && k.1 < nact by {
            if k.0 < sp.states@.len() && k.1 < nact {
                assert(!stack@.contains(sp.states@[k.0 as int]));
                assert(expanded(table_of(sp.transitions), sp.states@, k.0 as int, nact as int, dirs, xs, ys, cells));
                assert(action_done(table_of(sp.transitions), sp.states@, k.0 as int, k.1, dirs, xs, ys, cells));
            }
        }
        assert forall|i: int| 0 <= i < sp.states@.len() implies #[trigger] expanded(table_of(sp.transitions), sp.states@, i, nact as int, dirs, xs, ys, cells) by {
            assert(!stack@.contains(sp.states@[i]));
        }
    }
    Ok(sp)
}

/// The sum of the probabilities of a table entry list, in hundredths.
pub open spec fn entry_total(v: Seq<Entry>) -> int
    decreases v.len(),
{
    if v.len() == 0 {
        0
    } else {
        entry_total(v.drop_last()) + v.last().percent as int
    }
}

proof fn lemma_entry_total(v: Seq<Entry>, w: Seq<(State, u8)>, states: Seq<State>)
    requires
        entries_are(v, w, states),
    ensures
        entry_total(v) == percent_total(w),
    decreases v.len(),
{
    if v.len() > 0 {
        let n = v.len() - 1;
        assert(v[n].percent == w[n].1);
        assert forall|j: int| 0 <= j < v.drop_last().len() implies (#[trigger] v.drop_last()[j]).target < states.len()
            && states[v.drop_last()[j].target as int] == w.drop_last()[j].0 && v.drop_last()[j].percent == w.drop_last()[j].1
            && v.drop_last()[j].text@ == record_text(w.drop_last()[j].0) by {
            assert(v.drop_last()[j] == v[j]);
        }
        lemma_entry_total(v.drop_last(), w.drop_last(), states);
    }
}

/// In a built model, the probabilities of every outcome list in the table
/// add up to one.
pub proof fn lemma_table_percents(
    sp: StateSpace,
    init: State,
    nact: int,
    dirs: Map<u8, Cell>,
    xsize: int,
    ysize: int,
    racks: Set<Cell>,
)
    requires
        space_ok(sp, init, nact, dirs, xsize, ysize, racks),
    ensures
        forall|k: (u64, u8)| #[trigger] table_of(sp.transitions).contains_key(k) ==> entry_total(table_of(sp.transitions)[k]) == 100,
{
    let table = table_of(sp.transitions);
    let states = sp.states@;
    assert forall|k: (u64, u8)| #[trigger] table.contains_key(k) implies entry_total(table[k]) == 100 by {
        let i = k.0 as int;
        assert(expanded(table, states, i, nact, dirs, xsize, ysize, racks));
        assert(action_done(table, states, i, k.1, dirs, xsize, ysize, racks));
        assert((i as u64, k.1) == k);
        let w = successors(states[i], k.1, dirs, xsize, ysize, racks).unwrap();
        lemma_entry_total(table[k], w, states);
        lemma_percents_total(states[i], k.1, dirs, xsize, ysize, racks);
    }
}

/// Outcome `j` of action `a` from `s` is `t`.
pub open spec fn leads_via(
    s: State,
    t: State,
    a: u8,
    j: int,
    dirs: Map<u8, Cell>,
    xsize: int,
    ysize: int,
    racks: Set<Cell>,
) -> bool {
    &&& successors(s, a, dirs, xsize, ysize, racks) is Ok
    &&& 0 <= j < successors(s, a, dirs, xsize, ysize, racks).unwrap().len()
    &&& successors(s, a, dirs, xsize, ysize, racks).unwrap()[j].0 == t
}

/// Some action below `nact` takes `s` to `t` with a probability above zero.
pub open spec fn leads_to(
    s: State,
    t: State,
    nact: int,
    dirs: Map<u8, Cell>,
    xsize: int,
    ysize: int,
    racks: Set<Cell>,
) -> bool {
    exists|a: u8, j: int| a < nact && #[trigger] leads_via(s, t, a, j, dirs, xsize, ysize, racks)
}

/// `path` starts at `init` and each of its states leads to the next.
pub open spec fn is_run(
    path: Seq<State>,
    init: State,
    nact: int,
    dirs: Map<u8, Cell>,
    xsize: int,
    ysize: int,
    racks: Set<Cell>,
) -> bool {
    &&& path.len() >= 1
    &&& path[0] == init
    &&& forall|i: int| 0 <= i < path.len() - 1 ==> #[trigger] leads_to(path[i], path[i + 1], nact, dirs, xsize, ysize, racks)
}

/// In a built model, every state that a run of actions from the initial
/// state reaches is among the states, under one index that both maps agree
/// on, and has exactly one table key for each action below `nact`.
pub proof fn lemma_closure_complete(
    sp: StateSpace,
    init: State,
    nact: int,
    dirs: Map<u8, Cell>,
    xsize: int,
    ysize: int,
    racks: Set<Cell>,
    path: Seq<State>,
)
    requires
        space_ok(sp, init, nact, dirs, xsize, ysize, racks),
        is_run(path, init, nact, dirs, xsize, ysize, racks),
    ensures
        exists|i: int|
            0 <= i < sp.states@.len() && #[trigger] sp.states@[i] == path.last()
                && index_of(sp.forward)[path.last()] == i && states_of(sp.reverse)[i as u64] == path.last()
                && forall|a: u8| #[trigger] table_of(sp.transitions).contains_key((i as u64, a)) <==> a < nact,
    decreases path.len(),
{
    let states = sp.states@;
    let table = table_of(sp.transitions);
    let i = if path.len() == 1 {
        assert(states[0] == path.last());
        0int
    } else {
        let prev = path.drop_last();
        assert forall|q: int| 0 <= q < prev.len() - 1 implies #[trigger] leads_to(prev[q], prev[q + 1], nact, dirs, xsize, ysize, racks) by {
            assert(leads_to(path[q], path[q + 1], nact, dirs, xsize, ysize, racks));
        }
        lemma_closure_complete(sp, init, nact, dirs, xsize, ysize, racks, prev);
        let p = choose|p: int| 0 <= p < states.len() && #[trigger] states[p] == prev.last();
        let n = path.len() - 2;
        assert(prev.last() == path[n]);
        assert(leads_to(path[n], path[n + 1], nact, dirs, xsize, ysize, racks));
        let (a, j) = choose|a: u8, j: int|
            a < nact && #[trigger] leads_via(path[n], path[n + 1], a, j, dirs, xsize, ysize, racks);
        assert(expanded(table, states, p, nact, dirs, xsize, ysize, racks));
        assert(action_done(table, states, p, a, dirs, xsize, ysize, racks));
        let v = table[(p as u64, a)];
        assert(v[j].target < states.len());
        v[j].target as int
    };
    assert(states[i] == path.last());
    assert forall|a: u8| #[trigger] table.contains_key((i as u64, a)) <==> a < nact by {
        let k = (i as u64, a);
        assert(table.contains_key(k) <==> k.0 < states.len() && k.1 < nact);
    }
}

} // verus!
