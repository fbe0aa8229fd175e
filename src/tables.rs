use vstd::prelude::*;
use crate::state::{Cell, State};

verus! {

/// A set of grid cells, kept in a `hashbrown::HashSet`.
#[verifier::external_body]
pub struct CellSet {
    inner: hashbrown::HashSet<(i8, i8)>,
}

/// The cells that a `CellSet` holds.
pub uninterp spec fn cells_of(s: CellSet) -> Set<Cell>;

/// Direction table: action code to unit offset, kept in a `hashbrown::HashMap`.
#[verifier::external_body]
pub struct DirTable {
    inner: hashbrown::HashMap<u8, (i8, i8)>,
}

/// The offsets that a `DirTable` holds, by action code.
pub uninterp spec fn dirs_of(t: DirTable) -> Map<u8, Cell>;

/// State to index, kept in a `hashbrown::HashMap`.
#[verifier::external_body]
pub struct StateIndex {
    inner: hashbrown::HashMap<State, u64>,
}

/// The index of each state that a `StateIndex` holds.
pub uninterp spec fn index_of(m: StateIndex) -> Map<State, u64>;

/// Index to state, kept in a `hashbrown::HashMap`.
#[verifier::external_body]
pub struct IndexStates {
    inner: hashbrown::HashMap<u64, State>,
}

/// The state under each index that an `IndexStates` holds.
pub uninterp spec fn states_of(m: IndexStates) -> Map<u64, State>;

/// One outcome of an action, as recorded in the transition table: the index
/// of the successor state, its probability in hundredths, and the successor
/// as a record text.
#[derive(Clone, Debug, PartialEq, Eq)]
pub struct Entry {
    pub target: u64,
    pub percent: u8,
    pub text: String,
}

/// (state index, action code) to outcome list, kept in a `hashbrown::HashMap`.
#[verifier::external_body]
pub struct TransitionTable {
    inner: hashbrown::HashMap<(u64, u8), Vec<Entry>>,
}

/// The outcome list under each key that a `TransitionTable` holds.
pub uninterp spec fn table_of(t: TransitionTable) -> Map<(u64, u8), Seq<Entry>>;

impl CellSet {
    /// Relies on hashbrown::HashSet::new: the set starts empty.
    #[verifier::external_body]
    pub(crate) fn empty() -> (r: CellSet)
        ensures
            cells_of(r) == Set::<Cell>::empty(),
    {
        CellSet { inner: hashbrown::HashSet::new() }
    }

    /// Relies on hashbrown::HashSet::insert: afterwards the set holds `c`
    /// besides what it held.
    #[verifier::external_body]
    pub(crate) fn add(&mut self, c: Cell)
        ensures
            cells_of(*final(self)) == cells_of(*old(self)).insert(c),
    {
        self.inner.insert((c.x, c.y));
    }

    /// Relies on hashbrown::HashSet::contains: whether the set holds `c`.
    #[verifier::external_body]
    pub(crate) fn has(&self, c: Cell) -> (r: bool)
        ensures
            r == cells_of(*self).contains(c),
    {
        self.inner.contains(&(c.x, c.y))
    }

    /// The set of the given cells.
    pub fn from_cells(cells: &Vec<Cell>) -> (r: CellSet)
        ensures
            forall|c: Cell| #[trigger] cells_of(r).contains(c) <==> exists|j: int|
                0 <= j < cells@.len() && cells@[j] == c,
    {
        let mut s = CellSet::empty();
        let mut i: usize = 0;
        while i < cells.len()
            invariant
                i <= cells.len(),
                forall|c: Cell| #[trigger] cells_of(s).contains(c) <==> exists|j: int|
                    0 <= j < i && cells@[j] == c,
            decreases cells.len() - i,
        {
            s.add(cells[i]);
            assert forall|c: Cell| #[trigger] cells_of(s).contains(c) <==> exists|j: int|
                0 <= j < i + 1 && cells@[j] == c by {
                if c == cells@[i as int] {
                    assert(cells@[i as int] == c);
                }
            }
            i = i + 1;
        }
        s
    }

    /// Whether `c` is in the set.
    pub fn contains(&self, c: Cell) -> (r: bool)
        ensures
            r == cells_of(*self).contains(c),
    {
        self.has(c)
    }
}

impl DirTable {
    /// Relies on hashbrown::HashMap::new: the table starts empty.
    #[verifier::external_body]
    pub(crate) fn empty() -> (r: DirTable)
        ensures
            dirs_of(r).dom().is_empty(),
    {
        DirTable { inner: hashbrown::HashMap::new() }
    }

    /// Relies on hashbrown::HashMap::insert: `code` maps to `d` afterwards,
    /// the other keys keep their values.
    #[verifier::external_body]
    pub(crate) fn put(&mut self, code: u8, d: Cell)
        ensures
            dirs_of(*final(self)) == dirs_of(*old(self)).insert(code, d),
    {
        self.inner.insert(code, (d.x, d.y));
    }

    /// Relies on hashbrown::HashMap::get: the value under `code`, if any.
    #[verifier::external_body]
    pub(crate) fn lookup(&self, code: u8) -> (r: Option<Cell>)
        ensures
            r.is_some() == dirs_of(*self).contains_key(code),
            r matches Some(d) ==> d == dirs_of(*self)[code],
    {
        self.inner.get(&code).map(|d| Cell { x: d.0, y: d.1 })
    }

    /// The table of the given (code, offset) pairs; a later pair overrides
    /// an earlier one with the same code.
    pub fn from_pairs(pairs: &Vec<(u8, Cell)>) -> (r: DirTable)
        ensures
            forall|c: u8| #[trigger] dirs_of(r).contains_key(c) <==> exists|i: int|
                0 <= i < pairs@.len() && (#[trigger] pairs@[i]).0 == c,
            forall|i: int|
                0 <= i < pairs@.len() && (forall|j: int|
                    i < j < pairs@.len() ==> (#[trigger] pairs@[j]).0 != pairs@[i].0)
                    ==> dirs_of(r)[(#[trigger] pairs@[i]).0] == pairs@[i].1,
    {
        let mut t = DirTable::empty();
        let mut k: usize = 0;
        while k < pairs.len()
            invariant
                k <= pairs.len(),
                forall|c: u8| #[trigger] dirs_of(t).contains_key(c) <==> exists|i: int|
                    0 <= i < k && (#[trigger] pairs@[i]).0 == c,
                forall|i: int|
                    0 <= i < k && (forall|j: int|
                        i < j < k ==> (#[trigger] pairs@[j]).0 != pairs@[i].0)
                        ==> dirs_of(t)[(#[trigger] pairs@[i]).0] == pairs@[i].1,
            decreases pairs.len() - k,
        {
            let (c, d) = pairs[k];
            t.put(c, d);
            assert forall|cc: u8| #[trigger] dirs_of(t).contains_key(cc) <==> exists|i: int|
                0 <= i < k + 1 && (#[trigger] pairs@[i]).0 == cc by {
                if cc == c {
                    assert(pairs@[k as int].0 == cc);
                }
            }
            k = k + 1;
        }
        t
    }

    /// The offset of action `code`, if the table has one.
    pub fn get(&self, code: u8) -> (r: Option<Cell>)
        ensures
            r.is_some() == dirs_of(*self).contains_key(code),
            r matches Some(d) ==> d == dirs_of(*self)[code],
    {
        self.lookup(code)
    }
}

impl StateIndex {
    /// Relies on hashbrown::HashMap::new: the map starts empty.
    #[verifier::external_body]
    pub(crate) fn empty() -> (r: StateIndex)
        ensures
            index_of(r).dom().is_empty(),
    {
        StateIndex { inner: hashbrown::HashMap::new() }
    }

    /// Relies on hashbrown::HashMap::insert: `s` maps to `i` afterwards,
    /// the other keys keep their values.
    #[verifier::external_body]
    pub(crate) fn put(&mut self, s: State, i: u64)
        ensures
            index_of(*final(self)) == index_of(*old(self)).insert(s, i),
    {
        self.inner.insert(s, i);
    }

    /// Relies on hashbrown::HashMap::get: the value under `s`, if any.
    #[verifier::external_body]
    pub(crate) fn lookup(&self, s: &State) -> (r: Option<u64>)
        ensures
            r.is_some() == index_of(*self).contains_key(*s),
            r matches Some(i) ==> i == index_of(*self)[*s],
    {
        self.inner.get(s).copied()
    }
}

impl IndexStates {
    /// Relies on hashbrown::HashMap::new: the map starts empty.
    #[verifier::external_body]
    pub(crate) fn empty() -> (r: IndexStates)
        ensures
            states_of(r).dom().is_empty(),
    {
        IndexStates { inner: hashbrown::HashMap::new() }
    }

    /// Relies on hashbrown::HashMap::insert: `i` maps to `s` afterwards,
    /// the other keys keep their values.
    #[verifier::external_body]
    pub(crate) fn put(&mut self, i: u64, s: State)
        ensures
            states_of(*final(self)) == states_of(*old(self)).insert(i, s),
    {
        self.inner.insert(i, s);
    }

    /// Relies on hashbrown::HashMap::get: the value under `i`, if any.
    #[verifier::external_body]
    pub(crate) fn lookup(&self, i: u64) -> (r: Option<State>)
        ensures
            r.is_some() == states_of(*self).contains_key(i),
            r matches Some(s) ==> s == states_of(*self)[i],
    {
        self.inner.get(&i).copied()
    }
}

impl TransitionTable {
    /// Relies on hashbrown::HashMap::new: the table starts empty.
    #[verifier::external_body]
    pub(crate) fn empty() -> (r: TransitionTable)
        ensures
            table_of(r).dom().is_empty(),
    {
        TransitionTable { inner: hashbrown::HashMap::new() }
    }

    /// Relies on hashbrown::HashMap::insert: `k` maps to `v` afterwards,
    /// the other keys keep their values.
    #[verifier::external_body]
    pub(crate) fn put(&mut self, k: (u64, u8), v: Vec<Entry>)
        ensures
            table_of(*final(self)) == table_of(*old(self)).insert(k, v@),
    {
        self.inner.insert(k, v);
    }

    /// Relies on hashbrown::HashMap::get: a copy of the list under `k`, if any.
    #[verifier::external_body]
    pub(crate) fn lookup(&self, k: (u64, u8)) -> (r: Option<Vec<Entry>>)
        ensures
            r.is_some() == table_of(*self).contains_key(k),
            r matches Some(v) ==> v@ == table_of(*self)[k],
    {
        self.inner.get(&k).cloned()
    }
}

} // verus!
