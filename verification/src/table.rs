//! The value table: a mapping from board contents to a value estimate.
//!
//! Entries are kept as a vector of pairs whose board keys are pairwise
//! distinct, so the table denotes a finite map from grid contents to values.
//! Iteration order is the order of first insertion.

use crate::game::{Board, Cell};
use crate::value::SCALE;
use vstd::prelude::*;

verus! {

/// Error returned when an entry is updated before it was ever initialized.
#[derive(Copy, Clone, PartialEq, Eq, Structural, Debug)]
pub enum TableError {
    MissingEntry,
}

/// A mapping from board contents to a value estimate in `[0, SCALE]`, with
/// entries created on first access and never removed.
pub struct ValueTable {
    entries: Vec<(Board, u64)>,
}

impl ValueTable {
    /// The stored pairs, in insertion order.
    pub closed spec fn entries_seq(self) -> Seq<(Board, u64)> {
        self.entries@
    }

    /// The mapping from board contents to the stored value.
    pub closed spec fn as_map(self) -> Map<Seq<Cell>, u64> {
        Self::map_of(self.entries@)
    }

    spec fn map_of(s: Seq<(Board, u64)>) -> Map<Seq<Cell>, u64>
        decreases s.len(),
    {
        if s.len() == 0 {
            Map::empty()
        } else {
            Self::map_of(s.drop_last()).insert(s.last().0@, s.last().1)
        }
    }

    spec fn unique_keys(s: Seq<(Board, u64)>) -> bool {
        forall|i: int, j: int| 0 <= i < j < s.len() ==> s[i].0@ != s[j].0@
    }

    /// Well-formed: board keys pairwise distinct and values within scale.
    pub closed spec fn wf(self) -> bool {
        &&& Self::unique_keys(self.entries@)
        &&& forall|i: int| 0 <= i < self.entries@.len() ==> self.entries@[i].1 <= SCALE
    }

    proof fn lemma_map_of_contains(s: Seq<(Board, u64)>, k: Seq<Cell>)
        ensures
            Self::map_of(s).contains_key(k) <==> exists|i: int| 0 <= i < s.len() && s[i].0@ == k,
        decreases s.len(),
    {
        if s.len() > 0 {
            Self::lemma_map_of_contains(s.drop_last(), k);
            if s.last().0@ == k {
                assert(s[s.len() - 1].0@ == k);
            } else if Self::map_of(s).contains_key(k) {
                let i = choose|i: int| 0 <= i < s.drop_last().len() && s.drop_last()[i].0@ == k;
                assert(s[i].0@ == k);
            } else if exists|i: int| 0 <= i < s.len() && s[i].0@ == k {
                let i = choose|i: int| 0 <= i < s.len() && s[i].0@ == k;
                assert(s.drop_last()[i].0@ == k);
            }
        }
    }

    proof fn lemma_map_of_index(s: Seq<(Board, u64)>, i: int)
        requires
            0 <= i < s.len(),
            forall|j: int| i < j < s.len() ==> s[j].0@ != s[i].0@,
        ensures
            Self::map_of(s).contains_key(s[i].0@),
            Self::map_of(s)[s[i].0@] == s[i].1,
        decreases s.len(),
    {
        if i == s.len() - 1 {
        } else {
            assert(s.drop_last()[i] == s[i]);
            Self::lemma_map_of_index(s.drop_last(), i);
        }
    }

    proof fn lemma_map_of_push(s: Seq<(Board, u64)>, b: Board, v: u64)
        ensures
            Self::map_of(s.push((b, v))) == Self::map_of(s).insert(b@, v),
    {
        assert(s.push((b, v)).drop_last() =~= s);
    }

    proof fn lemma_map_of_update(s: Seq<(Board, u64)>, i: int, b: Board, v: u64)
        requires
            Self::unique_keys(s),
            0 <= i < s.len(),
            s[i].0@ == b@,
        ensures
            Self::map_of(s.update(i, (b, v))) =~= Self::map_of(s).insert(b@, v),
        decreases s.len(),
    {
        let t = s.update(i, (b, v));
        if i == s.len() - 1 {
            assert(t.drop_last() =~= s.drop_last());
        } else {
            assert(t.drop_last() =~= s.drop_last().update(i, (b, v)));
            assert(s.drop_last()[i] == s[i]);
            Self::lemma_map_of_update(s.drop_last(), i, b, v);
            assert(t.last() == s.last());
            assert(s.last().0@ != b@);
        }
    }

    /// A table with no entries.
    pub fn new() -> (t: ValueTable)
        ensures
            t.wf(),
            t.as_map() == Map::<Seq<Cell>, u64>::empty(),
            t.entries_seq() == Seq::<(Board, u64)>::empty(),
    {
        ValueTable { entries: Vec::new() }
    }

    /// The number of stored entries.
    pub fn len(&self) -> (n: usize)
        ensures
            n == self.entries_seq().len(),
    {
        self.entries.len()
    }

    /// The stored pairs, in insertion order.
    pub fn entries(&self) -> (r: &Vec<(Board, u64)>)
        ensures
            r@ == self.entries_seq(),
    {
        &self.entries
    }

    /// The stored value for a board, if one is present.
    pub fn lookup(&self, b: &Board) -> (r: Option<u64>)
        requires
            self.wf(),
        ensures
            match r {
                Some(v) => self.as_map().contains_key(b@) && self.as_map()[b@] == v && v <= SCALE,
                None => !self.as_map().contains_key(b@),
            },
    {
        let n = self.entries.len();
        let mut i: usize = 0;
        while i < n
            invariant
                self.wf(),
                n == self.entries@.len(),
                0 <= i <= n,
                forall|j: int| 0 <= j < i ==> self.entries@[j].0@ != b@,
            decreases n - i,
        {
            if self.entries[i].0 == *b {
                proof {
                    Self::lemma_map_of_index(self.entries@, i as int);
                }
                return Some(self.entries[i].1);
            }
            i += 1;
        }
        proof {
            Self::lemma_map_of_contains(self.entries@, b@);
        }
        None
    }

    /// Whether the table holds an entry for this board.
    pub fn contains(&self, b: &Board) -> (r: bool)
        requires
            self.wf(),
        ensures
            r == self.as_map().contains_key(b@),
    {
        match self.lookup(b) {
            Some(_) => true,
            None => false,
        }
    }

    /// Adds an entry for a board not yet present.
    pub fn insert(&mut self, b: Board, v: u64)
        requires
            old(self).wf(),
            !old(self).as_map().contains_key(b@),
            v <= SCALE,
        ensures
            final(self).wf(),
            final(self).as_map() == old(self).as_map().insert(b@, v),
            final(self).entries_seq() == old(self).entries_seq().push((b, v)),
    {
        proof {
            Self::lemma_map_of_contains(self.entries@, b@);
            Self::lemma_map_of_push(self.entries@, b, v);
        }
        self.entries.push((b, v));
    }

    /// Overwrites the stored value of a board already present; updating an
    /// absent key is refused and leaves the table unchanged.
    pub fn set(&mut self, b: &Board, v: u64) -> (r: Result<(), TableError>)
        requires
            old(self).wf(),
            v <= SCALE,
        ensures
            final(self).wf(),
            old(self).as_map().contains_key(b@) ==> {
                &&& r == Ok::<(), TableError>(())
                &&& final(self).as_map() == old(self).as_map().insert(b@, v)
                &&& final(self).entries_seq().len() == old(self).entries_seq().len()
                &&& forall|j: int|
                    0 <= j < old(self).entries_seq().len() ==> final(self).entries_seq()[j].0
                        == old(self).entries_seq()[j].0
                &&& forall|j: int|
                    0 <= j < old(self).entries_seq().len() ==> final(self).entries_seq()[j].1 == (
                    if old(self).entries_seq()[j].0@ == b@ {
                        v
                    } else {
                        old(self).entries_seq()[j].1
                    })
            },
            !old(self).as_map().contains_key(b@) ==> r == Err::<(), TableError>(
                TableError::MissingEntry,
            ) && *final(self) == *old(self),
    {
        let n = self.entries.len();
        let mut i: usize = 0;
        while i < n
            invariant
                self.wf(),
                self == old(self),
                v <= SCALE,
                n == self.entries@.len(),
                0 <= i <= n,
                forall|j: int| 0 <= j < i ==> self.entries@[j].0@ != b@,
            decreases n - i,
        {
            if self.entries[i].0 == *b {
                let stored = self.entries[i].0;
                proof {
                    Self::lemma_map_of_index(self.entries@, i as int);
                    Self::lemma_map_of_update(self.entries@, i as int, stored, v);
                }
                self.entries[i] = (stored, v);
                proof {
                    let es = self.entries@;
                    let os = old(self).entries@;
                    assert(forall|j: int| 0 <= j < es.len() ==> es[j].0 == os[j].0);
                    assert(Self::unique_keys(es)) by {
                        assert forall|p: int, q: int|
                            0 <= p < q < es.len() implies es[p].0@ != es[q].0@ by {
                            assert(os[p].0@ != os[q].0@);
                        }
                    }
                }
                return Ok(());
            }
            i += 1;
        }
        proof {
            Self::lemma_map_of_contains(self.entries@, b@);
        }
        Err(TableError::MissingEntry)
    }

    /// Returns the stored value if the board is present; otherwise stores
    /// `default` as its value and returns it. Every board an agent ever
    /// evaluates thereby becomes an entry.
    pub fn get_or_init(&mut self, b: &Board, default: u64) -> (r: u64)
        requires
            old(self).wf(),
            default <= SCALE,
        ensures
            final(self).wf(),
            r == if old(self).as_map().contains_key(b@) {
                old(self).as_map()[b@]
            } else {
                default
            },
            r <= SCALE,
            final(self).as_map() == old(self).as_map().insert(b@, r),
            final(self).entries_seq() == if old(self).as_map().contains_key(b@) {
                old(self).entries_seq()
            } else {
                old(self).entries_seq().push((*b, default))
            },
    {
        match self.lookup(b) {
            Some(v) => {
                proof {
                    assert(self.as_map() =~= self.as_map().insert(b@, v));
                }
                v
            },
            None => {
                self.insert(*b, default);
                default
            },
        }
    }
}

/// A well-formed table's stored values all lie within one unit.
pub proof fn lemma_table_wf_values(t: ValueTable)
    requires
        t.wf(),
    ensures
        forall|i: int| 0 <= i < t.entries_seq().len() ==> (#[trigger] t.entries_seq()[i]).1 <= SCALE,
{
}

} // verus!
