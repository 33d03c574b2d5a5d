use vstd::prelude::*;
use crate::text::{key_lt, str_eq};

verus! {

/// A map from string keys to values, kept in increasing key order.
#[derive(Debug)]
pub struct DiffMap<V> {
    entries: Vec<(String, V)>,
}

impl<V> DiffMap<V> {
    /// The entries, in increasing key order.
    pub closed spec fn pairs(&self) -> Seq<(Seq<char>, V)> {
        self.entries@.map_values(|e: (String, V)| (e.0@, e.1))
    }

    /// Whether some entry has the key `k`.
    pub open spec fn has(&self, k: Seq<char>) -> bool {
        exists|i: int| 0 <= i < self.pairs().len() && #[trigger] self.pairs()[i].0 == k
    }

    pub fn new() -> (m: Self)
        ensures
            m.pairs() == Seq::<(Seq<char>, V)>::empty(),
    {
        let m = DiffMap { entries: Vec::new() };
        assert(m.pairs() =~= Seq::<(Seq<char>, V)>::empty());
        m
    }

    pub fn len(&self) -> (n: usize)
        ensures
            n == self.pairs().len(),
    {
        self.entries.len()
    }

    pub fn is_empty(&self) -> (b: bool)
        ensures
            b == (self.pairs().len() == 0),
    {
        self.entries.len() == 0
    }

    /// Whether the map has an entry for `key`.
    pub fn contains_key(&self, key: &str) -> (b: bool)
        ensures
            b == self.has(key@),
    {
        let mut i: usize = 0;
        while i < self.entries.len()
            invariant
                i <= self.entries@.len(),
                self.pairs().len() == self.entries@.len(),
                forall|j: int| 0 <= j < i ==> self.pairs()[j].0 != key@,
            decreases self.entries.len() - i,
        {
            assert(self.pairs()[i as int].0 == self.entries@[i as int].0@);
            if str_eq(self.entries[i].0.as_str(), key) {
                return true;
            }
            i += 1;
        }
        false
    }

    /// The value stored for `key`, if any.
    pub fn get(&self, key: &str) -> (r: Option<&V>)
        ensures
            match r {
                Some(v) => exists|i: int| 0 <= i < self.pairs().len() && self.pairs()[i] == (key@, *v),
                None => !self.has(key@),
            },
    {
        let mut i: usize = 0;
        while i < self.entries.len()
            invariant
                i <= self.entries@.len(),
                self.pairs().len() == self.entries@.len(),
                forall|j: int| 0 <= j < i ==> self.pairs()[j].0 != key@,
            decreases self.entries.len() - i,
        {
            assert(self.pairs()[i as int] == (self.entries@[i as int].0@, self.entries@[i as int].1));
            if str_eq(self.entries[i].0.as_str(), key) {
                return Some(&self.entries[i].1);
            }
            i += 1;
        }
        None
    }

    /// Adds an entry whose key follows every key present.
    pub(crate) fn push_last(&mut self, key: String, value: V)
        requires
            forall|j: int| 0 <= j < old(self).pairs().len() ==> key_lt(#[trigger] old(self).pairs()[j].0, key@),
        ensures
            final(self).pairs() == old(self).pairs().push((key@, value)),
    {
        let ghost k = key@;
        self.entries.push((key, value));
        assert(self.pairs() =~= old(self).pairs().push((k, value)));
    }
}

/// Represents the differences between two versions of a Merkle structure.
#[derive(Debug)]
pub struct CashewDiff {
    /// Keys that were inserted: key -> value.
    pub inserted: DiffMap<String>,
    /// Keys that were deleted: key -> old_value.
    pub deleted: DiffMap<String>,
    /// Keys that were modified.
    pub modified: DiffMap<ModifiedEntry>,
}

/// A single modified entry in a diff.
#[derive(Debug)]
pub struct ModifiedEntry {
    /// The old CID or value.
    pub old: String,
    /// The new CID or value.
    pub new: String,
    /// Recursive diff if the values are nested structures; `None` when they are not.
    pub children: Option<Box<CashewDiff>>,
}

/// Views of string-valued entries.
pub open spec fn string_pairs(p: Seq<(Seq<char>, String)>) -> Seq<(Seq<char>, Seq<char>)> {
    p.map_values(|e: (Seq<char>, String)| (e.0, e.1@))
}

/// Views of modified entries: the key with the old and the new value.
pub open spec fn modified_pairs(p: Seq<(Seq<char>, ModifiedEntry)>) -> Seq<(Seq<char>, (Seq<char>, Seq<char>))> {
    p.map_values(|e: (Seq<char>, ModifiedEntry)| (e.0, (e.1.old@, e.1.new@)))
}

impl CashewDiff {
    /// No change is recorded.
    pub open spec fn empty_spec(&self) -> bool {
        &&& self.inserted.pairs().len() == 0
        &&& self.deleted.pairs().len() == 0
        &&& self.modified.pairs().len() == 0
    }

    /// The number of recorded changes.
    pub open spec fn count_spec(&self) -> nat {
        self.inserted.pairs().len() + self.deleted.pairs().len() + self.modified.pairs().len()
    }

    pub fn new() -> (d: Self)
        ensures
            d.empty_spec(),
    {
        CashewDiff { inserted: DiffMap::new(), deleted: DiffMap::new(), modified: DiffMap::new() }
    }

    pub fn is_empty(&self) -> (b: bool)
        ensures
            b == self.empty_spec(),
            b == (self.inserted.pairs().len() == 0 && self.deleted.pairs().len() == 0
                && self.modified.pairs().len() == 0),
    {
        self.inserted.is_empty() && self.deleted.is_empty() && self.modified.is_empty()
    }

    pub fn change_count(&self) -> (n: usize)
        requires
            self.count_spec() <= usize::MAX,
        ensures
            n == self.count_spec(),
    {
        self.inserted.len() + self.deleted.len() + self.modified.len()
    }
}

impl Default for CashewDiff {
    fn default() -> (d: Self)
        ensures
            d.empty_spec(),
    {
        Self::new()
    }
}

/// A diff is empty exactly when it records no change: no inserted, no deleted
/// and no modified entry.
pub proof fn lemma_diff_empty_iff_no_change(d: CashewDiff)
    ensures
        d.empty_spec() <==> d.inserted.pairs().len() + d.deleted.pairs().len() + d.modified.pairs().len() == 0,
        d.empty_spec() <==> d.count_spec() == 0,
{
}

} // verus!
