use vstd::prelude::*;
use crate::merkle::resolve::resolved_links;
use crate::merkle::radix_node::{trie_wf, RadixNode};
use crate::error::CashewError;
use crate::merkle::decode::lazy_links;
use crate::merkle::dictionary::{
    count_string, count_text,
    dict_bytes,
    empty_key_message, lemma_dict_key_nonempty, lemma_dict_size, lemma_loaded_iff, strings_view,
    DictModel, MerkleDictionary,
};
use crate::text::{key_lt, lemma_key_lt_irreflexive};

verus! {

/// The members of `b` that `a` holds too, each with an empty value.
pub open spec fn intersection_map(
    a: Map<Seq<char>, Seq<char>>,
    b: Map<Seq<char>, Seq<char>>,
) -> Map<Seq<char>, Seq<char>> {
    Map::new(|k: Seq<char>| a.contains_key(k) && b.contains_key(k), |k: Seq<char>| Seq::<char>::empty())
}

/// The entries of `a`, and each member of `b` missing from `a` with an empty value.
pub open spec fn union_map(
    a: Map<Seq<char>, Seq<char>>,
    b: Map<Seq<char>, Seq<char>>,
) -> Map<Seq<char>, Seq<char>> {
    Map::new(
        |k: Seq<char>| a.contains_key(k) || b.contains_key(k),
        |k: Seq<char>| if a.contains_key(k) { a[k] } else { Seq::<char>::empty() },
    )
}

/// Every key of `keys` can be looked up in `d`.
pub open spec fn all_reachable(d: DictModel, keys: Set<Seq<char>>) -> bool {
    forall|k: Seq<char>| #[trigger] keys.contains(k) ==> !d.blocked(k)
}

/// The members of `d`: the keys that it stores.
pub open spec fn member_set(d: DictModel) -> Set<Seq<char>> {
    d.map().dom()
}

/// A set with string members, backed by a `MerkleDictionary<String>`.
///
/// Stores members as keys with empty string values.
#[derive(Debug)]
pub struct MerkleSet {
    inner: MerkleDictionary<String>,
}

impl View for MerkleSet {
    type V = DictModel;

    closed spec fn view(&self) -> DictModel {
        self.inner@
    }
}

impl MerkleSet {
    /// The set's internal invariant: that of its dictionary.
    pub open spec fn wf(&self) -> bool {
        self@.wf()
    }

    pub fn new() -> (s: Self)
        ensures
            s.wf(),
            s@.links.len() == 0,
            s@.count == 0,
            s@.map() == Map::<Seq<char>, Seq<char>>::empty(),
            s@.counted(),
    {
        MerkleSet { inner: MerkleDictionary::new() }
    }

    pub fn from_dictionary(dict: MerkleDictionary<String>) -> (s: Self)
        ensures
            s@ == dict@,
    {
        MerkleSet { inner: dict }
    }

    pub fn len(&self) -> (n: usize)
        ensures
            n == self@.count,
    {
        self.inner.len()
    }

    pub fn is_empty(&self) -> (b: bool)
        ensures
            b == (self@.count == 0),
    {
        self.inner.is_empty()
    }

    /// Inserts a member (stored with an empty value); fails when it is empty.
    pub fn insert(&self, member: &str) -> (r: Result<Self, CashewError>)
        requires
            self.wf(),
            self@.get(member@) is None ==> self@.count < usize::MAX,
        ensures
            member@.len() == 0 ==> (r matches Err(CashewError::InvalidKey(m)) && empty_key_message(m)),
            self@.blocked(member@) ==> r == Err::<Self, CashewError>(CashewError::NodeNotAvailable),
            member@.len() > 0 && !self@.blocked(member@) ==> (r matches Ok(s) && s.wf() && s@.map()
                == self@.map().insert(member@, Seq::<char>::empty()) && s@.count == (if self@.get(member@) is Some {
                self@.count
            } else {
                self@.count + 1
            }) && forall|k: Seq<char>| #[trigger] s@.blocked(k) == self@.blocked(k)),
            r matches Ok(s) ==> (self@.counted() ==> s@.counted()),
    {
        match self.inner.inserting(member, String::new()) {
            Ok(d) => Ok(MerkleSet { inner: d }),
            Err(e) => Err(e),
        }
    }

    /// Removes a member; an absent member leaves the set unchanged.
    pub fn remove(&self, member: &str) -> (r: Result<Self, CashewError>)
        requires
            self.wf(),
        ensures
            member@.len() == 0 ==> (r matches Err(CashewError::InvalidKey(m)) && empty_key_message(m)),
            self@.blocked(member@) ==> r == Err::<Self, CashewError>(CashewError::NodeNotAvailable),
            member@.len() > 0 && !self@.blocked(member@) && self@.get(member@) is None ==> (r matches Ok(s)
                && s.wf() && s@ == self@),
            member@.len() > 0 && !self@.blocked(member@) && self@.get(member@) is Some ==> (r matches Ok(s)
                && s.wf() && s@.map() == self@.map().remove(member@) && s@.count == (if self@.count > 0 {
                self@.count - 1
            } else {
                0
            }) && forall|k: Seq<char>| #[trigger] s@.blocked(k) == self@.blocked(k)),
            r matches Ok(s) ==> (self@.counted() ==> s@.counted()),
    {
        match self.inner.deleting(member) {
            Ok(d) => Ok(MerkleSet { inner: d }),
            Err(e) => Err(e),
        }
    }

    /// Returns true if the set contains the member.
    pub fn contains(&self, member: &str) -> (r: Result<bool, CashewError>)
        requires
            self.wf(),
        ensures
            self@.blocked(member@) ==> r == Err::<bool, CashewError>(CashewError::NodeNotAvailable),
            !self@.blocked(member@) ==> r == Ok::<bool, CashewError>(member_set(self@).contains(member@)),
    {
        match self.inner.get(member) {
            Ok(v) => Ok(v.is_some()),
            Err(e) => Err(e),
        }
    }

    /// Returns all members, in increasing order.
    pub fn members(&self) -> (r: Result<Vec<String>, CashewError>)
        requires
            self.wf(),
        ensures
            !self@.loaded() ==> r == Err::<Vec<String>, CashewError>(CashewError::NodeNotAvailable),
            self@.loaded() ==> (r matches Ok(keys) && strings_view(keys@) == self@.keys()),
            self@.loaded() ==> (r matches Ok(keys) && (forall|i: int|
                0 <= i < keys@.len() ==> #[trigger] member_set(self@).contains(keys@[i]@))
                && (forall|k: Seq<char>| #[trigger] member_set(self@).contains(k) ==> exists|i: int|
                0 <= i < keys@.len() && keys@[i]@ == k) && (forall|i: int, j: int|
                0 <= i < j < keys@.len() ==> key_lt(#[trigger] keys@[i]@, #[trigger] keys@[j]@))),
    {
        self.inner.all_keys()
    }

    /// Returns the members sorted; the listing of `members` is in increasing
    /// order already.
    pub fn sorted_members(&self) -> (r: Result<Vec<String>, CashewError>)
        requires
            self.wf(),
        ensures
            !self@.loaded() ==> r == Err::<Vec<String>, CashewError>(CashewError::NodeNotAvailable),
            self@.loaded() ==> (r matches Ok(keys) && strings_view(keys@) == self@.keys() && (forall|i: int, j: int|
                0 <= i < j < keys@.len() ==> key_lt(#[trigger] keys@[i]@, #[trigger] keys@[j]@))),
    {
        self.inner.all_keys()
    }

    pub fn as_dictionary(&self) -> (d: &MerkleDictionary<String>)
        ensures
            d@ == self@,
    {
        &self.inner
    }
}

impl Clone for MerkleSet {
    fn clone(&self) -> (r: Self)
        ensures
            r@ == self@,
    {
        MerkleSet { inner: self.inner.clone() }
    }
}

impl Default for MerkleSet {
    fn default() -> (s: Self)
        ensures
            s.wf(),
            s@.count == 0,
            s@.map() == Map::<Seq<char>, Seq<char>>::empty(),
    {
        Self::new()
    }
}


impl MerkleSet {
    /// Returns the union of two sets: this set's entries, and each member of
    /// `other` that it lacks.
    pub fn union(&self, other: &Self) -> (r: Result<Self, CashewError>)
        requires
            self.wf(),
            other.wf(),
            self@.count + member_set(other@).difference(member_set(self@)).len() <= usize::MAX,
        ensures
            !(other@.loaded() && all_reachable(self@, member_set(other@))) ==> r == Err::<Self, CashewError>(
                CashewError::NodeNotAvailable,
            ),
            other@.loaded() && all_reachable(self@, member_set(other@)) ==> (r matches Ok(s) && s.wf()
                && s@.map() == union_map(self@.map(), other@.map())
                && s@.count == self@.count + member_set(other@).difference(member_set(self@)).len()
                && forall|k: Seq<char>| #[trigger] s@.blocked(k) == self@.blocked(k)),
    {
        let keys = match other.members() {
            Ok(k) => k,
            Err(e) => return Err(e),
        };
        let mut result = self.clone();
        let ghost sd = member_set(self@);
        let ghost mut added: Set<Seq<char>> = Set::empty();
        assert(keys@.len() == strings_view(keys@).len());
        proof {
            let ks = strings_view(keys@).to_set();
            vstd::seq_lib::seq_to_set_is_finite(strings_view(keys@));
            assert(member_set(other@).difference(sd).subset_of(ks)) by {
                assert forall|k: Seq<char>| #[trigger] member_set(other@).difference(sd).contains(k) implies ks.contains(k) by {
                    let j = choose|j: int| 0 <= j < keys@.len() && keys@[j]@ == k;
                    assert(strings_view(keys@)[j] == k);
                }
            }
            vstd::set_lib::lemma_len_subset(member_set(other@).difference(sd), ks);
        }
        let mut i: usize = 0;
        while i < keys.len()
            invariant
                i <= keys@.len(),
                self.wf(),
                other@.loaded(),
                sd == member_set(self@),
                member_set(other@).difference(sd).finite(),
                self@.count + member_set(other@).difference(sd).len() <= usize::MAX,
                forall|j: int| 0 <= j < keys@.len() ==> #[trigger] member_set(other@).contains(keys@[j]@),
                forall|k: Seq<char>| #[trigger] member_set(other@).contains(k) ==> exists|j: int|
                    0 <= j < keys@.len() && keys@[j]@ == k,
                forall|a: int, b: int| 0 <= a < b < keys@.len() ==> key_lt(#[trigger] keys@[a]@, #[trigger] keys@[b]@),
                forall|j: int| 0 <= j < i ==> !self@.blocked(#[trigger] keys@[j]@),
                result.wf(),
                forall|k: Seq<char>| #[trigger] result@.blocked(k) == self@.blocked(k),
                added.finite(),
                added.len() <= i,
                forall|k: Seq<char>| #[trigger] added.contains(k) <==> (!sd.contains(k) && exists|j: int|
                    0 <= j < i && keys@[j]@ == k),
                forall|k: Seq<char>| #[trigger] member_set(result@).contains(k) <==> (sd.contains(k) || added.contains(k)),
                forall|k: Seq<char>| sd.contains(k) ==> #[trigger] result@.map()[k] == self@.map()[k],
                forall|k: Seq<char>| added.contains(k) ==> #[trigger] result@.map()[k] == Seq::<char>::empty(),
                result@.count == self@.count + added.len(),
            decreases keys.len() - i,
        {
            let ghost k = keys@[i as int]@;
            let present = match result.contains(keys[i].as_str()) {
                Ok(b) => b,
                Err(e) => {
                    assert(member_set(other@).contains(k));
                    return Err(e);
                },
            };
            proof {
                assert(member_set(other@).contains(k));
                lemma_dict_key_nonempty(other@, k);
                if added.contains(k) {
                    let j = choose|j: int| 0 <= j < i && keys@[j]@ == k;
                    assert(key_lt(keys@[j]@, keys@[i as int]@));
                    lemma_key_lt_irreflexive(k);
                }
            }
            if !present {
                proof {
                    let od = member_set(other@);
                    assert(!added.contains(k));
                    assert(added.insert(k).subset_of(od.difference(sd))) by {
                        assert forall|kk: Seq<char>| #[trigger] added.insert(k).contains(kk) implies od.difference(
                            sd,
                        ).contains(kk) by {
                            if added.contains(kk) {
                                let j = choose|j: int| 0 <= j < i && keys@[j]@ == kk;
                                assert(od.contains(keys@[j]@));
                            }
                        }
                    }
                    vstd::set_lib::lemma_len_subset(added.insert(k), od.difference(sd));
                }
                let next = match result.insert(keys[i].as_str()) {
                    Ok(s) => s,
                    Err(e) => return Err(e),
                };
                result = next;
                proof {
                    added = added.insert(k);
                }
            }
            proof {
                assert forall|kk: Seq<char>| #[trigger] added.contains(kk) <==> (!sd.contains(kk) && exists|j: int|
                    0 <= j < i + 1 && keys@[j]@ == kk) by {
                    if kk == k && !sd.contains(kk) {
                        assert(keys@[i as int]@ == kk);
                    }
                    if exists|j: int| 0 <= j < i + 1 && keys@[j]@ == kk {
                        let j = choose|j: int| 0 <= j < i + 1 && keys@[j]@ == kk;
                        if j < i {
                            assert(exists|j: int| 0 <= j < i && keys@[j]@ == kk);
                        }
                    }
                }
            }
            i += 1;
        }
        proof {
            let od = member_set(other@);
            assert(added =~= od.difference(sd)) by {
                assert forall|k: Seq<char>| od.difference(sd).contains(k) implies added.contains(k) by {
                    assert(od.contains(k));
                }
            }
            assert forall|k: Seq<char>| #[trigger] member_set(other@).contains(k) implies !self@.blocked(k) by {
                let j = choose|j: int| 0 <= j < keys@.len() && keys@[j]@ == k;
                assert(!self@.blocked(keys@[j]@));
            }
            assert(result@.map() =~= union_map(self@.map(), other@.map())) by {
                assert forall|k: Seq<char>| #[trigger] result@.map().contains_key(k) <==> union_map(self@.map(), other@.map()).contains_key(k) by {
                    assert(member_set(result@).contains(k) == result@.map().contains_key(k));
                    if od.contains(k) && !sd.contains(k) {
                        assert(od.difference(sd).contains(k));
                    }
                }
            }
        }
        Ok(result)
    }
}


/// `a - b`, or zero where `b` exceeds `a`.
pub open spec fn saturating_diff(a: nat, b: nat) -> nat {
    if a >= b {
        (a - b) as nat
    } else {
        0
    }
}

impl MerkleSet {
    /// Returns the intersection of two sets: the members of this set that
    /// `other` holds too.
    pub fn intersection(&self, other: &Self) -> (r: Result<Self, CashewError>)
        requires
            self.wf(),
            other.wf(),
        ensures
            !(self@.loaded() && all_reachable(other@, member_set(self@))) ==> r == Err::<Self, CashewError>(
                CashewError::NodeNotAvailable,
            ),
            self@.loaded() && all_reachable(other@, member_set(self@)) ==> (r matches Ok(s) && s.wf()
                && s@.loaded() && s@.map() == intersection_map(self@.map(), other@.map())
                && s@.count == member_set(self@).intersect(member_set(other@)).len()),
    {
        let keys = match self.members() {
            Ok(k) => k,
            Err(e) => return Err(e),
        };
        let mut result = MerkleSet::new();
        let ghost od = member_set(other@);
        let ghost mut added: Set<Seq<char>> = Set::empty();
        proof {
            lemma_loaded_iff(result@);
        }
        let mut i: usize = 0;
        while i < keys.len()
            invariant
                i <= keys@.len(),
                other.wf(),
                self@.loaded(),
                od == member_set(other@),
                forall|j: int| 0 <= j < keys@.len() ==> #[trigger] member_set(self@).contains(keys@[j]@),
                forall|k: Seq<char>| #[trigger] member_set(self@).contains(k) ==> exists|j: int|
                    0 <= j < keys@.len() && keys@[j]@ == k,
                forall|a: int, b: int| 0 <= a < b < keys@.len() ==> key_lt(#[trigger] keys@[a]@, #[trigger] keys@[b]@),
                forall|j: int| 0 <= j < i ==> !other@.blocked(#[trigger] keys@[j]@),
                result.wf(),
                forall|k: Seq<char>| !#[trigger] result@.blocked(k),
                added.finite(),
                added.len() <= i,
                forall|k: Seq<char>| #[trigger] added.contains(k) <==> (od.contains(k) && exists|j: int|
                    0 <= j < i && keys@[j]@ == k),
                forall|k: Seq<char>| #[trigger] member_set(result@).contains(k) <==> added.contains(k),
                forall|k: Seq<char>| added.contains(k) ==> #[trigger] result@.map()[k] == Seq::<char>::empty(),
                result@.count == added.len(),
            decreases keys.len() - i,
        {
            let ghost k = keys@[i as int]@;
            let shared = match other.contains(keys[i].as_str()) {
                Ok(b) => b,
                Err(e) => {
                    assert(member_set(self@).contains(k));
                    return Err(e);
                },
            };
            proof {
                assert(member_set(self@).contains(k));
                lemma_dict_key_nonempty(self@, k);
                if added.contains(k) {
                    let j = choose|j: int| 0 <= j < i && keys@[j]@ == k;
                    assert(key_lt(keys@[j]@, keys@[i as int]@));
                    lemma_key_lt_irreflexive(k);
                }
                assert(!result@.blocked(k));
                assert(!member_set(result@).contains(k));
                assert(result@.get(k) is None);
                assert(keys[i as int]@ == k);
                assert(k.len() > 0);
            }
            if shared {
                let next = match result.insert(keys[i].as_str()) {
                    Ok(s) => s,
                    Err(e) => return Err(e),
                };
                result = next;
                proof {
                    added = added.insert(k);
                }
            }
            proof {
                assert forall|kk: Seq<char>| #[trigger] added.contains(kk) <==> (od.contains(kk) && exists|j: int|
                    0 <= j < i + 1 && keys@[j]@ == kk) by {
                    if kk == k && od.contains(kk) {
                        assert(keys@[i as int]@ == kk);
                    }
                    if exists|j: int| 0 <= j < i + 1 && keys@[j]@ == kk {
                        let j = choose|j: int| 0 <= j < i + 1 && keys@[j]@ == kk;
                        if j < i {
                            assert(exists|j: int| 0 <= j < i && keys@[j]@ == kk);
                        }
                    }
                }
            }
            i += 1;
        }
        proof {
            let sd = member_set(self@);
            assert(added =~= sd.intersect(od)) by {
                assert forall|k: Seq<char>| sd.intersect(od).contains(k) implies added.contains(k) by {
                    assert(sd.contains(k));
                }
            }
            assert forall|k: Seq<char>| #[trigger] member_set(self@).contains(k) implies !other@.blocked(k) by {
                let j = choose|j: int| 0 <= j < keys@.len() && keys@[j]@ == k;
                assert(!other@.blocked(keys@[j]@));
            }
            assert(result@.map() =~= intersection_map(self@.map(), other@.map())) by {
                assert forall|k: Seq<char>| #[trigger] result@.map().contains_key(k) <==> intersection_map(self@.map(), other@.map()).contains_key(k) by {
                    assert(member_set(result@).contains(k) == result@.map().contains_key(k));
                    if sd.contains(k) && od.contains(k) {
                        assert(sd.intersect(od).contains(k));
                    }
                }
            }
            lemma_loaded_iff(result@);
        }
        Ok(result)
    }

    /// Returns the members of this set that `other` does not hold.
    pub fn subtracting(&self, other: &Self) -> (r: Result<Self, CashewError>)
        requires
            self.wf(),
            other.wf(),
        ensures
            !(other@.loaded() && all_reachable(self@, member_set(other@))) ==> r == Err::<Self, CashewError>(
                CashewError::NodeNotAvailable,
            ),
            other@.loaded() && all_reachable(self@, member_set(other@)) ==> (r matches Ok(s) && s.wf()
                && s@.map() == self@.map().remove_keys(member_set(other@))
                && s@.count == saturating_diff(self@.count, member_set(self@).intersect(member_set(other@)).len())
                && forall|k: Seq<char>| #[trigger] s@.blocked(k) == self@.blocked(k)),
    {
        let keys = match other.members() {
            Ok(k) => k,
            Err(e) => return Err(e),
        };
        let mut result = self.clone();
        let ghost sd = member_set(self@);
        let ghost mut removed: Set<Seq<char>> = Set::empty();
        let mut i: usize = 0;
        while i < keys.len()
            invariant
                i <= keys@.len(),
                self.wf(),
                other@.loaded(),
                sd == member_set(self@),
                forall|j: int| 0 <= j < keys@.len() ==> #[trigger] member_set(other@).contains(keys@[j]@),
                forall|k: Seq<char>| #[trigger] member_set(other@).contains(k) ==> exists|j: int|
                    0 <= j < keys@.len() && keys@[j]@ == k,
                forall|a: int, b: int| 0 <= a < b < keys@.len() ==> key_lt(#[trigger] keys@[a]@, #[trigger] keys@[b]@),
                forall|j: int| 0 <= j < i ==> !self@.blocked(#[trigger] keys@[j]@),
                result.wf(),
                forall|k: Seq<char>| #[trigger] result@.blocked(k) == self@.blocked(k),
                removed.finite(),
                forall|k: Seq<char>| #[trigger] removed.contains(k) <==> (sd.contains(k) && exists|j: int|
                    0 <= j < i && keys@[j]@ == k),
                forall|k: Seq<char>| #[trigger] member_set(result@).contains(k) <==> (sd.contains(k) && !removed.contains(k)),
                forall|k: Seq<char>| member_set(result@).contains(k) ==> #[trigger] result@.map()[k] == self@.map()[k],
                result@.count == saturating_diff(self@.count, removed.len()),
            decreases keys.len() - i,
        {
            let ghost k = keys@[i as int]@;
            let present = match result.contains(keys[i].as_str()) {
                Ok(b) => b,
                Err(e) => {
                    assert(member_set(other@).contains(k));
                    return Err(e);
                },
            };
            proof {
                assert(member_set(other@).contains(k));
                lemma_dict_key_nonempty(other@, k);
                if removed.contains(k) {
                    let j = choose|j: int| 0 <= j < i && keys@[j]@ == k;
                    assert(key_lt(keys@[j]@, keys@[i as int]@));
                    lemma_key_lt_irreflexive(k);
                }
            }
            if present {
                let next = match result.remove(keys[i].as_str()) {
                    Ok(s) => s,
                    Err(e) => return Err(e),
                };
                result = next;
                proof {
                    removed = removed.insert(k);
                }
            }
            proof {
                assert forall|kk: Seq<char>| #[trigger] removed.contains(kk) <==> (sd.contains(kk) && exists|j: int|
                    0 <= j < i + 1 && keys@[j]@ == kk) by {
                    if kk == k && sd.contains(kk) {
                        assert(keys@[i as int]@ == kk);
                    }
                    if exists|j: int| 0 <= j < i + 1 && keys@[j]@ == kk {
                        let j = choose|j: int| 0 <= j < i + 1 && keys@[j]@ == kk;
                        if j < i {
                            assert(exists|j: int| 0 <= j < i && keys@[j]@ == kk);
                        }
                    }
                }
            }
            i += 1;
        }
        proof {
            let od = member_set(other@);
            assert(removed =~= sd.intersect(od)) by {
                assert forall|k: Seq<char>| sd.intersect(od).contains(k) implies removed.contains(k) by {
                    assert(od.contains(k));
                }
            }
            assert forall|k: Seq<char>| #[trigger] member_set(other@).contains(k) implies !self@.blocked(k) by {
                let j = choose|j: int| 0 <= j < keys@.len() && keys@[j]@ == k;
                assert(!self@.blocked(keys@[j]@));
            }
            assert(result@.map() =~= self@.map().remove_keys(od)) by {
                assert forall|k: Seq<char>| #[trigger] result@.map().contains_key(k) <==> self@.map().remove_keys(od).contains_key(k) by {
                    assert(member_set(result@).contains(k) == result@.map().contains_key(k));
                    if sd.contains(k) && od.contains(k) {
                        assert(sd.intersect(od).contains(k));
                    }
                }
            }
        }
        Ok(result)
    }
}

impl MerkleSet {
    /// Returns the members held by exactly one of the two sets.
    pub fn symmetric_difference(&self, other: &Self) -> (r: Result<Self, CashewError>)
        requires
            self.wf(),
            other.wf(),
            saturating_diff(self@.count, member_set(self@).intersect(member_set(other@)).len())
                + member_set(other@).difference(member_set(self@)).len() <= usize::MAX,
        ensures
            !(self@.loaded() && other@.loaded()) ==> r == Err::<Self, CashewError>(CashewError::NodeNotAvailable),
            self@.loaded() && other@.loaded() ==> (r matches Ok(s) && s.wf() && s@.loaded()
                && s@.map() == union_map(
                self@.map().remove_keys(member_set(other@)),
                other@.map().remove_keys(member_set(self@)),
            ) && s@.count == saturating_diff(self@.count, member_set(self@).intersect(member_set(other@)).len())
                + member_set(other@).difference(member_set(self@)).len()),
    {
        proof {
            lemma_loaded_iff(self@);
            lemma_loaded_iff(other@);
        }
        let a_minus_b = match self.subtracting(other) {
            Ok(s) => s,
            Err(e) => return Err(e),
        };
        let b_minus_a = match other.subtracting(self) {
            Ok(s) => s,
            Err(e) => return Err(e),
        };
        let ghost sd = member_set(self@);
        let ghost od = member_set(other@);
        proof {
            lemma_loaded_iff(a_minus_b@);
            lemma_loaded_iff(b_minus_a@);
            lemma_dict_size(other@);
            lemma_dict_size(b_minus_a@);
            assert(member_set(b_minus_a@) =~= od.difference(sd));
            assert(member_set(a_minus_b@) =~= sd.difference(od));
            assert forall|k: Seq<char>| #[trigger] member_set(b_minus_a@).contains(k) implies !a_minus_b@.blocked(k) by {}
        }
        proof {
            assert(member_set(b_minus_a@).difference(member_set(a_minus_b@)) =~= od.difference(sd));
        }
        let r = a_minus_b.union(&b_minus_a);
        proof {
            if r is Ok {
                lemma_loaded_iff(r->Ok_0@);
            }
        }
        r
    }
}

impl MerkleSet {
    /// Serializes to the JSON bytes of the underlying dictionary.
    pub fn to_data(&self) -> (r: Result<Vec<u8>, CashewError>)
        ensures
            r matches Ok(b) && b@ == dict_bytes(self@),
    {
        self.inner.to_data()
    }

    /// Deserializes from the JSON bytes of a dictionary; its top-level links come
    /// back lazy.
    pub fn from_data(data: &[u8]) -> (r: Result<Self, CashewError>)
        ensures
            r matches Ok(s) ==> s.wf() && forall|j: int| 0 <= j < s@.links.len() ==> (#[trigger] s@.links[j]).1.node is None,
            r matches Err(e) ==> e is DecodeError,
            forall|m: DictModel| m.wf() && m.count <= usize::MAX && #[trigger] dict_bytes(m) == data@ ==> (r matches Ok(s)
                && s@.links == lazy_links(m.links) && s@.count == m.count),
    {
        match MerkleDictionary::from_data(data) {
            Ok(d) => Ok(MerkleSet { inner: d }),
            Err(e) => Err(e),
        }
    }
}

impl MerkleSet {
    /// The set's text form, `MerkleSet(count=N)`.
    pub fn display_string(&self) -> (r: String)
        ensures
            r@ == count_text("MerkleSet"@, self@.count),
    {
        count_string("MerkleSet", self.len())
    }
}

impl MerkleSet {
    /// Puts a fetched node under the lazy top-level link keyed by `c`, as
    /// `MerkleDictionary::resolving` does for the underlying dictionary.
    pub fn resolving(&self, c: char, node: RadixNode<String>) -> (r: Result<Self, CashewError>)
        requires
            self.wf(),
        ensures
            resolved_links(self@.links, c, node@) is Some && trie_wf(node@) && node@.prefix.len() > 0
                && node@.prefix[0] == c ==> (r matches Ok(d) && d.wf() && d@ == (DictModel {
                links: resolved_links(self@.links, c, node@)->0,
                count: self@.count,
            })),
            !(resolved_links(self@.links, c, node@) is Some && trie_wf(node@) && node@.prefix.len() > 0
                && node@.prefix[0] == c) ==> (r matches Err(e) && e is ResolutionError),
    {
        match self.inner.resolving(c, node) {
            Ok(d) => Ok(MerkleSet { inner: d }),
            Err(e) => Err(e),
        }
    }
}

} // verus!
