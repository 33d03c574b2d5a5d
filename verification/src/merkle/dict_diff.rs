use vstd::prelude::*;
use crate::diff::{modified_pairs, string_pairs, CashewDiff, DiffMap, ModifiedEntry};
use crate::error::CashewError;
use crate::merkle::dictionary::{lemma_dict_entries, pairs_view, DictModel, MerkleDictionary};
use crate::merkle::radix_node::opt_view;
use crate::text::{key_lt, lemma_key_lt_transitive, str_eq};

verus! {

/// The entries of `e` whose keys `m` lacks.
pub open spec fn entries_missing_from(
    e: Seq<(Seq<char>, Seq<char>)>,
    m: Map<Seq<char>, Seq<char>>,
) -> Seq<(Seq<char>, Seq<char>)> {
    e.filter(|x: (Seq<char>, Seq<char>)| !m.contains_key(x.0))
}

/// For each entry of `e` whose key `m` holds with another value: the key, the
/// value in `m` and the value in `e`.
pub open spec fn entries_changed(
    e: Seq<(Seq<char>, Seq<char>)>,
    m: Map<Seq<char>, Seq<char>>,
) -> Seq<(Seq<char>, (Seq<char>, Seq<char>))> {
    e.filter(|x: (Seq<char>, Seq<char>)| m.contains_key(x.0) && m[x.0] != x.1).map_values(
        |x: (Seq<char>, Seq<char>)| (x.0, (m[x.0], x.1)),
    )
}

proof fn lemma_filter_step<A>(s: Seq<A>, p: spec_fn(A) -> bool, i: int)
    requires
        0 <= i < s.len(),
    ensures
        s.take(i + 1).filter(p) == if p(s[i]) {
            s.take(i).filter(p).push(s[i])
        } else {
            s.take(i).filter(p)
        },
{
    reveal_with_fuel(Seq::<_>::filter, 1);
    assert(s.take(i + 1).drop_last() =~= s.take(i));
    assert(s.take(i + 1).last() == s[i]);
}

/// Keys listed so far all come before the keys still to come.
spec fn keys_before<V>(m: DiffMap<V>, e: Seq<(Seq<char>, Seq<char>)>, i: int) -> bool {
    forall|j: int, t: int|
        0 <= j < m.pairs().len() && i <= t < e.len() ==> key_lt(#[trigger] m.pairs()[j].0, #[trigger] e[t].0)
}

/// Records, in key order, the entries of `pairs` whose keys `other` lacks.
fn missing_entries(pairs: &Vec<(String, String)>, other: &MerkleDictionary<String>) -> (r: DiffMap<String>)
    requires
        other.wf(),
        other@.loaded(),
        forall|a: int, b: int|
            0 <= a < b < pairs@.len() ==> key_lt(#[trigger] pairs_view(pairs@)[a].0, #[trigger] pairs_view(pairs@)[b].0),
    ensures
        string_pairs(r.pairs()) == entries_missing_from(pairs_view(pairs@), other@.map()),
{
    let ghost e = pairs_view(pairs@);
    let ghost p = |x: (Seq<char>, Seq<char>)| !other@.map().contains_key(x.0);
    proof {
        crate::merkle::dictionary::lemma_loaded_iff(other@);
    }
    let mut out: DiffMap<String> = DiffMap::new();
    let mut i: usize = 0;
    while i < pairs.len()
        invariant
            i <= pairs@.len(),
            e == pairs_view(pairs@),
            e.len() == pairs@.len(),
            p == (|x: (Seq<char>, Seq<char>)| !other@.map().contains_key(x.0)),
            other.wf(),
            forall|k: Seq<char>| !#[trigger] other@.blocked(k),
            forall|a: int, b: int| 0 <= a < b < e.len() ==> key_lt(#[trigger] e[a].0, #[trigger] e[b].0),
            string_pairs(out.pairs()) == e.take(i as int).filter(p),
            keys_before(out, e, i as int),
        decreases pairs.len() - i,
    {
        proof {
            lemma_filter_step(e, p, i as int);
            assert(e[i as int] == (pairs@[i as int].0@, pairs@[i as int].1@));
        }
        let found = match other.get(pairs[i].0.as_str()) {
            Ok(v) => v,
            Err(_) => {
                assert(!other@.blocked(pairs@[i as int].0@));
                return out;
            },
        };
        if found.is_none() {
            let ghost before = out;
            out.push_last(pairs[i].0.clone(), pairs[i].1.clone());
            proof {
                assert(string_pairs(out.pairs()) =~= string_pairs(before.pairs()).push(e[i as int]));
                assert forall|j: int, t: int|
                    0 <= j < out.pairs().len() && i + 1 <= t < e.len() implies key_lt(#[trigger] out.pairs()[j].0, #[trigger] e[t].0) by {
                    if j < before.pairs().len() {
                        assert(out.pairs()[j] == before.pairs()[j]);
                        assert(key_lt(before.pairs()[j].0, e[t].0));
                    } else {
                        assert(key_lt(e[i as int].0, e[t].0));
                    }
                }
            }
        } else {
            proof {
                assert(other@.map().contains_key(e[i as int].0));
            }
        }
        i += 1;
    }
    proof {
        assert(e.take(pairs@.len() as int) =~= e);
    }
    out
}

/// Records, in key order, the entries of `pairs` that `other` holds with another value.
fn changed_entries(pairs: &Vec<(String, String)>, other: &MerkleDictionary<String>) -> (r: DiffMap<ModifiedEntry>)
    requires
        other.wf(),
        other@.loaded(),
        forall|a: int, b: int|
            0 <= a < b < pairs@.len() ==> key_lt(#[trigger] pairs_view(pairs@)[a].0, #[trigger] pairs_view(pairs@)[b].0),
    ensures
        modified_pairs(r.pairs()) == entries_changed(pairs_view(pairs@), other@.map()),
        forall|j: int| 0 <= j < r.pairs().len() ==> (#[trigger] r.pairs()[j]).1.children is None,
{
    let ghost e = pairs_view(pairs@);
    let ghost m = other@.map();
    let ghost p = |x: (Seq<char>, Seq<char>)| m.contains_key(x.0) && m[x.0] != x.1;
    let ghost f = |x: (Seq<char>, Seq<char>)| (x.0, (m[x.0], x.1));
    proof {
        crate::merkle::dictionary::lemma_loaded_iff(other@);
    }
    let mut out: DiffMap<ModifiedEntry> = DiffMap::new();
    let mut i: usize = 0;
    while i < pairs.len()
        invariant
            i <= pairs@.len(),
            e == pairs_view(pairs@),
            e.len() == pairs@.len(),
            m == other@.map(),
            p == (|x: (Seq<char>, Seq<char>)| m.contains_key(x.0) && m[x.0] != x.1),
            f == (|x: (Seq<char>, Seq<char>)| (x.0, (m[x.0], x.1))),
            other.wf(),
            forall|k: Seq<char>| !#[trigger] other@.blocked(k),
            forall|a: int, b: int| 0 <= a < b < e.len() ==> key_lt(#[trigger] e[a].0, #[trigger] e[b].0),
            modified_pairs(out.pairs()) == e.take(i as int).filter(p).map_values(f),
            forall|j: int| 0 <= j < out.pairs().len() ==> (#[trigger] out.pairs()[j]).1.children is None,
            keys_before(out, e, i as int),
        decreases pairs.len() - i,
    {
        proof {
            lemma_filter_step(e, p, i as int);
            assert(e[i as int] == (pairs@[i as int].0@, pairs@[i as int].1@));
        }
        let found = match other.get(pairs[i].0.as_str()) {
            Ok(v) => v,
            Err(_) => {
                assert(!other@.blocked(pairs@[i as int].0@));
                return out;
            },
        };
        match found {
            Some(ov) => {
                proof {
                    assert(m.contains_key(e[i as int].0));
                    assert(m[e[i as int].0] == ov@);
                }
                if !str_eq(ov.as_str(), pairs[i].1.as_str()) {
                    let ghost before = out;
                    let entry = ModifiedEntry { old: ov, new: pairs[i].1.clone(), children: None };
                    out.push_last(pairs[i].0.clone(), entry);
                    proof {
                        let q = e.take(i as int).filter(p);
                        assert(q.push(e[i as int]).map_values(f) =~= q.map_values(f).push(f(e[i as int])));
                        assert(modified_pairs(out.pairs()) =~= modified_pairs(before.pairs()).push(f(e[i as int])));
                        assert forall|j: int| 0 <= j < out.pairs().len() implies (#[trigger] out.pairs()[j]).1.children is None by {
                            if j < before.pairs().len() {
                                assert(out.pairs()[j] == before.pairs()[j]);
                            }
                        }
                        assert forall|j: int, t: int|
                            0 <= j < out.pairs().len() && i + 1 <= t < e.len() implies key_lt(#[trigger] out.pairs()[j].0, #[trigger] e[t].0) by {
                            if j < before.pairs().len() {
                                assert(out.pairs()[j] == before.pairs()[j]);
                                assert(key_lt(before.pairs()[j].0, e[t].0));
                            } else {
                                assert(key_lt(e[i as int].0, e[t].0));
                            }
                        }
                    }
                }
            },
            None => {},
        }
        i += 1;
    }
    proof {
        assert(e.take(pairs@.len() as int) =~= e);
    }
    out
}

impl MerkleDictionary<String> {
    /// Computes the diff between this dictionary and an older version: the pairs
    /// only this one holds, the pairs only `old` holds, and for each key both hold
    /// with different values, the old and the new value.
    pub fn diff(&self, old: &Self) -> (r: Result<CashewDiff, CashewError>)
        requires
            self.wf(),
            old.wf(),
        ensures
            !(self@.loaded() && old@.loaded()) ==> r == Err::<CashewDiff, CashewError>(CashewError::NodeNotAvailable),
            self@.loaded() && old@.loaded() ==> (r matches Ok(d) && string_pairs(d.inserted.pairs())
                == entries_missing_from(self@.entries(), old@.map()) && string_pairs(d.deleted.pairs())
                == entries_missing_from(old@.entries(), self@.map()) && modified_pairs(d.modified.pairs())
                == entries_changed(self@.entries(), old@.map()) && forall|j: int|
                0 <= j < d.modified.pairs().len() ==> (#[trigger] d.modified.pairs()[j]).1.children is None),
    {
        let new_pairs = match self.all_keys_and_values() {
            Ok(p) => p,
            Err(e) => return Err(e),
        };
        let old_pairs = match old.all_keys_and_values() {
            Ok(p) => p,
            Err(e) => return Err(e),
        };
        proof {
            lemma_dict_entries(self@);
            lemma_dict_entries(old@);
        }
        let inserted = missing_entries(&new_pairs, old);
        let deleted = missing_entries(&old_pairs, self);
        let modified = changed_entries(&new_pairs, old);
        Ok(CashewDiff { inserted, deleted, modified })
    }
}

proof fn lemma_filter_none<A>(s: Seq<A>, p: spec_fn(A) -> bool)
    requires
        forall|i: int| 0 <= i < s.len() ==> !p(#[trigger] s[i]),
    ensures
        s.filter(p) == Seq::<A>::empty(),
    decreases s.len(),
{
    reveal_with_fuel(Seq::<_>::filter, 1);
    if s.len() > 0 {
        lemma_filter_none(s.drop_last(), p);
        assert(!p(s[s.len() - 1]));
    }
    assert(s.filter(p) =~= Seq::<A>::empty());
}

/// A fully loaded dictionary differs from itself in nothing: nothing inserted,
/// nothing deleted, nothing modified.
pub proof fn lemma_diff_self_empty(d: DictModel)
    requires
        d.wf(),
        d.loaded(),
    ensures
        entries_missing_from(d.entries(), d.map()) == Seq::<(Seq<char>, Seq<char>)>::empty(),
        entries_changed(d.entries(), d.map()) == Seq::<(Seq<char>, (Seq<char>, Seq<char>))>::empty(),
{
    lemma_dict_entries(d);
    let e = d.entries();
    let m = d.map();
    let p1 = |x: (Seq<char>, Seq<char>)| !m.contains_key(x.0);
    let p2 = |x: (Seq<char>, Seq<char>)| m.contains_key(x.0) && m[x.0] != x.1;
    assert forall|i: int| 0 <= i < e.len() implies !p1(#[trigger] e[i]) && !p2(e[i]) by {
        assert(m.contains_key(e[i].0));
    }
    lemma_filter_none(e, p1);
    lemma_filter_none(e, p2);
    assert(e.filter(p2).map_values(|x: (Seq<char>, Seq<char>)| (x.0, (m[x.0], x.1))) =~= Seq::<
        (Seq<char>, (Seq<char>, Seq<char>)),
    >::empty());
}

proof fn lemma_filter_within<A>(s: Seq<A>, p: spec_fn(A) -> bool)
    ensures
        forall|i: int| 0 <= i < s.filter(p).len() ==> s.contains(#[trigger] s.filter(p)[i]),
    decreases s.len(),
{
    reveal_with_fuel(Seq::<_>::filter, 1);
    if s.len() > 0 {
        let t = s.drop_last();
        lemma_filter_within(t, p);
        let f = s.filter(p);
        let ft = t.filter(p);
        assert forall|i: int| 0 <= i < f.len() implies s.contains(#[trigger] f[i]) by {
            if i < ft.len() {
                assert(f[i] == ft[i]);
                let j = choose|j: int| 0 <= j < t.len() && t[j] == ft[i];
                assert(s[j] == t[j]);
            } else {
                assert(f[i] == s[s.len() - 1]);
            }
        }
    }
}

/// The diff of two fully loaded dictionaries, entry by entry: a pair is listed as
/// inserted exactly when the new dictionary stores it and the old one lacks its
/// key, as deleted exactly when the old one stores it and the new one lacks its
/// key, and a key is listed as modified, with both values, exactly when both
/// store it with different values.
pub proof fn lemma_diff_law(nd: DictModel, od: DictModel)
    requires
        nd.wf(),
        nd.loaded(),
        od.wf(),
        od.loaded(),
    ensures
        forall|k: Seq<char>, v: Seq<char>|
            #[trigger] entries_missing_from(nd.entries(), od.map()).contains((k, v)) <==> (nd.map().contains_key(k)
                && nd.map()[k] == v && !od.map().contains_key(k)),
        forall|k: Seq<char>, v: Seq<char>|
            #[trigger] entries_missing_from(od.entries(), nd.map()).contains((k, v)) <==> (od.map().contains_key(k)
                && od.map()[k] == v && !nd.map().contains_key(k)),
        forall|k: Seq<char>, o: Seq<char>, n: Seq<char>|
            #[trigger] entries_changed(nd.entries(), od.map()).contains((k, (o, n))) <==> (nd.map().contains_key(k)
                && od.map().contains_key(k) && nd.map()[k] == n && od.map()[k] == o && o != n),
{
    broadcast use vstd::seq_lib::group_filter_ensures;

    lemma_dict_entries(nd);
    lemma_dict_entries(od);
    let en = nd.entries();
    let eo = od.entries();
    let mo = od.map();
    let mn = nd.map();
    assert forall|k: Seq<char>, v: Seq<char>|
        #[trigger] entries_missing_from(en, mo).contains((k, v)) <==> (mn.contains_key(k) && mn[k] == v
            && !mo.contains_key(k)) by {
        let pr = |x: (Seq<char>, Seq<char>)| !mo.contains_key(x.0);
        let f = en.filter(pr);
        lemma_filter_within(en, pr);
        if f.contains((k, v)) {
            let i = choose|i: int| 0 <= i < f.len() && f[i] == (k, v);
            assert(pr(f[i]));
            assert(en.contains(f[i]));
            let t = choose|t: int| 0 <= t < en.len() && en[t] == (k, v);
            assert(mn.contains_key(en[t].0));
        }
        if mn.contains_key(k) && mn[k] == v && !mo.contains_key(k) {
            let t = choose|t: int| 0 <= t < en.len() && en[t].0 == k;
            assert(mn.contains_key(en[t].0));
            assert(en[t] == (k, v));
            assert(pr(en[t]));
        }
    }
    assert forall|k: Seq<char>, v: Seq<char>|
        #[trigger] entries_missing_from(eo, mn).contains((k, v)) <==> (mo.contains_key(k) && mo[k] == v
            && !mn.contains_key(k)) by {
        let pr = |x: (Seq<char>, Seq<char>)| !mn.contains_key(x.0);
        let f = eo.filter(pr);
        lemma_filter_within(eo, pr);
        if f.contains((k, v)) {
            let i = choose|i: int| 0 <= i < f.len() && f[i] == (k, v);
            assert(pr(f[i]));
            assert(eo.contains(f[i]));
            let t = choose|t: int| 0 <= t < eo.len() && eo[t] == (k, v);
            assert(mo.contains_key(eo[t].0));
        }
        if mo.contains_key(k) && mo[k] == v && !mn.contains_key(k) {
            let t = choose|t: int| 0 <= t < eo.len() && eo[t].0 == k;
            assert(mo.contains_key(eo[t].0));
            assert(eo[t] == (k, v));
            assert(pr(eo[t]));
        }
    }
    assert forall|k: Seq<char>, o: Seq<char>, n: Seq<char>|
        #[trigger] entries_changed(en, mo).contains((k, (o, n))) <==> (mn.contains_key(k) && mo.contains_key(k)
            && mn[k] == n && mo[k] == o && o != n) by {
        let pr = |x: (Seq<char>, Seq<char>)| mo.contains_key(x.0) && mo[x.0] != x.1;
        let g = |x: (Seq<char>, Seq<char>)| (x.0, (mo[x.0], x.1));
        let f = en.filter(pr);
        let c = f.map_values(g);
        lemma_filter_within(en, pr);
        if c.contains((k, (o, n))) {
            let i = choose|i: int| 0 <= i < c.len() && c[i] == (k, (o, n));
            assert(c[i] == g(f[i]));
            assert(pr(f[i]));
            assert(en.contains(f[i]));
            let t = choose|t: int| 0 <= t < en.len() && en[t] == f[i];
            assert(mn.contains_key(en[t].0));
        }
        if mn.contains_key(k) && mo.contains_key(k) && mn[k] == n && mo[k] == o && o != n {
            let t = choose|t: int| 0 <= t < en.len() && en[t].0 == k;
            assert(mn.contains_key(en[t].0));
            assert(en[t] == (k, n));
            assert(pr(en[t]));
            assert(f.contains(en[t]));
            let i = choose|i: int| 0 <= i < f.len() && f[i] == en[t];
            assert(c[i] == g(f[i]));
        }
    }
}

/// The map that a listing of keyed items describes: each listed key with the
/// item listed under it.
pub open spec fn listing_map<V>(s: Seq<(Seq<char>, V)>) -> Map<Seq<char>, V> {
    Map::new(
        |k: Seq<char>| exists|i: int| 0 <= i < s.len() && s[i].0 == k,
        |k: Seq<char>| s[choose|i: int| 0 <= i < s.len() && s[i].0 == k].1,
    )
}

/// The diff of two fully loaded dictionaries as maps: the inserted listing maps
/// each key that only the new dictionary stores to its value, the deleted listing
/// each key that only the old one stores to its value, and the modified listing
/// each key that both store with different values to the old and the new value.
pub proof fn lemma_diff_maps(nd: DictModel, od: DictModel)
    requires
        nd.wf(),
        nd.loaded(),
        od.wf(),
        od.loaded(),
    ensures
        listing_map(entries_missing_from(nd.entries(), od.map())) == nd.map().remove_keys(od.map().dom()),
        listing_map(entries_missing_from(od.entries(), nd.map())) == od.map().remove_keys(nd.map().dom()),
        listing_map(entries_changed(nd.entries(), od.map())) == Map::new(
            |k: Seq<char>| nd.map().contains_key(k) && od.map().contains_key(k) && nd.map()[k] != od.map()[k],
            |k: Seq<char>| (od.map()[k], nd.map()[k]),
        ),
{
    lemma_diff_law(nd, od);
    let mn = nd.map();
    let mo = od.map();
    let a = entries_missing_from(nd.entries(), mo);
    assert(listing_map(a) =~= mn.remove_keys(mo.dom())) by {
        assert forall|k: Seq<char>| #[trigger] listing_map(a).contains_key(k) <==> mn.remove_keys(mo.dom()).contains_key(k) by {
            if listing_map(a).contains_key(k) {
                let i = choose|i: int| 0 <= i < a.len() && a[i].0 == k;
                assert(a.contains(a[i]));
                assert(a.contains((k, a[i].1)));
            }
            if mn.remove_keys(mo.dom()).contains_key(k) {
                assert(a.contains((k, mn[k])));
                let i = choose|i: int| 0 <= i < a.len() && a[i] == (k, mn[k]);
                assert(a[i].0 == k);
            }
        }
        assert forall|k: Seq<char>| #[trigger] listing_map(a).contains_key(k) implies listing_map(a)[k] == mn.remove_keys(
            mo.dom(),
        )[k] by {
            let i = choose|i: int| 0 <= i < a.len() && a[i].0 == k;
            assert(a.contains(a[i]));
            assert(a.contains((k, a[i].1)));
        }
    }
    let b = entries_missing_from(od.entries(), mn);
    assert(listing_map(b) =~= mo.remove_keys(mn.dom())) by {
        assert forall|k: Seq<char>| #[trigger] listing_map(b).contains_key(k) <==> mo.remove_keys(mn.dom()).contains_key(k) by {
            if listing_map(b).contains_key(k) {
                let i = choose|i: int| 0 <= i < b.len() && b[i].0 == k;
                assert(b.contains(b[i]));
                assert(b.contains((k, b[i].1)));
            }
            if mo.remove_keys(mn.dom()).contains_key(k) {
                assert(b.contains((k, mo[k])));
                let i = choose|i: int| 0 <= i < b.len() && b[i] == (k, mo[k]);
                assert(b[i].0 == k);
            }
        }
        assert forall|k: Seq<char>| #[trigger] listing_map(b).contains_key(k) implies listing_map(b)[k] == mo.remove_keys(
            mn.dom(),
        )[k] by {
            let i = choose|i: int| 0 <= i < b.len() && b[i].0 == k;
            assert(b.contains(b[i]));
            assert(b.contains((k, b[i].1)));
        }
    }
    let c = entries_changed(nd.entries(), mo);
    let m = Map::new(
        |k: Seq<char>| mn.contains_key(k) && mo.contains_key(k) && mn[k] != mo[k],
        |k: Seq<char>| (mo[k], mn[k]),
    );
    assert(listing_map(c) =~= m) by {
        assert forall|k: Seq<char>| #[trigger] listing_map(c).contains_key(k) <==> m.contains_key(k) by {
            if listing_map(c).contains_key(k) {
                let i = choose|i: int| 0 <= i < c.len() && c[i].0 == k;
                assert(c.contains(c[i]));
                assert(c.contains((k, (c[i].1.0, c[i].1.1))));
            }
            if m.contains_key(k) {
                assert(c.contains((k, (mo[k], mn[k]))));
                let i = choose|i: int| 0 <= i < c.len() && c[i] == (k, (mo[k], mn[k]));
                assert(c[i].0 == k);
            }
        }
        assert forall|k: Seq<char>| #[trigger] listing_map(c).contains_key(k) implies listing_map(c)[k] == m[k] by {
            let i = choose|i: int| 0 <= i < c.len() && c[i].0 == k;
            assert(c.contains(c[i]));
            assert(c.contains((k, (c[i].1.0, c[i].1.1))));
        }
    }
}

} // verus!
