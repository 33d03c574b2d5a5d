//! The depth-first entry list of a well-formed trie: it lists exactly the trie's
//! keys with their values, in strictly increasing key order.
use vstd::prelude::*;
use crate::merkle::radix_node::{
    child_at, lemma_links_wf, lemma_trie_wf, links_wf, link_ok, links_entries, node_entries, node_get, sorted_links,
    trie_wf, TrieNode,
};
use crate::merkle::trie::{in_child, lemma_lookup, lemma_node_get_step, starts_with};
use crate::merkle::trie_exec::lemma_get_through_link;
use crate::text::{key_lt, lemma_key_lt_extension, lemma_key_lt_first, lemma_key_lt_prefix};

verus! {

/// Facts about `node_entries` of a well-formed trie.
pub open spec fn entries_exact(n: TrieNode, e: Seq<(Seq<char>, Seq<char>)>) -> bool {
    &&& forall|t: int|
        0 <= t < e.len() ==> starts_with(#[trigger] e[t].0, n.prefix) && node_get(n, e[t].0) == Some(
            e[t].1,
        )
    &&& forall|k: Seq<char>| #[trigger] node_get(n, k) is Some ==> exists|t: int| 0 <= t < e.len() && e[t].0 == k
    &&& forall|s: int, t: int| 0 <= s < t < e.len() ==> key_lt(#[trigger] e[s].0, #[trigger] e[t].0)
}

/// Facts about the entries of the first `i` children of a well-formed trie,
/// keys relative to the children.
pub open spec fn links_entries_exact(n: TrieNode, i: int, l: Seq<(Seq<char>, Seq<char>)>) -> bool {
    &&& forall|t: int|
        0 <= t < l.len() ==> (#[trigger] l[t]).0.len() > 0 && (l[t].0[0] as int) <= (
        n.children[i - 1].0 as int) && node_get(n, n.prefix + l[t].0) == Some(l[t].1)
    &&& forall|k: Seq<char>|
        k.len() > 0 && (k[0] as int) <= (n.children[i - 1].0 as int) && (#[trigger] node_get(
            n,
            n.prefix + k,
        )) is Some ==> exists|t: int| 0 <= t < l.len() && l[t].0 == k
    &&& forall|s: int, t: int| 0 <= s < t < l.len() ==> key_lt(#[trigger] l[s].0, #[trigger] l[t].0)
}

#[verifier::spinoff_prover]
#[verifier::rlimit(40)]
pub proof fn lemma_links_entries(n: TrieNode, i: int)
    requires
        sorted_links(n.children),
        links_wf(n, n.children.len() as int),
        1 <= i <= n.children.len(),
    ensures
        links_entries_exact(n, i, links_entries(n, i)),
    decreases n, i,
{
    lemma_links_wf(n, n.children.len() as int);
    let c = n.children[i - 1].0;
    assert(link_ok(n.children[i - 1].0, n.children[i - 1].1));
    let child = child_at(n, i - 1);
    assert(decreases_to!(n.children => n.children[i - 1]));
    assert(trie_wf(child));
    lemma_node_entries(child);
    let ce = node_entries(child);
    let prev = links_entries(n, i - 1);
    let l = links_entries(n, i);
    assert(l == prev + ce);
    if i > 1 {
        lemma_links_entries(n, i - 1);
        assert((n.children[i - 2].0 as int) < (c as int));
    } else {
        assert(prev.len() == 0);
    }
    // Keys of the new child: they start with its label, whose first character is `c`.
    assert forall|t: int| 0 <= t < ce.len() implies (#[trigger] ce[t]).0.len() > 0 && ce[t].0[0] == c
        && node_get(n, n.prefix + ce[t].0) == Some(ce[t].1) by {
        assert(starts_with(ce[t].0, child.prefix));
        assert(ce[t].0.take(child.prefix.len() as int)[0] == ce[t].0[0]);
        let k = n.prefix + ce[t].0;
        assert(k.take(n.prefix.len() as int) =~= n.prefix);
        assert(k[n.prefix.len() as int] == ce[t].0[0]);
        assert(in_child(n, c, k));
        lemma_get_through_link(n, i - 1, k);
        assert(k.skip(n.prefix.len() as int) =~= ce[t].0);
    }
    assert forall|t: int| 0 <= t < l.len() implies (#[trigger] l[t]).0.len() > 0 && (l[t].0[0] as int) <= (
        c as int) && node_get(n, n.prefix + l[t].0) == Some(l[t].1) by {
        if t < prev.len() {
            assert(l[t] == prev[t]);
        } else {
            assert(l[t] == ce[t - prev.len()]);
        }
    }
    assert forall|k: Seq<char>|
        k.len() > 0 && (k[0] as int) <= (c as int) && (#[trigger] node_get(n, n.prefix + k)) is Some
        implies exists|t: int| 0 <= t < l.len() && l[t].0 == k by {
        let kk = n.prefix + k;
        assert(kk.take(n.prefix.len() as int) =~= n.prefix);
        assert(kk.skip(n.prefix.len() as int) =~= k);
        lemma_node_get_step(n, kk);
        lemma_lookup(n.children, k[0]);
        let j = choose|j: int| 0 <= j < n.children.len() && n.children[j].0 == k[0] && n.children[j].1
            == crate::merkle::trie::child_lookup(n.children, k[0]).unwrap();
        if j == i - 1 {
            lemma_get_through_link(n, i - 1, kk);
            let t = choose|t: int| 0 <= t < ce.len() && ce[t].0 == k;
            assert(l[prev.len() + t] == ce[t]);
        } else {
            if j > i - 1 {
                assert((c as int) < (n.children[j].0 as int));
            }
            assert(j < i - 1);
            assert((n.children[j].0 as int) <= (n.children[i - 2].0 as int));
            let t = choose|t: int| 0 <= t < prev.len() && prev[t].0 == k;
            assert(l[t] == prev[t]);
        }
    }
    assert forall|s: int, t: int| 0 <= s < t < l.len() implies key_lt(#[trigger] l[s].0, #[trigger] l[t].0) by {
        if t < prev.len() {
            assert(l[s] == prev[s] && l[t] == prev[t]);
        } else if s >= prev.len() {
            assert(l[s] == ce[s - prev.len()] && l[t] == ce[t - prev.len()]);
        } else {
            assert(l[s] == prev[s] && l[t] == ce[t - prev.len()]);
            assert((prev[s].0[0] as int) <= (n.children[i - 2].0 as int));
            lemma_key_lt_first(l[s].0, l[t].0);
        }
    }
}

pub proof fn lemma_node_entries(n: TrieNode)
    requires
        sorted_links(n.children),
        links_wf(n, n.children.len() as int),
    ensures
        entries_exact(n, node_entries(n)),
    decreases n, n.children.len() + 1,
{
    lemma_links_wf(n, n.children.len() as int);
    let len = n.children.len() as int;
    let e = node_entries(n);
    let own: Seq<(Seq<char>, Seq<char>)> = match n.value {
        Some(v) => seq![(n.prefix, v)],
        None => Seq::empty(),
    };
    let l = links_entries(n, len);
    let mapped = l.map_values(|x: (Seq<char>, Seq<char>)| (n.prefix + x.0, x.1));
    assert(e == own + mapped);
    if len > 0 {
        lemma_links_entries(n, len);
    } else {
        assert(l.len() == 0);
    }
    lemma_node_get_step(n, n.prefix);
    assert(n.prefix.take(n.prefix.len() as int) =~= n.prefix);
    assert(n.prefix.skip(n.prefix.len() as int).len() == 0);
    assert forall|t: int| 0 <= t < e.len() implies starts_with(#[trigger] e[t].0, n.prefix) && node_get(
        n,
        e[t].0,
    ) == Some(e[t].1) by {
        if t < own.len() {
            assert(e[t] == own[t]);
        } else {
            assert(e[t] == mapped[t - own.len()]);
            assert(e[t].0.take(n.prefix.len() as int) =~= n.prefix);
        }
    }
    assert forall|k: Seq<char>| #[trigger] node_get(n, k) is Some implies exists|t: int|
        0 <= t < e.len() && e[t].0 == k by {
        lemma_node_get_step(n, k);
        let rest = k.skip(n.prefix.len() as int);
        assert(k =~= n.prefix + rest) by {
            assert(k.take(n.prefix.len() as int) == n.prefix);
        }
        if rest.len() == 0 {
            assert(e[0] == own[0]);
        } else {
            lemma_lookup(n.children, rest[0]);
            let j = choose|j: int| 0 <= j < n.children.len() && n.children[j].0 == rest[0]
                && n.children[j].1 == crate::merkle::trie::child_lookup(n.children, rest[0]).unwrap();
            if j < len - 1 {
                assert((n.children[j].0 as int) < (n.children[len - 1].0 as int));
            }
            assert(node_get(n, n.prefix + rest) is Some);
            let t = choose|t: int| 0 <= t < l.len() && l[t].0 == rest;
            assert(e[own.len() + t] == mapped[t]);
        }
    }
    assert forall|s: int, t: int| 0 <= s < t < e.len() implies key_lt(#[trigger] e[s].0, #[trigger] e[t].0) by {
        if s < own.len() {
            assert(e[s] == own[s]);
            assert(e[t] == mapped[t - own.len()]);
            lemma_key_lt_extension(n.prefix, l[t - own.len()].0);
        } else {
            assert(e[s] == mapped[s - own.len()]);
            assert(e[t] == mapped[t - own.len()]);
            lemma_key_lt_prefix(n.prefix, l[s - own.len()].0, l[t - own.len()].0);
        }
    }
}

} // verus!
