//! A compressed trie is determined by its contents: two well-formed, fully
//! loaded tries without encryption metadata that store the same key-value pairs
//! are the same trie, so their JSON, and with it their CIDs, agree.
use vstd::prelude::*;
use crate::merkle::dictionary::{dict_bytes, DictModel};
use crate::merkle::radix_node::{
    child_at, lemma_links_wf, lemma_trie_wf, link_ok, links_wf, node_get, sorted_links, trie_wf,
    TrieLink, TrieNode,
};
use crate::merkle::trie::{in_child, lemma_node_get_step, starts_with};
use crate::merkle::trie_exec::{lemma_get_no_child, lemma_get_through_link};

verus! {

/// No link in the trie carries encryption metadata.
pub open spec fn trie_plain(n: TrieNode) -> bool
    decreases n, n.children.len() + 1,
{
    plain_links(n, n.children.len() as int)
}

pub open spec fn plain_links(n: TrieNode, i: int) -> bool
    decreases n, i,
{
    if i <= 0 || i > n.children.len() {
        true
    } else {
        proof {
            assert(decreases_to!(n.children => n.children[i - 1]));
        }
        &&& plain_links(n, i - 1)
        &&& n.children[i - 1].1.encryption is None
        &&& match n.children[i - 1].1.node {
            Some(c) => trie_plain(*c),
            None => true,
        }
    }
}

/// No top-level link of the dictionary, and no link below, carries encryption metadata.
pub open spec fn dict_plain(d: DictModel) -> bool {
    trie_plain(d.root())
}

pub proof fn lemma_plain_links(n: TrieNode, i: int)
    requires
        0 <= i <= n.children.len(),
    ensures
        plain_links(n, i) <==> forall|j: int|
            0 <= j < i ==> (#[trigger] n.children[j]).1.encryption is None && (n.children[j].1.node is Some
                ==> trie_plain(child_at(n, j))),
    decreases i,
{
    if i > 0 {
        lemma_plain_links(n, i - 1);
        let l = n.children[i - 1].1;
        if l.node is Some {
            assert(trie_plain(child_at(n, i - 1)) == (match l.node {
                Some(c) => trie_plain(*c),
                None => true,
            }));
        }
    }
}

pub proof fn lemma_trie_plain(n: TrieNode)
    ensures
        trie_plain(n) <==> forall|j: int|
            0 <= j < n.children.len() ==> (#[trigger] n.children[j]).1.encryption is None && (
            n.children[j].1.node is Some ==> trie_plain(child_at(n, j))),
{
    lemma_plain_links(n, n.children.len() as int);
}

/// A stored key starts with the node's label.
proof fn lemma_key_starts(n: TrieNode, k: Seq<char>)
    requires
        node_get(n, k) is Some,
    ensures
        starts_with(k, n.prefix),
{
    lemma_node_get_step(n, k);
}

/// The value stored under a node's own label.
proof fn lemma_get_own(n: TrieNode)
    ensures
        node_get(n, n.prefix) == n.value,
{
    lemma_node_get_step(n, n.prefix);
    assert(n.prefix.take(n.prefix.len() as int) =~= n.prefix);
    assert(n.prefix.skip(n.prefix.len() as int).len() == 0);
}

/// Every node of a compressed trie stores at least one key.
proof fn lemma_has_key(n: TrieNode) -> (k: Seq<char>)
    requires
        trie_wf(n),
    ensures
        node_get(n, k) is Some,
    decreases n, 1int,
{
    lemma_trie_wf(n);
    if n.value is Some {
        lemma_get_own(n);
        n.prefix
    } else {
        lemma_child_key(n, 0)
    }
}

/// A key stored below the link `j` of a node.
proof fn lemma_child_key(n: TrieNode, j: int) -> (k: Seq<char>)
    requires
        sorted_links(n.children),
        links_wf(n, n.children.len() as int),
        0 <= j < n.children.len(),
    ensures
        node_get(n, k) is Some,
        in_child(n, n.children[j].0, k),
    decreases n, 0int,
{
    lemma_links_wf(n, n.children.len() as int);
    assert(link_ok(n.children[j].0, n.children[j].1));
    assert(decreases_to!(n.children => n.children[j]));
    match n.children[j].1.node {
        Some(c) => {
            assert(trie_wf(*c));
            let r = lemma_has_key(*c);
            lemma_key_starts(*c, r);
            assert(r[0] == c.prefix[0]);
            let k = n.prefix + r;
            assert(k.take(n.prefix.len() as int) =~= n.prefix);
            assert(k.skip(n.prefix.len() as int) =~= r);
            assert(k[n.prefix.len() as int] == r[0]);
            lemma_get_through_link(n, j, k);
            k
        },
        None => {
            assert(false);
            Seq::empty()
        },
    }
}

/// A compressed trie that stores exactly one key is a single leaf: its label is
/// that key, its value the key's value, and it has no children.
pub proof fn lemma_single_key_leaf(n: TrieNode, k: Seq<char>, v: Seq<char>)
    requires
        trie_wf(n),
        forall|q: Seq<char>| #[trigger] node_get(n, q) == if q == k {
            Some(v)
        } else {
            None
        },
    ensures
        n.prefix == k,
        n.value == Some(v),
        n.children.len() == 0,
{
    lemma_trie_wf(n);
    lemma_get_own(n);
    if n.children.len() > 0 {
        let k0 = lemma_child_key(n, 0);
        assert(node_get(n, k0) is Some);
        if n.children.len() >= 2 {
            let k1 = lemma_child_key(n, 1);
            assert(node_get(n, k1) is Some);
            assert((n.children[0].0 as int) < (n.children[1].0 as int));
        } else {
            assert(n.value is Some);
            assert(node_get(n, n.prefix) is Some);
        }
    }
}

/// A node's label is no proper prefix of the label of a node that stores the same keys.
proof fn lemma_label_not_shorter(a: TrieNode, b: TrieNode)
    requires
        trie_wf(a),
        forall|k: Seq<char>| #[trigger] node_get(a, k) == node_get(b, k),
    ensures
        !(a.prefix.len() < b.prefix.len() && starts_with(b.prefix, a.prefix)),
{
    lemma_trie_wf(a);
    if a.prefix.len() < b.prefix.len() && starts_with(b.prefix, a.prefix) {
        let p = a.prefix.len() as int;
        if a.value is Some {
            lemma_get_own(a);
            assert(node_get(b, a.prefix) is Some);
            lemma_key_starts(b, a.prefix);
        } else {
            let k0 = lemma_child_key(a, 0);
            let k1 = lemma_child_key(a, 1);
            assert(node_get(b, k0) is Some);
            assert(node_get(b, k1) is Some);
            lemma_key_starts(b, k0);
            lemma_key_starts(b, k1);
            assert(k0[p] == b.prefix.take(b.prefix.len() as int)[p]);
            assert(k0[p] == k0.take(b.prefix.len() as int)[p]);
            assert(k1[p] == k1.take(b.prefix.len() as int)[p]);
            assert((a.children[0].0 as int) < (a.children[1].0 as int));
        }
    }
}

/// Some link of `s` is keyed by `c`.
pub open spec fn has_char(s: Seq<(char, TrieLink)>, c: char) -> bool {
    exists|i: int| 0 <= i < s.len() && s[i].0 == c
}

/// Two strictly sorted link lists with the same characters have them at the same places.
proof fn lemma_sorted_same(s: Seq<(char, TrieLink)>, t: Seq<(char, TrieLink)>)
    requires
        sorted_links(s),
        sorted_links(t),
        forall|i: int| 0 <= i < s.len() ==> #[trigger] has_char(t, s[i].0),
        forall|j: int| 0 <= j < t.len() ==> #[trigger] has_char(s, t[j].0),
    ensures
        s.len() == t.len(),
        forall|i: int| 0 <= i < s.len() ==> #[trigger] s[i].0 == t[i].0,
    decreases s.len() + t.len(),
{
    if s.len() == 0 {
        if t.len() > 0 {
            assert(has_char(s, t[0].0));
        }
    } else if t.len() == 0 {
        assert(has_char(t, s[0].0));
    } else {
        assert(has_char(t, s[0].0));
        assert(has_char(s, t[0].0));
        let js = choose|j: int| 0 <= j < t.len() && t[j].0 == s[0].0;
        let it = choose|i: int| 0 <= i < s.len() && s[i].0 == t[0].0;
        if js > 0 {
            assert((t[0].0 as int) < (t[js].0 as int));
        }
        if it > 0 {
            assert((s[0].0 as int) < (s[it].0 as int));
        }
        assert(s[0].0 == t[0].0);
        let s1 = s.drop_first();
        let t1 = t.drop_first();
        assert forall|i: int| 0 <= i < s1.len() implies #[trigger] has_char(t1, s1[i].0) by {
            assert(s1[i] == s[i + 1]);
            assert(has_char(t, s[i + 1].0));
            let j = choose|j: int| 0 <= j < t.len() && t[j].0 == s[i + 1].0;
            assert((s[0].0 as int) < (s[i + 1].0 as int));
            assert(j > 0);
            assert(t1[j - 1] == t[j]);
        }
        assert forall|j: int| 0 <= j < t1.len() implies #[trigger] has_char(s1, t1[j].0) by {
            assert(t1[j] == t[j + 1]);
            assert(has_char(s, t[j + 1].0));
            let i = choose|i: int| 0 <= i < s.len() && s[i].0 == t[j + 1].0;
            assert((t[0].0 as int) < (t[j + 1].0 as int));
            assert(i > 0);
            assert(s1[i - 1] == s[i]);
        }
        lemma_sorted_same(s1, t1);
        assert forall|i: int| 0 <= i < s.len() implies #[trigger] s[i].0 == t[i].0 by {
            if i > 0 {
                assert(s1[i - 1] == s[i]);
                assert(t1[i - 1] == t[i]);
            }
        }
    }
}

/// The links at the same place of two nodes as in `lemma_links_unique`, keyed by
/// the same character, are equal.
proof fn lemma_link_unique(a: TrieNode, b: TrieNode, j: int)
    requires
        a.prefix == b.prefix,
        sorted_links(a.children),
        sorted_links(b.children),
        links_wf(a, a.children.len() as int),
        links_wf(b, b.children.len() as int),
        trie_plain(a),
        trie_plain(b),
        forall|k: Seq<char>| #[trigger] node_get(a, k) == node_get(b, k),
        0 <= j < a.children.len(),
        j < b.children.len(),
        a.children[j].0 == b.children[j].0,
    ensures
        a.children[j] == b.children[j],
    decreases a, 0int,
{
    lemma_links_wf(a, a.children.len() as int);
    lemma_links_wf(b, b.children.len() as int);
    lemma_trie_plain(a);
    lemma_trie_plain(b);
    let sa = a.children;
    let sb = b.children;
    let ch = sa[j].0;
    assert(link_ok(sa[j].0, sa[j].1));
    assert(link_ok(sb[j].0, sb[j].1));
    assert(decreases_to!(a.children => a.children[j]));
    match (sa[j].1.node, sb[j].1.node) {
        (Some(ca), Some(cb)) => {
            assert forall|r: Seq<char>| #[trigger] node_get(*ca, r) == node_get(*cb, r) by {
                if r.len() > 0 && r[0] == ch {
                    let k = a.prefix + r;
                    assert(k.take(a.prefix.len() as int) =~= a.prefix);
                    assert(k.skip(a.prefix.len() as int) =~= r);
                    assert(k[a.prefix.len() as int] == r[0]);
                    lemma_get_through_link(a, j, k);
                    lemma_get_through_link(b, j, k);
                } else {
                    if node_get(*ca, r) is Some {
                        lemma_key_starts(*ca, r);
                        assert(r[0] == r.take(ca.prefix.len() as int)[0]);
                    }
                    if node_get(*cb, r) is Some {
                        lemma_key_starts(*cb, r);
                        assert(r[0] == r.take(cb.prefix.len() as int)[0]);
                    }
                }
            }
            assert(trie_plain(child_at(a, j)));
            assert(trie_plain(child_at(b, j)));
            lemma_trie_unique(*ca, *cb);
        },
        _ => {},
    }
}

/// Two nodes with the same label and links that are sorted, loaded, well-formed
/// and plain, storing the same keys, have the same links.
proof fn lemma_links_unique(a: TrieNode, b: TrieNode)
    requires
        a.prefix == b.prefix,
        sorted_links(a.children),
        sorted_links(b.children),
        links_wf(a, a.children.len() as int),
        links_wf(b, b.children.len() as int),
        trie_plain(a),
        trie_plain(b),
        forall|k: Seq<char>| #[trigger] node_get(a, k) == node_get(b, k),
    ensures
        a.children == b.children,
    decreases a, 1int,
{
    let sa = a.children;
    let sb = b.children;
    assert forall|i: int| 0 <= i < sa.len() implies #[trigger] has_char(sb, sa[i].0) by {
        let k = lemma_child_key(a, i);
        if !has_char(sb, sa[i].0) {
            lemma_get_no_child(b, sa[i].0, k);
        }
    }
    assert forall|j: int| 0 <= j < sb.len() implies #[trigger] has_char(sa, sb[j].0) by {
        let k = lemma_child_key(b, j);
        if !has_char(sa, sb[j].0) {
            lemma_get_no_child(a, sb[j].0, k);
        }
    }
    lemma_sorted_same(sa, sb);
    assert forall|j: int| 0 <= j < sa.len() implies #[trigger] sa[j] == sb[j] by {
        lemma_link_unique(a, b, j);
    }
    assert(sa =~= sb);
}

/// A compressed, well-formed, plain trie is determined by the keys and values it stores.
pub proof fn lemma_trie_unique(a: TrieNode, b: TrieNode)
    requires
        trie_wf(a),
        trie_wf(b),
        trie_plain(a),
        trie_plain(b),
        forall|k: Seq<char>| #[trigger] node_get(a, k) == node_get(b, k),
    ensures
        a == b,
    decreases a, 2int,
{
    lemma_trie_wf(a);
    lemma_trie_wf(b);
    lemma_label_not_shorter(a, b);
    lemma_label_not_shorter(b, a);
    let k0 = lemma_has_key(a);
    assert(node_get(b, k0) is Some);
    lemma_key_starts(a, k0);
    lemma_key_starts(b, k0);
    if a.prefix.len() < b.prefix.len() {
        assert(b.prefix.take(a.prefix.len() as int) =~= a.prefix) by {
            assert(b.prefix.take(a.prefix.len() as int) =~= k0.take(b.prefix.len() as int).take(a.prefix.len() as int));
            assert(a.prefix =~= k0.take(a.prefix.len() as int));
        }
    } else if b.prefix.len() < a.prefix.len() {
        assert(a.prefix.take(b.prefix.len() as int) =~= b.prefix) by {
            assert(a.prefix.take(b.prefix.len() as int) =~= k0.take(a.prefix.len() as int).take(b.prefix.len() as int));
            assert(b.prefix =~= k0.take(b.prefix.len() as int));
        }
    }
    assert(a.prefix =~= b.prefix) by {
        assert(a.prefix =~= k0.take(a.prefix.len() as int));
        assert(b.prefix =~= k0.take(b.prefix.len() as int));
    }
    lemma_get_own(a);
    lemma_get_own(b);
    lemma_links_unique(a, b);
}

/// Two well-formed, fully loaded dictionaries without encryption metadata that
/// store the same key-value pairs under the same counter are the same
/// dictionary, so they serialize to the same bytes.
pub proof fn lemma_dict_canonical(d1: DictModel, d2: DictModel)
    requires
        d1.wf(),
        d2.wf(),
        d1.loaded(),
        d2.loaded(),
        dict_plain(d1),
        dict_plain(d2),
        d1.map() == d2.map(),
        d1.count == d2.count,
    ensures
        d1 == d2,
        dict_bytes(d1) == dict_bytes(d2),
{
    let r1 = d1.root();
    let r2 = d2.root();
    assert forall|k: Seq<char>| #[trigger] node_get(r1, k) == node_get(r2, k) by {
        assert(d1.map().contains_key(k) == (d1.get(k) is Some));
        assert(d2.map().contains_key(k) == (d2.get(k) is Some));
        if d1.get(k) is Some {
            assert(d1.map()[k] == d1.get(k).unwrap());
            assert(d2.map()[k] == d2.get(k).unwrap());
        }
    }
    assert forall|j: int| 0 <= j < r1.children.len() implies #[trigger] link_ok(r1.children[j].0, r1.children[j].1)
        && trie_wf(child_at(r1, j)) by {
        assert(d1.links[j].1.node is Some);
    }
    assert forall|j: int| 0 <= j < r2.children.len() implies #[trigger] link_ok(r2.children[j].0, r2.children[j].1)
        && trie_wf(child_at(r2, j)) by {
        assert(d2.links[j].1.node is Some);
    }
    lemma_links_wf(r1, r1.children.len() as int);
    lemma_links_wf(r2, r2.children.len() as int);
    lemma_links_unique(r1, r2);
    assert(d1.links == d2.links);
}

/// Plainness depends only on the links.
pub proof fn lemma_plain_same_links(n: TrieNode, m: TrieNode)
    requires
        n.children == m.children,
    ensures
        trie_plain(n) == trie_plain(m),
{
    lemma_trie_plain(n);
    lemma_trie_plain(m);
    assert forall|j: int| 0 <= j < n.children.len() implies child_at(n, j) == child_at(m, j) by {}
}

/// `o` is no trie, or a plain one.
pub open spec fn opt_plain(o: Option<TrieNode>) -> bool {
    match o {
        Some(m) => trie_plain(m),
        None => true,
    }
}

/// Replacing a link of a plain trie by a plain link keeps it plain.
pub proof fn lemma_plain_update(n: TrieNode, m: TrieNode, i: int, l: TrieLink)
    requires
        0 <= i < n.children.len(),
        m.children == n.children.update(i, (n.children[i].0, l)),
        trie_plain(n),
        l.encryption is None,
        l.node matches Some(c) ==> trie_plain(*c),
    ensures
        trie_plain(m),
{
    lemma_trie_plain(n);
    lemma_trie_plain(m);
    assert forall|j: int| 0 <= j < m.children.len() implies (#[trigger] m.children[j]).1.encryption is None
        && (m.children[j].1.node is Some ==> trie_plain(child_at(m, j))) by {
        if j != i {
            assert(child_at(m, j) == child_at(n, j));
        }
    }
}

/// Inserting a plain link into a plain trie keeps it plain.
pub proof fn lemma_plain_insert(n: TrieNode, m: TrieNode, pos: int, c: char, l: TrieLink)
    requires
        0 <= pos <= n.children.len(),
        m.children == n.children.insert(pos, (c, l)),
        trie_plain(n),
        l.encryption is None,
        l.node matches Some(x) ==> trie_plain(*x),
    ensures
        trie_plain(m),
{
    lemma_trie_plain(n);
    lemma_trie_plain(m);
    assert forall|j: int| 0 <= j < m.children.len() implies (#[trigger] m.children[j]).1.encryption is None
        && (m.children[j].1.node is Some ==> trie_plain(child_at(m, j))) by {
        if j < pos {
            assert(m.children[j] == n.children[j]);
            assert(child_at(m, j) == child_at(n, j));
        } else if j > pos {
            assert(m.children[j] == n.children[j - 1]);
            assert(child_at(m, j) == child_at(n, j - 1));
        }
    }
}

/// Removing a link from a plain trie keeps it plain.
pub proof fn lemma_plain_remove(n: TrieNode, m: TrieNode, i: int)
    requires
        0 <= i < n.children.len(),
        m.children == n.children.remove(i),
        trie_plain(n),
    ensures
        trie_plain(m),
{
    lemma_trie_plain(n);
    lemma_trie_plain(m);
    assert forall|j: int| 0 <= j < m.children.len() implies (#[trigger] m.children[j]).1.encryption is None
        && (m.children[j].1.node is Some ==> trie_plain(child_at(m, j))) by {
        let j1 = if j < i { j } else { j + 1 };
        assert(m.children[j] == n.children[j1]);
        assert(child_at(m, j) == child_at(n, j1));
    }
}

} // verus!
