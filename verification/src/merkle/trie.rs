//! Lemmas on the radix trie model: how lookups change under the edits that the
//! dictionary operations perform.
use vstd::prelude::*;
use crate::merkle::radix_node::{
    node_compact,
    child_at, find_child, lemma_find_child, lemma_find_child_sorted, lemma_trie_wf, link_ok,
    node_get, sorted_links, trie_wf, TrieLink, TrieNode,
};

verus! {

/// `k` starts with `p`.
pub open spec fn starts_with(k: Seq<char>, p: Seq<char>) -> bool {
    k.len() >= p.len() && k.take(p.len() as int) == p
}

/// Lookup of `r` through a link: only loaded links lead anywhere.
pub open spec fn link_get(l: TrieLink, r: Seq<char>) -> Option<Seq<char>> {
    match l.node {
        Some(m) => node_get(*m, r),
        None => None,
    }
}

/// The link keyed by `c`, if any.
pub open spec fn child_lookup(s: Seq<(char, TrieLink)>, c: char) -> Option<TrieLink> {
    match find_child(s, c) {
        Some(i) => if 0 <= i < s.len() {
            Some(s[i].1)
        } else {
            None
        },
        None => None,
    }
}

/// `k` continues below `n` through the link keyed by `c`.
pub open spec fn in_child(n: TrieNode, c: char, k: Seq<char>) -> bool {
    starts_with(k, n.prefix) && k.len() > n.prefix.len() && k[n.prefix.len() as int] == c
}

/// One step of lookup, phrased through `child_lookup`.
pub open spec fn node_step(n: TrieNode, k: Seq<char>) -> Option<Seq<char>> {
    if !starts_with(k, n.prefix) {
        None
    } else {
        let rest = k.skip(n.prefix.len() as int);
        if rest.len() == 0 {
            n.value
        } else {
            match child_lookup(n.children, rest[0]) {
                Some(l) => link_get(l, rest),
                None => None,
            }
        }
    }
}

pub proof fn lemma_node_get_step(n: TrieNode, k: Seq<char>)
    ensures
        node_get(n, k) == node_step(n, k),
{
    let p = n.prefix;
    if starts_with(k, p) {
        let rest = k.skip(p.len() as int);
        if rest.len() > 0 {
            lemma_find_child(n.children, rest[0]);
        }
    }
}

pub proof fn lemma_lookup_at(s: Seq<(char, TrieLink)>, j: int)
    requires
        sorted_links(s),
        0 <= j < s.len(),
    ensures
        child_lookup(s, s[j].0) == Some(s[j].1),
{
    lemma_find_child_sorted(s, s[j].0, j);
}

pub proof fn lemma_lookup_absent(s: Seq<(char, TrieLink)>, c: char)
    requires
        forall|j: int| 0 <= j < s.len() ==> s[j].0 != c,
    ensures
        child_lookup(s, c) is None,
{
    lemma_find_child(s, c);
}

/// Lookup result in terms of an index, for sorted links.
pub proof fn lemma_lookup(s: Seq<(char, TrieLink)>, c: char)
    requires
        sorted_links(s),
    ensures
        child_lookup(s, c) matches Some(l) ==> exists|j: int| 0 <= j < s.len() && s[j].0 == c && s[j].1 == l,
        child_lookup(s, c) is None ==> forall|j: int| 0 <= j < s.len() ==> s[j].0 != c,
{
    lemma_find_child(s, c);
}

pub proof fn lemma_lookup_update(s: Seq<(char, TrieLink)>, i: int, l: TrieLink, d: char)
    requires
        sorted_links(s),
        0 <= i < s.len(),
    ensures
        sorted_links(s.update(i, (s[i].0, l))),
        child_lookup(s.update(i, (s[i].0, l)), d) == if d == s[i].0 {
            Some(l)
        } else {
            child_lookup(s, d)
        },
{
    let s2 = s.update(i, (s[i].0, l));
    assert(sorted_links(s2));
    if d == s[i].0 {
        lemma_lookup_at(s2, i);
    } else {
        lemma_find_child(s, d);
        match find_child(s, d) {
            Some(j) => {
                lemma_lookup_at(s2, j);
                lemma_lookup_at(s, j);
            },
            None => {
                lemma_lookup_absent(s2, d);
            },
        }
    }
}

pub proof fn lemma_lookup_insert(s: Seq<(char, TrieLink)>, pos: int, c: char, l: TrieLink, d: char)
    requires
        sorted_links(s.insert(pos, (c, l))),
        0 <= pos <= s.len(),
        forall|j: int| 0 <= j < s.len() ==> s[j].0 != c,
    ensures
        child_lookup(s.insert(pos, (c, l)), d) == if d == c {
            Some(l)
        } else {
            child_lookup(s, d)
        },
{
    let s2 = s.insert(pos, (c, l));
    assert(s2[pos] == (c, l));
    if d == c {
        lemma_lookup_at(s2, pos);
    } else {
        assert(sorted_links(s)) by {
            assert forall|a: int, b: int| 0 <= a < b < s.len() implies (s[a].0 as int) < (s[b].0 as int) by {
                let a2 = if a < pos { a } else { a + 1 };
                let b2 = if b < pos { b } else { b + 1 };
                assert(s2[a2] == s[a]);
                assert(s2[b2] == s[b]);
            }
        }
        lemma_find_child(s, d);
        match find_child(s, d) {
            Some(j) => {
                let j2 = if j < pos { j } else { j + 1 };
                assert(s2[j2] == s[j]);
                lemma_lookup_at(s2, j2);
                lemma_lookup_at(s, j);
            },
            None => {
                assert forall|j: int| 0 <= j < s2.len() implies s2[j].0 != d by {
                    if j < pos {
                        assert(s2[j] == s[j]);
                    } else if j > pos {
                        assert(s2[j] == s[j - 1]);
                    }
                }
                lemma_lookup_absent(s2, d);
            },
        }
    }
}

pub proof fn lemma_lookup_remove(s: Seq<(char, TrieLink)>, i: int, d: char)
    requires
        sorted_links(s),
        0 <= i < s.len(),
    ensures
        sorted_links(s.remove(i)),
        child_lookup(s.remove(i), d) == if d == s[i].0 {
            None
        } else {
            child_lookup(s, d)
        },
{
    let s2 = s.remove(i);
    assert(sorted_links(s2)) by {
        assert forall|a: int, b: int| 0 <= a < b < s2.len() implies (s2[a].0 as int) < (s2[b].0 as int) by {
            let a1 = if a < i { a } else { a + 1 };
            let b1 = if b < i { b } else { b + 1 };
            assert(s2[a] == s[a1]);
            assert(s2[b] == s[b1]);
        }
    }
    if d == s[i].0 {
        assert forall|j: int| 0 <= j < s2.len() implies s2[j].0 != d by {
            let j1 = if j < i { j } else { j + 1 };
            assert(s2[j] == s[j1]);
            assert((s[i].0 as int) != (s[j1].0 as int));
        }
        lemma_lookup_absent(s2, d);
    } else {
        lemma_find_child(s, d);
        match find_child(s, d) {
            Some(j) => {
                let j2 = if j < i { j } else { j - 1 };
                assert(s2[j2] == s[j]);
                lemma_lookup_at(s2, j2);
                lemma_lookup_at(s, j);
            },
            None => {
                assert forall|j: int| 0 <= j < s2.len() implies s2[j].0 != d by {
                    let j1 = if j < i { j } else { j + 1 };
                    assert(s2[j] == s[j1]);
                }
                lemma_lookup_absent(s2, d);
            },
        }
    }
}

/// Replacing the link at `i` changes only the keys below it.
pub proof fn lemma_get_update_child(n: TrieNode, i: int, l: TrieLink, k: Seq<char>)
    requires
        sorted_links(n.children),
        0 <= i < n.children.len(),
    ensures
        node_get(TrieNode { children: n.children.update(i, (n.children[i].0, l)), ..n }, k)
            == if in_child(n, n.children[i].0, k) {
            link_get(l, k.skip(n.prefix.len() as int))
        } else {
            node_get(n, k)
        },
{
    let n2 = TrieNode { children: n.children.update(i, (n.children[i].0, l)), ..n };
    lemma_node_get_step(n, k);
    lemma_node_get_step(n2, k);
    if starts_with(k, n.prefix) && k.len() > n.prefix.len() {
        let rest = k.skip(n.prefix.len() as int);
        assert(rest[0] == k[n.prefix.len() as int]);
        lemma_lookup_update(n.children, i, l, rest[0]);
    }
}

/// Inserting a link under a new character changes only the keys below it.
pub proof fn lemma_get_insert_child(n: TrieNode, pos: int, c: char, l: TrieLink, k: Seq<char>)
    requires
        sorted_links(n.children.insert(pos, (c, l))),
        0 <= pos <= n.children.len(),
        forall|j: int| 0 <= j < n.children.len() ==> n.children[j].0 != c,
    ensures
        node_get(TrieNode { children: n.children.insert(pos, (c, l)), ..n }, k) == if in_child(
            n,
            c,
            k,
        ) {
            link_get(l, k.skip(n.prefix.len() as int))
        } else {
            node_get(n, k)
        },
{
    let n2 = TrieNode { children: n.children.insert(pos, (c, l)), ..n };
    lemma_node_get_step(n, k);
    lemma_node_get_step(n2, k);
    if starts_with(k, n.prefix) && k.len() > n.prefix.len() {
        let rest = k.skip(n.prefix.len() as int);
        assert(rest[0] == k[n.prefix.len() as int]);
        lemma_lookup_insert(n.children, pos, c, l, rest[0]);
    }
}

/// Removing the link at `i` drops exactly the keys below it.
pub proof fn lemma_get_remove_child(n: TrieNode, i: int, k: Seq<char>)
    requires
        sorted_links(n.children),
        0 <= i < n.children.len(),
    ensures
        node_get(TrieNode { children: n.children.remove(i), ..n }, k) == if in_child(
            n,
            n.children[i].0,
            k,
        ) {
            None
        } else {
            node_get(n, k)
        },
{
    let n2 = TrieNode { children: n.children.remove(i), ..n };
    lemma_node_get_step(n, k);
    lemma_node_get_step(n2, k);
    if starts_with(k, n.prefix) && k.len() > n.prefix.len() {
        let rest = k.skip(n.prefix.len() as int);
        assert(rest[0] == k[n.prefix.len() as int]);
        lemma_lookup_remove(n.children, i, rest[0]);
    }
}

/// Changing the value of a node changes only the key equal to its prefix.
pub proof fn lemma_get_set_value(n: TrieNode, v: Option<Seq<char>>, k: Seq<char>)
    ensures
        node_get(TrieNode { value: v, ..n }, k) == if k == n.prefix {
            v
        } else {
            node_get(n, k)
        },
{
    let n2 = TrieNode { value: v, ..n };
    lemma_node_get_step(n, k);
    lemma_node_get_step(n2, k);
    if starts_with(k, n.prefix) {
        if k.skip(n.prefix.len() as int).len() == 0 {
            assert(k =~= n.prefix);
        }
    }
    if k == n.prefix {
        assert(k.take(n.prefix.len() as int) =~= n.prefix);
    }
}

/// Splitting a prefix `p1 + p2`: lookups below the longer label are lookups below
/// the shorter one after `p1`.
pub proof fn lemma_get_split(n: TrieNode, p1: Seq<char>, p2: Seq<char>, k: Seq<char>)
    requires
        n.prefix == p1 + p2,
    ensures
        node_get(n, k) == if starts_with(k, p1) {
            node_get(TrieNode { prefix: p2, ..n }, k.skip(p1.len() as int))
        } else {
            None
        },
{
    let n2 = TrieNode { prefix: p2, ..n };
    let k2 = k.skip(p1.len() as int);
    lemma_node_get_step(n, k);
    lemma_node_get_step(n2, k2);
    if starts_with(k, p1) {
        assert(k =~= p1 + k2) by {
            assert(k.take(p1.len() as int) == p1);
        }
        if starts_with(k, n.prefix) {
            assert forall|j: int| 0 <= j < p2.len() implies k2[j] == p2[j] by {
                assert(k[p1.len() + j] == k.take(n.prefix.len() as int)[p1.len() + j]);
                assert(n.prefix[p1.len() + j] == p2[j]);
            }
            assert(k2.take(p2.len() as int) =~= p2);
            assert(starts_with(k2, p2));
            assert(k.skip(n.prefix.len() as int) =~= k2.skip(p2.len() as int));
        }
        if starts_with(k2, p2) {
            assert(k.take(n.prefix.len() as int) =~= p1 + k2.take(p2.len() as int));
            assert(starts_with(k, n.prefix));
        }
    } else {
        if starts_with(k, n.prefix) {
            assert(k.take(p1.len() as int) =~= k.take(n.prefix.len() as int).take(p1.len() as int));
            assert((p1 + p2).take(p1.len() as int) =~= p1);
        }
    }
}

/// A leaf holds exactly one key.
pub proof fn lemma_get_leaf(p: Seq<char>, v: Seq<char>, k: Seq<char>)
    ensures
        node_get(TrieNode { prefix: p, value: Some(v), children: Seq::empty() }, k) == if k == p {
            Some(v)
        } else {
            None
        },
{
    let n = TrieNode { prefix: p, value: Some(v), children: Seq::<(char, TrieLink)>::empty() };
    lemma_node_get_step(n, k);
    if starts_with(k, p) {
        if k.skip(p.len() as int).len() > 0 {
            lemma_lookup_absent(n.children, k.skip(p.len() as int)[0]);
        } else {
            assert(k =~= p);
        }
    }
    if k == p {
        assert(k.take(p.len() as int) =~= p);
    }
}

/// A node with no value and no links holds nothing.
pub proof fn lemma_get_bare(p: Seq<char>, k: Seq<char>)
    ensures
        node_get(TrieNode { prefix: p, value: None, children: Seq::empty() }, k) is None,
{
    let n = TrieNode { prefix: p, value: None, children: Seq::<(char, TrieLink)>::empty() };
    lemma_node_get_step(n, k);
    if starts_with(k, p) && k.skip(p.len() as int).len() > 0 {
        lemma_lookup_absent(n.children, k.skip(p.len() as int)[0]);
    }
}

/// A node without value and with a single link behaves like the child with the
/// node's label prepended.
pub proof fn lemma_get_merge(p: Seq<char>, c: char, l: TrieLink, k: Seq<char>)
    requires
        l.node matches Some(m) && m.prefix.len() > 0 && m.prefix[0] == c,
    ensures
        node_get(
            TrieNode {
                prefix: p + l.node.unwrap().prefix,
                value: l.node.unwrap().value,
                children: l.node.unwrap().children,
            },
            k,
        ) == node_get(TrieNode { prefix: p, value: None, children: seq![(c, l)] }, k),
{
    let m = *l.node.unwrap();
    let merged = TrieNode { prefix: p + m.prefix, value: m.value, children: m.children };
    let single = TrieNode { prefix: p, value: None, children: seq![(c, l)] };
    lemma_get_split(merged, p, m.prefix, k);
    assert(TrieNode { prefix: m.prefix, ..merged } == m);
    lemma_node_get_step(single, k);
    assert(sorted_links(single.children));
    if starts_with(k, p) {
        let rest = k.skip(p.len() as int);
        if rest.len() == 0 {
            lemma_node_get_step(m, rest);
        } else if rest[0] == c {
            lemma_lookup_at(single.children, 0);
        } else {
            lemma_lookup_absent(single.children, rest[0]);
            lemma_node_get_step(m, rest);
        }
    }
}

proof fn lemma_trie_wf_transfer(n: TrieNode, m: TrieNode)
    requires
        n.children == m.children,
        trie_wf(n),
        node_compact(m),
    ensures
        trie_wf(m),
{
    lemma_trie_wf(n);
    lemma_trie_wf(m);
    let len = n.children.len();
    assert(forall|j: int| 0 <= j < len ==> #[trigger] link_ok(n.children[j].0, n.children[j].1) && trie_wf(child_at(n, j)));
    assert forall|j: int| 0 <= j < m.children.len() implies #[trigger] link_ok(m.children[j].0, m.children[j].1)
        && trie_wf(child_at(m, j)) by {
        assert(link_ok(n.children[j].0, n.children[j].1));
        assert(child_at(n, j) == child_at(m, j));
    }
}

/// Well-formedness of a node depends only on its links and on its being compact.
pub proof fn lemma_trie_wf_links(n: TrieNode, m: TrieNode)
    requires
        n.children == m.children,
    ensures
        trie_wf(n) && node_compact(m) ==> trie_wf(m),
        trie_wf(m) && node_compact(n) ==> trie_wf(n),
{
    if trie_wf(n) && node_compact(m) {
        lemma_trie_wf_transfer(n, m);
    }
    if trie_wf(m) && node_compact(n) {
        lemma_trie_wf_transfer(m, n);
    }
}

/// Splitting a node's label at the end of a new key that becomes the parent.
pub proof fn lemma_get_split_above(n: TrieNode, p1: Seq<char>, p2: Seq<char>, l: TrieLink, v: Seq<char>, k: Seq<char>)
    requires
        n.prefix == p1 + p2,
        p2.len() > 0,
        l.node == Some(Box::new(TrieNode { prefix: p2, ..n })),
    ensures
        node_get(TrieNode { prefix: p1, value: Some(v), children: seq![(p2[0], l)] }, k) == if k
            == p1 {
            Some(v)
        } else {
            node_get(n, k)
        },
{
    let single = TrieNode { prefix: p1, value: None, children: seq![(p2[0], l)] };
    lemma_get_set_value(single, Some(v), k);
    lemma_get_merge(p1, p2[0], l, k);
    assert(TrieNode { prefix: p1 + p2, value: n.value, children: n.children } == n);
}

/// Inserting a key that leaves a node's label after `p1`: a new parent with the
/// old node (label `p2`) and a leaf (label `q`) as its two children.
pub proof fn lemma_get_diverge(
    n: TrieNode,
    p1: Seq<char>,
    p2: Seq<char>,
    q: Seq<char>,
    le: TrieLink,
    ll: TrieLink,
    ch: Seq<(char, TrieLink)>,
    v: Seq<char>,
    k: Seq<char>,
)
    requires
        n.prefix == p1 + p2,
        p2.len() > 0,
        q.len() > 0,
        p2[0] != q[0],
        le.node == Some(Box::new(TrieNode { prefix: p2, ..n })),
        ll.node == Some(Box::new(TrieNode { prefix: q, value: Some(v), children: Seq::empty() })),
        sorted_links(ch),
        ch.len() == 2,
        ch.contains((p2[0], le)),
        ch.contains((q[0], ll)),
    ensures
        node_get(TrieNode { prefix: p1, value: None, children: ch }, k) == if k == p1 + q {
            Some(v)
        } else {
            node_get(n, k)
        },
{
    let m = TrieNode { prefix: p1, value: None, children: ch };
    let ex = TrieNode { prefix: p2, ..n };
    let kk = p1 + q;
    lemma_node_get_step(m, k);
    lemma_get_split(n, p1, p2, k);
    let ie = choose|i: int| 0 <= i < ch.len() && ch[i] == (p2[0], le);
    let il = choose|i: int| 0 <= i < ch.len() && ch[i] == (q[0], ll);
    if starts_with(k, p1) {
        let rest = k.skip(p1.len() as int);
        assert(k =~= p1 + rest) by {
            assert(k.take(p1.len() as int) == p1);
        }
        assert(k == kk <==> rest == q) by {
            if rest == q {
                assert(k =~= kk);
            }
            if k == kk {
                assert(rest =~= q);
            }
        }
        lemma_node_get_step(ex, rest);
        if rest.len() == 0 {
        } else if rest[0] == p2[0] {
            lemma_lookup_at(ch, ie);
        } else if rest[0] == q[0] {
            lemma_lookup_at(ch, il);
            lemma_get_leaf(q, v, rest);
            if rest.len() >= p2.len() {
                assert(rest.take(p2.len() as int)[0] == rest[0]);
            }
        } else {
            assert forall|j: int| 0 <= j < ch.len() implies ch[j].0 != rest[0] by {
                if ch[j].0 == rest[0] {
                    assert(j != ie && j != il);
                }
            }
            lemma_lookup_absent(ch, rest[0]);
            if rest.len() >= p2.len() {
                assert(rest.take(p2.len() as int)[0] == rest[0]);
            }
        }
    } else {
        assert(kk.take(p1.len() as int) =~= p1);
    }
}

} // verus!
