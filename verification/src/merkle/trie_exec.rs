//! Executable radix trie operations on fully loaded nodes.
use vstd::prelude::*;
use crate::error::CashewError;
use crate::merkle::radix_header::RadixHeader;
use crate::merkle::radix_node::{
    child_at, clone_links, clone_opt_string, lemma_links_view, lemma_node_view, lemma_trie_wf,
    link_model, link_ok, links_view, node_get, opt_view, sorted_links, trie_wf, RadixNode,
    TrieLink, TrieNode,
};
use crate::merkle::trie::{
    child_lookup, in_child, lemma_get_diverge, lemma_get_insert_child, lemma_get_leaf, lemma_get_merge, lemma_get_split_above, lemma_get_bare, lemma_lookup_remove, lemma_lookup_update,
    lemma_get_remove_child, lemma_get_set_value, lemma_get_split, lemma_get_update_child,
    lemma_lookup_absent, lemma_lookup_at, lemma_node_get_step, lemma_trie_wf_links, link_get,
    starts_with,
};
use crate::merkle::canonical::{lemma_plain_same_links, lemma_trie_plain, opt_plain, trie_plain};
use crate::text::{chars_to_string, common_prefix_len, concat_strings, str_chars};

verus! {

/// Index of the link keyed by `c`.
pub(crate) fn find_link(v: &Vec<(char, RadixHeader<String>)>, c: char) -> (r: Option<usize>)
    ensures
        r matches Some(i) ==> i < v@.len() && v@[i as int].0 == c,
        r is None ==> forall|j: int| 0 <= j < v@.len() ==> v@[j].0 != c,
{
    let mut i: usize = 0;
    while i < v.len()
        invariant
            i <= v@.len(),
            forall|j: int| 0 <= j < i ==> v@[j].0 != c,
        decreases v.len() - i,
    {
        if v[i].0 == c {
            return Some(i);
        }
        i += 1;
    }
    None
}

/// Position at which a link keyed by `c` keeps the links sorted.
pub(crate) fn insert_pos(v: &Vec<(char, RadixHeader<String>)>, c: char) -> (pos: usize)
    requires
        sorted_links(links_view(v@)),
        forall|j: int| 0 <= j < v@.len() ==> v@[j].0 != c,
    ensures
        pos <= v@.len(),
        forall|j: int| 0 <= j < pos ==> (v@[j].0 as int) < (c as int),
        forall|j: int| pos <= j < v@.len() ==> (c as int) < (v@[j].0 as int),
{
    proof {
        lemma_links_view(v@);
    }
    let mut i: usize = 0;
    while i < v.len() && v[i].0 < c
        invariant
            i <= v@.len(),
            links_view(v@).len() == v@.len(),
            forall|j: int| 0 <= j < v@.len() ==> #[trigger] links_view(v@)[j].0 == v@[j].0,
            sorted_links(links_view(v@)),
            forall|j: int| 0 <= j < i ==> (v@[j].0 as int) < (c as int),
        decreases v.len() - i,
    {
        i += 1;
    }
    proof {
        assert forall|j: int| i <= j < v@.len() implies (c as int) < (v@[j].0 as int) by {
            assert(v@[j].0 != c);
            if j > i {
                assert((links_view(v@)[i as int].0 as int) < (links_view(v@)[j].0 as int));
            }
        }
    }
    i
}

pub proof fn lemma_links_view_update(v: Seq<(char, RadixHeader<String>)>, i: int, x: (char, RadixHeader<String>))
    requires
        0 <= i < v.len(),
    ensures
        links_view(v.update(i, x)) == links_view(v).update(i, (x.0, link_model(x.1))),
{
    lemma_links_view(v);
    lemma_links_view(v.update(i, x));
    assert(links_view(v.update(i, x)) =~= links_view(v).update(i, (x.0, link_model(x.1))));
}

pub proof fn lemma_links_view_insert(v: Seq<(char, RadixHeader<String>)>, i: int, x: (char, RadixHeader<String>))
    requires
        0 <= i <= v.len(),
    ensures
        links_view(v.insert(i, x)) == links_view(v).insert(i, (x.0, link_model(x.1))),
{
    lemma_links_view(v);
    lemma_links_view(v.insert(i, x));
    assert(links_view(v.insert(i, x)) =~= links_view(v).insert(i, (x.0, link_model(x.1))));
}

pub proof fn lemma_links_view_remove(v: Seq<(char, RadixHeader<String>)>, i: int)
    requires
        0 <= i < v.len(),
    ensures
        links_view(v.remove(i)) == links_view(v).remove(i),
{
    lemma_links_view(v);
    lemma_links_view(v.remove(i));
    assert(links_view(v.remove(i)) =~= links_view(v).remove(i));
}

pub proof fn lemma_links_view_pair(a: (char, RadixHeader<String>), b: (char, RadixHeader<String>))
    ensures
        links_view(seq![a, b]) == seq![(a.0, link_model(a.1)), (b.0, link_model(b.1))],
        links_view(seq![a]) == seq![(a.0, link_model(a.1))],
{
    lemma_links_view(seq![a, b]);
    lemma_links_view(seq![a]);
    assert(links_view(seq![a, b]) =~= seq![(a.0, link_model(a.1)), (b.0, link_model(b.1))]);
    assert(links_view(seq![a]) =~= seq![(a.0, link_model(a.1))]);
}

/// Lookup below a child of a well-formed node goes through that child.
pub proof fn lemma_get_through_child(n: TrieNode, i: int, k: Seq<char>)
    requires
        trie_wf(n),
        0 <= i < n.children.len(),
        in_child(n, n.children[i].0, k),
    ensures
        node_get(n, k) == node_get(child_at(n, i), k.skip(n.prefix.len() as int)),
{
    lemma_trie_wf(n);
    assert(link_ok(n.children[i].0, n.children[i].1));
    lemma_get_through_link(n, i, k);
}

/// Lookup below a loaded link of a node with sorted links goes through that link.
pub proof fn lemma_get_through_link(n: TrieNode, i: int, k: Seq<char>)
    requires
        sorted_links(n.children),
        0 <= i < n.children.len(),
        n.children[i].1.node is Some,
        in_child(n, n.children[i].0, k),
    ensures
        node_get(n, k) == node_get(child_at(n, i), k.skip(n.prefix.len() as int)),
{
    lemma_node_get_step(n, k);
    lemma_lookup_at(n.children, i);
    assert(k.skip(n.prefix.len() as int)[0] == k[n.prefix.len() as int]);
}

/// Lookup below a character without a link finds nothing.
pub proof fn lemma_get_no_child(n: TrieNode, c: char, k: Seq<char>)
    requires
        forall|j: int| 0 <= j < n.children.len() ==> n.children[j].0 != c,
        in_child(n, c, k),
    ensures
        node_get(n, k) is None,
{
    lemma_node_get_step(n, k);
    lemma_lookup_absent(n.children, c);
    assert(k.skip(n.prefix.len() as int)[0] == k[n.prefix.len() as int]);
}

/// Value stored under `key[from..]` in a fully loaded node.
pub(crate) fn radix_get(node: &RadixNode<String>, key: &Vec<char>, from: usize) -> (r: Result<Option<String>, CashewError>)
    requires
        trie_wf(node@),
        node@.prefix.len() > 0,
        from <= key@.len(),
    ensures
        r matches Ok(v) && opt_view(v) == node_get(node@, key@.skip(from as int)),
    decreases key@.len() - from,
{
    proof {
        lemma_node_view(*node);
    }
    let ghost k = key@.skip(from as int);
    let pc = str_chars(node.prefix.as_str());
    let common = common_prefix_len(key, from, &pc, 0);
    proof {
        lemma_node_get_step(node@, k);
    }
    if common < pc.len() {
        proof {
            if k.len() >= pc@.len() {
                assert(k.take(pc@.len() as int)[common as int] == key@[from + common]);
            }
        }
        return Ok(None);
    }
    let ki = from + common;
    proof {
        assert(k.take(pc@.len() as int) =~= pc@) by {
            assert(k.take(pc@.len() as int) =~= key@.subrange(from as int, from + common));
        }
        assert(k.skip(pc@.len() as int) =~= key@.skip(ki as int));
    }
    if ki == key.len() {
        return Ok(clone_opt_string(&node.value));
    }
    let next = key[ki];
    match find_link(&node.children, next) {
        Some(i) => {
            proof {
                lemma_trie_wf(node@);
                assert(link_ok(node@.children[i as int].0, node@.children[i as int].1));
            }
            let child = match node.children[i].1.require_node() {
                Ok(c) => c,
                Err(e) => return Err(e),
            };
            proof {
                assert(child_at(node@, i as int) == child@);
                lemma_get_through_child(node@, i as int, k);
            }
            radix_get(child, key, ki)
        },
        None => {
            proof {
                lemma_get_no_child(node@, next, k);
            }
            Ok(None)
        },
    }
}

/// A copy of `node` with its links replaced by `children`.
pub(crate) fn with_links(node: &RadixNode<String>, children: Vec<(char, RadixHeader<String>)>) -> (m: RadixNode<String>)
    ensures
        m@ == (TrieNode { children: links_view(children@), ..node@ }),
{
    let m = RadixNode::new(node.prefix.clone(), clone_opt_string(&node.value), children);
    proof {
        lemma_node_view(*node);
        lemma_node_view(m);
    }
    m
}

/// Shared facts about matching `key[from..]` against a node's prefix.
pub proof fn lemma_match_prefix(key: Seq<char>, from: int, p: Seq<char>, common: int)
    requires
        0 <= from <= key.len(),
        0 <= common <= p.len(),
        from + common <= key.len(),
        key.subrange(from, from + common) == p.subrange(0, common),
    ensures
        common == p.len() ==> starts_with(key.skip(from), p),
        common == p.len() ==> key.skip(from).skip(p.len() as int) == key.skip(from + common),
        key.skip(from).take(common) == p.take(common),
{
    assert(key.skip(from).take(common) =~= key.subrange(from, from + common));
    assert(p.take(common) =~= p.subrange(0, common));
    if common == p.len() {
        assert(key.skip(from).take(p.len() as int) =~= p);
        assert(key.skip(from).skip(p.len() as int) =~= key.skip(from + common));
    }
}

/// Inserts (or overwrites) `key[from..]` in a fully loaded node whose prefix starts
/// with `key[from]`.
#[verifier::spinoff_prover]
#[verifier::rlimit(60)]
pub(crate) fn radix_insert(node: &RadixNode<String>, key: &Vec<char>, from: usize, value: String) -> (r: Result<RadixNode<String>, CashewError>)
    requires
        trie_wf(node@),
        node@.prefix.len() > 0,
        from < key@.len(),
        key@[from as int] == node@.prefix[0],
    ensures
        r matches Ok(m) && trie_wf(m@) && m@.prefix.len() > 0 && m@.prefix[0] == node@.prefix[0]
            && forall|k: Seq<char>| #[trigger] node_get(m@, k) == if k == key@.skip(from as int) {
            Some(value@)
        } else {
            node_get(node@, k)
        },
        r matches Ok(m) ==> (trie_plain(node@) ==> trie_plain(m@)),
    decreases key@.len() - from,
{
    proof {
        lemma_node_view(*node);
        lemma_trie_wf(node@);
        lemma_trie_plain(node@);
    }
    let ghost kk = key@.skip(from as int);
    let ghost n = node@;
    let pc = str_chars(node.prefix.as_str());
    let common = common_prefix_len(key, from, &pc, 0);
    proof {
        lemma_match_prefix(key@, from as int, pc@, common as int);
    }
    let key_done = from + common == key.len();
    let prefix_done = common == pc.len();
    if key_done && prefix_done {
        let m = with_links(node, clone_links(&node.children));
        let ghost n0 = TrieNode { children: links_view(node.children@), ..n };
        let m = RadixNode::new(m.prefix, Some(value), m.children);
        proof {
            lemma_node_view(m);
            assert(kk =~= n.prefix);
            assert(m@ == TrieNode { value: Some(value@), ..n });
            assert forall|k: Seq<char>| #[trigger] node_get(m@, k) == if k == kk {
                Some(value@)
            } else {
                node_get(n, k)
            } by {
                lemma_get_set_value(n, Some(value@), k);
            }
            lemma_trie_wf_links(m@, n);
            lemma_plain_same_links(n, m@);
        }
        return Ok(m);
    }
    if prefix_done {
        let ki = from + common;
        let next = key[ki];
        match find_link(&node.children, next) {
            Some(i) => {
                proof {
                    assert(link_ok(n.children[i as int].0, n.children[i as int].1));
                }
                let child = match node.children[i].1.require_node() {
                    Ok(c) => c,
                    Err(e) => return Err(e),
                };
                proof {
                    assert(child_at(n, i as int) == child@);
                    assert(trie_wf(child@));
                }
                let new_child = match radix_insert(child, key, ki, value) {
                    Ok(c) => c,
                    Err(e) => return Err(e),
                };
                let ghost nc = new_child@;
                let h = match RadixHeader::from_node(new_child) {
                    Ok(h) => h,
                    Err(e) => return Err(e),
                };
                let mut c = clone_links(&node.children);
                let ghost c0 = c@;
                c.set(i, (next, h));
                proof {
                    lemma_links_view_update(c0, i as int, (next, h));
                }
                let m = with_links(node, c);
                proof {
                    let l = link_model(h);
                    assert(m@ == TrieNode { children: n.children.update(i as int, (n.children[i as int].0, l)), ..n });
                    assert forall|k: Seq<char>| #[trigger] node_get(m@, k) == if k == kk {
                        Some(value@)
                    } else {
                        node_get(n, k)
                    } by {
                        lemma_get_update_child(n, i as int, l, k);
                        if in_child(n, next, k) {
                            lemma_get_through_child(n, i as int, k);
                            let rest = k.skip(n.prefix.len() as int);
                            if k == kk {
                                assert(rest == key@.skip(ki as int));
                            } else {
                                assert(k =~= n.prefix + rest) by {
                                    assert(k.take(n.prefix.len() as int) == n.prefix);
                                }
                                assert(kk =~= n.prefix + key@.skip(ki as int)) by {
                                    assert(kk.take(n.prefix.len() as int) == n.prefix);
                                }
                                assert(rest != key@.skip(ki as int));
                            }
                        } else {
                            assert(kk[n.prefix.len() as int] == next);
                            assert(k != kk);
                        }
                    }
                    let s2 = n.children.update(i as int, (n.children[i as int].0, l));
                    assert(sorted_links(s2));
                    assert forall|j: int| 0 <= j < s2.len() implies #[trigger] link_ok(s2[j].0, s2[j].1)
                        && trie_wf(child_at(m@, j)) by {
                        if j != i {
                            assert(link_ok(n.children[j].0, n.children[j].1));
                            assert(child_at(m@, j) == child_at(n, j));
                        }
                    }
                    lemma_trie_wf(m@);
                    lemma_trie_plain(m@);
                    if trie_plain(n) {
                        assert(trie_plain(child_at(n, i as int)));
                        assert forall|j: int| 0 <= j < s2.len() implies (#[trigger] m@.children[j]).1.encryption is None
                            && (m@.children[j].1.node is Some ==> trie_plain(child_at(m@, j))) by {
                            if j != i {
                                assert(child_at(m@, j) == child_at(n, j));
                            }
                        }
                    }
                }
                Ok(m)
            },
            None => {
                let rem = chars_to_string(key, ki, key.len());
                let leaf = RadixNode::leaf(rem, value);
                let ghost lf = leaf@;
                let h = match RadixHeader::from_node(leaf) {
                    Ok(h) => h,
                    Err(e) => return Err(e),
                };
                proof {
                    lemma_links_view(node.children@);
                    assert(sorted_links(links_view(node.children@)));
                }
                let pos = insert_pos(&node.children, next);
                let mut c = clone_links(&node.children);
                let ghost c0 = c@;
                c.insert(pos, (next, h));
                proof {
                    lemma_links_view_insert(c0, pos as int, (next, h));
                }
                let m = with_links(node, c);
                proof {
                    let l = link_model(h);
                    let s2 = n.children.insert(pos as int, (next, l));
                    assert(m@ == TrieNode { children: s2, ..n });
                    assert(sorted_links(s2)) by {
                        assert forall|a: int, b: int| 0 <= a < b < s2.len() implies (s2[a].0 as int) < (s2[b].0 as int) by {
                            if a < pos && b < pos {
                                assert(s2[a] == n.children[a] && s2[b] == n.children[b]);
                            } else if a < pos && b == pos {
                                assert(s2[a] == n.children[a]);
                            } else if a < pos {
                                assert(s2[a] == n.children[a] && s2[b] == n.children[b - 1]);
                            } else if a == pos {
                                assert(s2[b] == n.children[b - 1]);
                            } else {
                                assert(s2[a] == n.children[a - 1] && s2[b] == n.children[b - 1]);
                            }
                        }
                    }
                    assert forall|j: int| 0 <= j < n.children.len() implies n.children[j].0 != next by {}
                    assert forall|k: Seq<char>| #[trigger] node_get(m@, k) == if k == kk {
                        Some(value@)
                    } else {
                        node_get(n, k)
                    } by {
                        lemma_get_insert_child(n, pos as int, next, l, k);
                        if in_child(n, next, k) {
                            lemma_get_no_child(n, next, k);
                            let rest = k.skip(n.prefix.len() as int);
                            lemma_get_leaf(key@.skip(ki as int), value@, rest);
                            assert(k =~= n.prefix + rest) by {
                                assert(k.take(n.prefix.len() as int) == n.prefix);
                            }
                            assert(kk =~= n.prefix + key@.skip(ki as int)) by {
                                assert(kk.take(n.prefix.len() as int) == n.prefix);
                            }
                        } else {
                            assert(kk[n.prefix.len() as int] == next);
                        }
                    }
                    assert forall|j: int| 0 <= j < s2.len() implies #[trigger] link_ok(s2[j].0, s2[j].1)
                        && trie_wf(child_at(m@, j)) by {
                        if j < pos {
                            assert(s2[j] == n.children[j]);
                            assert(link_ok(n.children[j].0, n.children[j].1));
                            assert(child_at(m@, j) == child_at(n, j));
                        } else if j > pos {
                            assert(s2[j] == n.children[j - 1]);
                            assert(link_ok(n.children[j - 1].0, n.children[j - 1].1));
                            assert(child_at(m@, j) == child_at(n, j - 1));
                        } else {
                            assert(lf.prefix[0] == next);
                            lemma_trie_wf(lf);
                        }
                    }
                    lemma_trie_wf(m@);
                    lemma_trie_plain(m@);
                    lemma_trie_plain(lf);
                    if trie_plain(n) {
                        assert forall|j: int| 0 <= j < s2.len() implies (#[trigger] m@.children[j]).1.encryption is None
                            && (m@.children[j].1.node is Some ==> trie_plain(child_at(m@, j))) by {
                            if j < pos {
                                assert(s2[j] == n.children[j]);
                                assert(child_at(m@, j) == child_at(n, j));
                            } else if j > pos {
                                assert(s2[j] == n.children[j - 1]);
                                assert(child_at(m@, j) == child_at(n, j - 1));
                            }
                        }
                    }
                }
                Ok(m)
            },
        }
    } else if key_done {
        // The key ends inside the prefix: split the prefix at the key's end.
        let rest_prefix = chars_to_string(&pc, common, pc.len());
        let rest_first = pc[common];
        let existing = with_links(node, clone_links(&node.children));
        let existing = RadixNode::new(rest_prefix, existing.value, existing.children);
        let ghost ex = existing@;
        proof {
            lemma_node_view(existing);
        }
        let eh = match RadixHeader::from_node(existing) {
            Ok(h) => h,
            Err(e) => return Err(e),
        };
        let mut nc: Vec<(char, RadixHeader<String>)> = Vec::new();
        nc.push((rest_first, eh));
        let new_prefix = chars_to_string(key, from, key.len());
        let m = RadixNode::new(new_prefix, Some(value), nc);
        proof {
            lemma_node_view(m);
            lemma_links_view_pair((rest_first, eh), (rest_first, eh));
            let l = link_model(eh);
            let p1 = kk;
            let p2 = pc@.skip(common as int);
            assert(p1 =~= pc@.take(common as int));
            assert(n.prefix =~= p1 + p2);
            assert(ex == TrieNode { prefix: p2, ..n });
            assert(m@ == TrieNode { prefix: p1, value: Some(value@), children: seq![(p2[0], l)] });
            assert forall|k: Seq<char>| #[trigger] node_get(m@, k) == if k == kk {
                Some(value@)
            } else {
                node_get(n, k)
            } by {
                lemma_get_split_above(n, p1, p2, l, value@, k);
            }
            lemma_trie_wf_links(ex, n);
            assert(link_ok(rest_first, l));
            lemma_trie_wf(m@);
            lemma_plain_same_links(n, ex);
            lemma_trie_plain(m@);
        }
        Ok(m)
    } else {
        // The key and the prefix diverge after `common` characters.
        let common_prefix = chars_to_string(&pc, 0, common);
        let key_rest = chars_to_string(key, from + common, key.len());
        let prefix_rest = chars_to_string(&pc, common, pc.len());
        let kf = key[from + common];
        let pf = pc[common];
        let existing = with_links(node, clone_links(&node.children));
        let existing = RadixNode::new(prefix_rest, existing.value, existing.children);
        let ghost ex = existing@;
        proof {
            lemma_node_view(existing);
        }
        let leaf = RadixNode::leaf(key_rest, value);
        let ghost lf = leaf@;
        let eh = match RadixHeader::from_node(existing) {
            Ok(h) => h,
            Err(e) => return Err(e),
        };
        let lh = match RadixHeader::from_node(leaf) {
            Ok(h) => h,
            Err(e) => return Err(e),
        };
        let mut nc: Vec<(char, RadixHeader<String>)> = Vec::new();
        let key_first = kf < pf;
        if key_first {
            nc.push((kf, lh));
            nc.push((pf, eh));
        } else {
            nc.push((pf, eh));
            nc.push((kf, lh));
        }
        let m = RadixNode::new(common_prefix, None, nc);
        proof {
            lemma_node_view(m);
            lemma_links_view_pair((kf, lh), (pf, eh));
            lemma_links_view_pair((pf, eh), (kf, lh));
            let le = link_model(eh);
            let ll = link_model(lh);
            let p1 = pc@.take(common as int);
            let p2 = pc@.skip(common as int);
            let q = key@.skip(from + common);
            assert(n.prefix =~= p1 + p2);
            assert(common > 0) by {
                if common == 0 {
                    assert(key@[from as int] == pc@[0]);
                }
            }
            assert(ex == TrieNode { prefix: p2, ..n });
            assert(lf == TrieNode { prefix: q, value: Some(value@), children: Seq::empty() });
            assert(kk =~= p1 + q) by {
                assert(kk.take(common as int) == p1);
            }
            let ch = m@.children;
            if key_first {
                assert(ch[0] == (q[0], ll));
                assert(ch[1] == (p2[0], le));
            } else {
                assert(ch[1] == (q[0], ll));
                assert(ch[0] == (p2[0], le));
            }
            assert(m@ == TrieNode { prefix: p1, value: None, children: ch });
            assert forall|k: Seq<char>| #[trigger] node_get(m@, k) == if k == kk {
                Some(value@)
            } else {
                node_get(n, k)
            } by {
                lemma_get_diverge(n, p1, p2, q, le, ll, ch, value@, k);
            }
            lemma_trie_wf_links(ex, n);
            lemma_trie_wf(lf);
            assert(link_ok(pf, le));
            assert(link_ok(kf, ll));
            lemma_trie_wf(m@);
            lemma_plain_same_links(n, ex);
            lemma_trie_plain(lf);
            lemma_trie_plain(m@);
        }
        Ok(m)
    }
}

pub open spec fn opt_node_view(o: Option<RadixNode<String>>) -> Option<TrieNode> {
    match o {
        Some(m) => Some(m@),
        None => None,
    }
}

/// `o` is what remains of the trie `n` once the key `kk` is removed: nothing at
/// all, or a well-formed trie under the same first character with `kk` unmapped.
pub open spec fn delete_result(n: TrieNode, kk: Seq<char>, o: Option<TrieNode>) -> bool {
    match o {
        None => forall|k: Seq<char>| k != kk ==> #[trigger] node_get(n, k) is None,
        Some(m) => {
            &&& trie_wf(m)
            &&& m.prefix.len() > 0
            &&& m.prefix[0] == n.prefix[0]
            &&& forall|k: Seq<char>| #[trigger] node_get(m, k) == if k == kk {
                None
            } else {
                node_get(n, k)
            }
        },
    }
}

/// Removes the value of a node whose label is exactly the deleted key.
fn delete_here(node: &RadixNode<String>) -> (r: Result<Option<RadixNode<String>>, CashewError>)
    requires
        trie_wf(node@),
        node@.prefix.len() > 0,
    ensures
        r matches Ok(o) && delete_result(node@, node@.prefix, opt_node_view(o)),
        r matches Ok(o) ==> (trie_plain(node@) ==> opt_plain(opt_node_view(o))),
{
    let ghost n = node@;
    proof {
        lemma_node_view(*node);
        lemma_trie_wf(n);
        lemma_trie_plain(n);
    }
    if node.children.len() == 0 {
        proof {
            assert forall|k: Seq<char>| k != n.prefix implies #[trigger] node_get(n, k) is None by {
                lemma_get_set_value(n, None, k);
                assert(TrieNode { value: None, ..n } == TrieNode { prefix: n.prefix, value: None, children: Seq::empty() });
                lemma_get_bare(n.prefix, k);
            }
        }
        return Ok(None);
    }
    if node.children.len() == 1 {
        proof {
            assert(link_ok(n.children[0].0, n.children[0].1));
        }
        let child = match node.children[0].1.require_node() {
            Ok(c) => c,
            Err(e) => return Err(e),
        };
        proof {
            assert(child_at(n, 0) == child@);
            lemma_node_view(*child);
        }
        let merged_prefix = concat_strings(&node.prefix, &child.prefix);
        let m = with_links(child, clone_links(&child.children));
        let m = RadixNode::new(merged_prefix, m.value, m.children);
        proof {
            lemma_node_view(m);
            let l = n.children[0].1;
            let c = n.children[0].0;
            assert(m@ == TrieNode { prefix: n.prefix + child@.prefix, value: child@.value, children: child@.children });
            assert(n.children =~= seq![(c, l)]);
            assert forall|k: Seq<char>| #[trigger] node_get(m@, k) == if k == n.prefix {
                None
            } else {
                node_get(n, k)
            } by {
                lemma_get_merge(n.prefix, c, l, k);
                lemma_get_set_value(n, None, k);
            }
            lemma_trie_wf_links(m@, child@);
            lemma_plain_same_links(child@, m@);
        }
        return Ok(Some(m));
    }
    let m = with_links(node, clone_links(&node.children));
    let m = RadixNode::new(m.prefix, None, m.children);
    proof {
        lemma_node_view(m);
        assert(m@ == TrieNode { value: None, ..n });
        assert forall|k: Seq<char>| #[trigger] node_get(m@, k) == if k == n.prefix {
            None
        } else {
            node_get(n, k)
        } by {
            lemma_get_set_value(n, None, k);
        }
        lemma_trie_wf_links(m@, n);
        lemma_plain_same_links(n, m@);
    }
    Ok(Some(m))
}

/// Drops the link at `i` (whose whole subtrie held only `kk`) and compresses the node.
fn delete_child_link(node: &RadixNode<String>, i: usize, kk: Ghost<Seq<char>>) -> (r: Result<Option<RadixNode<String>>, CashewError>)
    requires
        trie_wf(node@),
        node@.prefix.len() > 0,
        i < node@.children.len(),
        in_child(node@, node@.children[i as int].0, kk@),
        forall|k: Seq<char>| in_child(node@, node@.children[i as int].0, k) && k != kk@ ==> #[trigger] node_get(node@, k) is None,
    ensures
        r matches Ok(o) && delete_result(node@, kk@, opt_node_view(o)),
        r matches Ok(o) ==> (trie_plain(node@) ==> opt_plain(opt_node_view(o))),
{
    let ghost n = node@;
    proof {
        lemma_node_view(*node);
        lemma_trie_wf(n);
        lemma_trie_plain(n);
    }
    let mut c = clone_links(&node.children);
    let ghost c0 = c@;
    c.remove(i);
    proof {
        lemma_links_view_remove(c0, i as int);
        lemma_lookup_remove(n.children, i as int, n.children[i as int].0);
    }
    let ghost s2 = n.children.remove(i as int);
    let ghost n2 = TrieNode { children: s2, ..n };
    proof {
        assert(links_view(c@) == s2);
        assert forall|k: Seq<char>| #[trigger] node_get(n2, k) == if k == kk@ {
            None
        } else {
            node_get(n, k)
        } by {
            lemma_get_remove_child(n, i as int, k);
        }
        assert forall|j: int| 0 <= j < s2.len() implies #[trigger] link_ok(s2[j].0, s2[j].1)
            && trie_wf(child_at(n2, j)) by {
            let j1 = if j < i { j } else { j + 1 };
            assert(s2[j] == n.children[j1]);
            assert(link_ok(n.children[j1].0, n.children[j1].1));
        }
        lemma_trie_wf(n2);
        lemma_trie_plain(n2);
        if trie_plain(n) {
            assert forall|j: int| 0 <= j < s2.len() implies (#[trigger] n2.children[j]).1.encryption is None
                && (n2.children[j].1.node is Some ==> trie_plain(child_at(n2, j))) by {
                let j1 = if j < i { j } else { j + 1 };
                assert(s2[j] == n.children[j1]);
                assert(child_at(n2, j) == child_at(n, j1));
            }
        }
    }
    if c.len() == 0 && node.value.is_none() {
        proof {
            assert forall|k: Seq<char>| k != kk@ implies #[trigger] node_get(n, k) is None by {
                assert(n2 == TrieNode { prefix: n.prefix, value: None, children: Seq::empty() });
                lemma_get_bare(n.prefix, k);
            }
        }
        return Ok(None);
    }
    if c.len() == 1 && node.value.is_none() {
        proof {
            lemma_links_view(c@);
            assert(link_ok(s2[0].0, s2[0].1));
        }
        let only = match c[0].1.require_node() {
            Ok(o) => o,
            Err(e) => return Err(e),
        };
        proof {
            lemma_node_view(*only);
            assert(s2[0].1.node == Some(Box::new(only@)));
            assert(trie_wf(child_at(n2, 0)));
        }
        let merged_prefix = concat_strings(&node.prefix, &only.prefix);
        let m = with_links(only, clone_links(&only.children));
        let m = RadixNode::new(merged_prefix, m.value, m.children);
        proof {
            lemma_node_view(m);
            let l = s2[0].1;
            let ch = s2[0].0;
            assert(s2 =~= seq![(ch, l)]);
            assert(m@ == TrieNode { prefix: n.prefix + only@.prefix, value: only@.value, children: only@.children });
            assert(n2 == TrieNode { prefix: n.prefix, value: None, children: seq![(ch, l)] });
            assert forall|k: Seq<char>| #[trigger] node_get(m@, k) == if k == kk@ {
                None
            } else {
                node_get(n, k)
            } by {
                lemma_get_merge(n.prefix, ch, l, k);
            }
            lemma_trie_wf_links(m@, only@);
            lemma_plain_same_links(only@, m@);
            assert(child_at(n2, 0) == only@);
        }
        return Ok(Some(m));
    }
    let m = with_links(node, c);
    proof {
        assert(m@ == n2);
    }
    Ok(Some(m))
}

/// Removes `key[from..]` from a fully loaded node whose prefix starts with `key[from]`.
#[verifier::spinoff_prover]
#[verifier::rlimit(60)]
pub(crate) fn radix_delete(node: &RadixNode<String>, key: &Vec<char>, from: usize) -> (r: Result<Option<RadixNode<String>>, CashewError>)
    requires
        trie_wf(node@),
        node@.prefix.len() > 0,
        from < key@.len(),
        key@[from as int] == node@.prefix[0],
    ensures
        r matches Ok(o) && delete_result(node@, key@.skip(from as int), opt_node_view(o)),
        r matches Ok(o) ==> (trie_plain(node@) ==> opt_plain(opt_node_view(o))),
    decreases key@.len() - from,
{
    proof {
        lemma_node_view(*node);
        lemma_trie_wf(node@);
        lemma_trie_plain(node@);
    }
    let ghost kk = key@.skip(from as int);
    let ghost n = node@;
    let pc = str_chars(node.prefix.as_str());
    let common = common_prefix_len(key, from, &pc, 0);
    proof {
        lemma_match_prefix(key@, from as int, pc@, common as int);
    }
    let key_done = from + common == key.len();
    let prefix_done = common == pc.len();
    if key_done && prefix_done {
        proof {
            assert(kk =~= n.prefix);
        }
        return delete_here(node);
    }
    if prefix_done {
        let ki = from + common;
        let next = key[ki];
        match find_link(&node.children, next) {
            Some(i) => {
                proof {
                    assert(link_ok(n.children[i as int].0, n.children[i as int].1));
                }
                let child = match node.children[i].1.require_node() {
                    Ok(c) => c,
                    Err(e) => return Err(e),
                };
                proof {
                    assert(child_at(n, i as int) == child@);
                    assert(kk =~= n.prefix + key@.skip(ki as int)) by {
                        assert(kk.take(n.prefix.len() as int) == n.prefix);
                    }
                    assert(kk[n.prefix.len() as int] == next);
                }
                let sub = match radix_delete(child, key, ki) {
                    Ok(s) => s,
                    Err(e) => return Err(e),
                };
                match sub {
                    Some(new_child) => {
                        let ghost nc = new_child@;
                        let h = match RadixHeader::from_node(new_child) {
                            Ok(h) => h,
                            Err(e) => return Err(e),
                        };
                        let mut c = clone_links(&node.children);
                        let ghost c0 = c@;
                        c.set(i, (next, h));
                        proof {
                            lemma_links_view_update(c0, i as int, (next, h));
                        }
                        let m = with_links(node, c);
                        proof {
                            let l = link_model(h);
                            assert(m@ == TrieNode { children: n.children.update(i as int, (n.children[i as int].0, l)), ..n });
                            assert forall|k: Seq<char>| #[trigger] node_get(m@, k) == if k == kk {
                                None
                            } else {
                                node_get(n, k)
                            } by {
                                lemma_get_update_child(n, i as int, l, k);
                                if in_child(n, next, k) {
                                    lemma_get_through_child(n, i as int, k);
                                    let rest = k.skip(n.prefix.len() as int);
                                    assert(k =~= n.prefix + rest) by {
                                        assert(k.take(n.prefix.len() as int) == n.prefix);
                                    }
                                    assert(k == kk <==> rest == key@.skip(ki as int));
                                } else {
                                    assert(k != kk);
                                }
                            }
                            let s2 = n.children.update(i as int, (n.children[i as int].0, l));
                            lemma_lookup_update(n.children, i as int, l, next);
                            assert forall|j: int| 0 <= j < s2.len() implies #[trigger] link_ok(s2[j].0, s2[j].1)
                                && trie_wf(child_at(m@, j)) by {
                                if j != i {
                                    assert(link_ok(n.children[j].0, n.children[j].1));
                                    assert(child_at(m@, j) == child_at(n, j));
                                }
                            }
                            lemma_trie_wf(m@);
                            lemma_trie_plain(m@);
                            if trie_plain(n) {
                                assert(trie_plain(child_at(n, i as int)));
                                assert forall|j: int| 0 <= j < s2.len() implies (#[trigger] m@.children[j]).1.encryption is None
                                    && (m@.children[j].1.node is Some ==> trie_plain(child_at(m@, j))) by {
                                    if j != i {
                                        assert(child_at(m@, j) == child_at(n, j));
                                    }
                                }
                            }
                        }
                        Ok(Some(m))
                    },
                    None => {
                        proof {
                            assert forall|k: Seq<char>| in_child(n, n.children[i as int].0, k) && k != kk
                                implies #[trigger] node_get(n, k) is None by {
                                lemma_get_through_child(n, i as int, k);
                                let rest = k.skip(n.prefix.len() as int);
                                assert(k =~= n.prefix + rest) by {
                                    assert(k.take(n.prefix.len() as int) == n.prefix);
                                }
                                assert(rest != key@.skip(ki as int));
                            }
                        }
                        delete_child_link(node, i, Ghost(kk))
                    },
                }
            },
            None => {
                let m = with_links(node, clone_links(&node.children));
                proof {
                    assert(m@ == n);
                    lemma_get_no_child(n, next, kk);
                }
                Ok(Some(m))
            },
        }
    } else {
        let m = with_links(node, clone_links(&node.children));
        proof {
            assert(m@ == n);
            lemma_node_get_step(n, kk);
            if kk.len() >= pc@.len() {
                assert(kk.take(pc@.len() as int)[common as int] == key@[from + common]);
            }
        }
        Ok(Some(m))
    }
}

} // verus!
