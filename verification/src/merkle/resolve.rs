//! Loading fetched nodes under lazy links: a fetched node is checked against the
//! CID that the link carries and, for a dictionary, against the shape of a
//! compressed trie before it is put in place.
use vstd::prelude::*;
use crate::cid_utils::compute_cid_text;
use crate::error::CashewError;
use crate::merkle::dictionary::{DictModel, MerkleDictionary};
use crate::merkle::radix_header::RadixHeader;
use crate::merkle::radix_node::{
    child_at, clone_links, clone_opt_enc, find_child, lemma_find_child, lemma_find_child_sorted, lemma_links_view, lemma_node_view,
    lemma_trie_wf, link_model, link_ok, links_view, node_cid, node_compact, sorted_links, trie_wf, RadixNode,
    TrieLink, TrieNode,
};
use crate::merkle::trie_exec::{find_link, lemma_links_view_update};
use crate::text::{str_chars, str_eq};

verus! {

/// The CID text of a node: that of its serialized form.
pub fn node_cid_string(n: &RadixNode<String>) -> (r: String)
    ensures
        r@ == node_cid(n@),
{
    let data = n.to_data();
    match data {
        Ok(d) => {
            let c = compute_cid_text(d.as_slice());
            match c {
                Ok(s) => s,
                Err(_) => {
                    proof {
                        assert(false);
                    }
                    String::new()
                },
            }
        },
        Err(_) => {
            proof {
                assert(false);
            }
            String::new()
        },
    }
}

/// Whether `n` is a fully loaded compressed trie whose links are sorted, keyed by
/// the first character of their nodes' labels and carry their nodes' CIDs.
pub fn is_well_formed(n: &RadixNode<String>) -> (b: bool)
    ensures
        b == trie_wf(n@),
    decreases n,
{
    proof {
        lemma_node_view(*n);
        lemma_trie_wf(n@);
    }
    let len = n.children.len();
    if !(n.value.is_some() || len >= 2) {
        return false;
    }
    let mut i: usize = 0;
    while i < len
        invariant
            len == n.children@.len(),
            len == n@.children.len(),
            forall|j: int| 0 <= j < len ==> #[trigger] n@.children[j] == (n.children@[j].0, n.children@[j].1@),
            0 <= i <= len,
            forall|a: int, b: int| 0 <= a < b < i ==> (n@.children[a].0 as int) < (n@.children[b].0 as int),
            forall|j: int|
                0 <= j < i ==> #[trigger] link_ok(n@.children[j].0, n@.children[j].1) && trie_wf(child_at(n@, j)),
        decreases len - i,
    {
        proof {
            lemma_trie_wf(n@);
        }
        let c = n.children[i].0;
        if i > 0 && !(n.children[i - 1].0 < c) {
            proof {
                assert(n@.children[i - 1].0 == n.children@[i - 1].0);
                assert(n@.children[i as int].0 == c);
                assert(!sorted_links(n@.children));
            }
            return false;
        }
        proof {
            if i > 0 {
                assert(n@.children[i - 1].0 == n.children@[i - 1].0);
                assert(n@.children[i as int].0 == c);
            }
        }
        match &n.children[i].1.node {
            None => {
                proof {
                    assert(!link_ok(n@.children[i as int].0, n@.children[i as int].1));
                }
                return false;
            },
            Some(b) => {
                let m: &RadixNode<String> = &**b;
                proof {
                    lemma_node_view(*m);
                    assert(child_at(n@, i as int) == m@);
                }
                let pc = str_chars(m.prefix.as_str());
                if pc.len() == 0 || pc[0] != c {
                    proof {
                        assert(!link_ok(n@.children[i as int].0, n@.children[i as int].1));
                    }
                    return false;
                }
                let cid = node_cid_string(m);
                if !str_eq(cid.as_str(), n.children[i].1.raw_cid.as_str()) {
                    proof {
                        assert(!link_ok(n@.children[i as int].0, n@.children[i as int].1));
                    }
                    return false;
                }
                proof {
                    assert(decreases_to!(n.children => n.children@));
                    assert(decreases_to!(n.children@ => n.children@[i as int]));
                }
                proof {
                    let l = n@.children[i as int].1;
                    assert(l == n.children@[i as int].1@);
                    assert(l.cid == n.children@[i as int].1.raw_cid@);
                    assert(l.node == Some(Box::new(m@)));
                    assert(m@.prefix == pc@);
                    assert(link_ok(n@.children[i as int].0, l));
                }
                if !is_well_formed(m) {
                    proof {
                        assert(!trie_wf(child_at(n@, i as int)));
                        assert(!(link_ok(n@.children[i as int].0, n@.children[i as int].1) && trie_wf(
                            child_at(n@, i as int),
                        )));
                    }
                    return false;
                }
            },
        }
        i += 1;
    }
    proof {
        lemma_node_view(*n);
        lemma_trie_wf(n@);
        assert(sorted_links(n@.children));
        assert(node_compact(n@));
        assert(i == len);
        assert(forall|j: int|
            0 <= j < n@.children.len() ==> #[trigger] link_ok(n@.children[j].0, n@.children[j].1) && trie_wf(
                child_at(n@, j),
            ));
        assert(trie_wf(n@));
    }
    true
}

/// The links `s` with the node `m` put under the link keyed by `c`, where that
/// link is lazy and carries the CID of `m`; `None` otherwise.
pub open spec fn resolved_links(s: Seq<(char, TrieLink)>, c: char, m: TrieNode) -> Option<Seq<(char, TrieLink)>> {
    match find_child(s, c) {
        Some(i) => if 0 <= i < s.len() && s[i].1.node is None && s[i].1.cid == node_cid(m) {
            Some(s.update(i, (c, TrieLink { node: Some(Box::new(m)), ..s[i].1 })))
        } else {
            None
        },
        None => None,
    }
}

fn resolution_error(msg: &str) -> (e: CashewError)
    ensures
        e is ResolutionError,
{
    CashewError::ResolutionError(String::from_str(msg))
}

/// Puts `m` under the lazy link keyed by `c` in `links`, when that link carries the
/// CID of `m`.
fn resolve_link(links: &Vec<(char, RadixHeader<String>)>, c: char, m: RadixNode<String>) -> (r: Result<
    Vec<(char, RadixHeader<String>)>,
    CashewError,
>)
    requires
        sorted_links(links_view(links@)),
    ensures
        match resolved_links(links_view(links@), c, m@) {
            Some(l) => r matches Ok(v) && links_view(v@) == l,
            None => r matches Err(e) && e is ResolutionError,
        },
{
    proof {
        lemma_links_view(links@);
    }
    let i = match find_link(links, c) {
        Some(i) => i,
        None => {
            proof {
                lemma_find_child(links_view(links@), c);
            }
            return Err(resolution_error("no link under that character"));
        },
    };
    proof {
        lemma_find_child_sorted(links_view(links@), c, i as int);
    }
    if links[i].1.node.is_some() {
        return Err(resolution_error("the link is already loaded"));
    }
    let cid = node_cid_string(&m);
    if !str_eq(cid.as_str(), links[i].1.raw_cid.as_str()) {
        return Err(resolution_error("CID mismatch"));
    }
    let h = RadixHeader {
        raw_cid: links[i].1.raw_cid.clone(),
        node: Some(Box::new(m)),
        encryption_info: clone_opt_enc(&links[i].1.encryption_info),
    };
    let mut v = clone_links(links);
    let ghost v0 = v@;
    v.set(i, (c, h));
    proof {
        lemma_links_view_update(v0, i as int, (c, h));
        assert(links_view(v@) =~= links_view(links@).update(
            i as int,
            (c, TrieLink { node: Some(Box::new(m@)), ..links_view(links@)[i as int].1 }),
        ));
    }
    Ok(v)
}

impl RadixNode<String> {
    /// Puts a fetched child node under the lazy link keyed by `c`. Fails with
    /// `ResolutionError` where no lazy link is keyed by `c` or its CID is not that
    /// of `child`.
    pub fn resolving(&self, c: char, child: RadixNode<String>) -> (r: Result<Self, CashewError>)
        requires
            sorted_links(self@.children),
        ensures
            match resolved_links(self@.children, c, child@) {
                Some(l) => r matches Ok(n) && n@ == (TrieNode { children: l, ..self@ }),
                None => r matches Err(e) && e is ResolutionError,
            },
    {
        proof {
            lemma_node_view(*self);
        }
        match resolve_link(&self.children, c, child) {
            Ok(v) => {
                let n = crate::merkle::trie_exec::with_links(self, v);
                Ok(n)
            },
            Err(e) => Err(e),
        }
    }
}

impl MerkleDictionary<String> {
    /// Puts a fetched node under the lazy top-level link keyed by `c`, so that the
    /// keys below it can be read and changed. The node must be a fully loaded
    /// compressed trie whose label starts with `c` and whose CID is the one the
    /// link carries; otherwise the result is `ResolutionError`.
    pub fn resolving(&self, c: char, node: RadixNode<String>) -> (r: Result<Self, CashewError>)
        requires
            self.wf(),
        ensures
            resolved_links(self@.links, c, node@) is Some && trie_wf(node@) && node@.prefix.len() > 0
                && node@.prefix[0] == c ==> (r matches Ok(d) && d.wf() && d@ == (DictModel {
                links: resolved_links(self@.links, c, node@)->0,
                count: self@.count,
            })),
            !(resolved_links(self@.links, c, node@) is Some && trie_wf(node@) && node@.prefix.len() > 0
                && node@.prefix[0] == c) ==> (r matches Err(e) && e is ResolutionError),
    {
        let pc = str_chars(node.prefix.as_str());
        proof {
            lemma_node_view(node);
        }
        if pc.len() == 0 || pc[0] != c {
            return Err(resolution_error("the node's label does not start with that character"));
        }
        if !is_well_formed(&node) {
            return Err(resolution_error("malformed node"));
        }
        let ghost m = node@;
        let links = match resolve_link(self.links_ref(), c, node) {
            Ok(v) => v,
            Err(e) => return Err(e),
        };
        let d = Self::with_links(links, self.len());
        proof {
            let s = self@.links;
            let i = find_child(s, c)->0;
            lemma_find_child(s, c);
            assert(d@.links == s.update(i, (c, TrieLink { node: Some(Box::new(m)), ..s[i].1 })));
            assert forall|j: int| 0 <= j < d@.links.len() implies (#[trigger] d@.links[j]).1.node is None || (link_ok(
                d@.links[j].0,
                d@.links[j].1,
            ) && trie_wf(crate::merkle::radix_node::child_at(d@.root(), j))) by {
                if j == i {
                    assert(d@.links[j].1.node == Some(Box::new(m)));
                    assert(crate::merkle::radix_node::child_at(d@.root(), j) == m);
                } else {
                    assert(d@.links[j] == s[j]);
                    assert(crate::merkle::radix_node::child_at(d@.root(), j) == crate::merkle::radix_node::child_at(self@.root(), j));
                }
            }
        }
        Ok(d)
    }
}

} // verus!
