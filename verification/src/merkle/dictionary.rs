use vstd::prelude::*;
use crate::codec::{decimal, json_usize};
use crate::error::{CashewError, ErrorView};
use crate::transform::{Transform, TransformView};
use vstd::utf8::encode_utf8;
use crate::encryption::EncryptionInfo;
use crate::merkle::radix_header::RadixHeader;
use crate::merkle::lenient::lenient_dict;
use crate::merkle::decode::{dict_text, entries_view, last_entry_link, lazy_links, links_from_entries, parse_dict, text_of};
use crate::merkle::canonical::{
    dict_plain, lemma_plain_insert, lemma_plain_remove, lemma_plain_update, lemma_trie_plain, trie_plain,
};
use crate::merkle::entries::{entries_exact, lemma_node_entries};
use crate::merkle::radix_node::{
    links_entries, node_entries,
    child_at, clone_links, entries_json, entries_json_text, lemma_links_wf, lemma_links_view, lemma_trie_wf, link_model, link_ok, links_view,
    node_get, opt_view, sorted_links, trie_wf, RadixNode, TrieLink, TrieNode,
};
use crate::merkle::trie::{
    child_lookup, in_child, lemma_get_insert_child, lemma_get_leaf, lemma_get_remove_child,
    lemma_get_update_child, lemma_lookup, lemma_lookup_absent, lemma_lookup_at,
    lemma_lookup_insert, lemma_lookup_remove, lemma_lookup_update, lemma_node_get_step, link_get,
    starts_with,
};
use crate::merkle::trie_exec::{
    delete_result, find_link, insert_pos, lemma_links_view_insert, lemma_links_view_remove,
    lemma_links_view_update, opt_node_view, radix_delete, radix_get, radix_insert,
};
use crate::text::{concat_strings, key_lt, lemma_key_lt_irreflexive, str_chars, str_less};

verus! {

/// Model of a dictionary: the top-level links, keyed by the first character of
/// each key, and the entry counter.
pub struct DictModel {
    pub links: Seq<(char, TrieLink)>,
    pub count: nat,
}

impl DictModel {
    /// The top level seen as a trie node with an empty label.
    pub open spec fn root(self) -> TrieNode {
        TrieNode { prefix: Seq::empty(), value: None, children: self.links }
    }

    /// The value stored under `k` in the loaded part of the dictionary.
    pub open spec fn get(self, k: Seq<char>) -> Option<Seq<char>> {
        node_get(self.root(), k)
    }

    /// The loaded key-value pairs.
    pub open spec fn map(self) -> Map<Seq<char>, Seq<char>> {
        Map::new(|k: Seq<char>| self.get(k) is Some, |k: Seq<char>| self.get(k).unwrap())
    }

    /// Reaching `k` requires a top-level node that is not loaded.
    pub open spec fn blocked(self, k: Seq<char>) -> bool {
        k.len() > 0 && (child_lookup(self.links, k[0]) matches Some(l) && l.node is None)
    }

    /// Every top-level link is loaded.
    pub open spec fn loaded(self) -> bool {
        forall|j: int| 0 <= j < self.links.len() ==> (#[trigger] self.links[j]).1.node is Some
    }

    /// The loaded key-value pairs in depth-first order.
    pub open spec fn entries(self) -> Seq<(Seq<char>, Seq<char>)> {
        links_entries(self.root(), self.links.len() as int)
    }

    /// The loaded keys in depth-first order.
    pub open spec fn keys(self) -> Seq<Seq<char>> {
        self.entries().map_values(|e: (Seq<char>, Seq<char>)| e.0)
    }

    /// The counter equals the number of stored keys.
    pub open spec fn counted(self) -> bool {
        self.map().dom().finite() && self.count == self.map().dom().len()
    }

    /// Sorted top-level links, each lazy or leading to a well-formed trie.
    pub open spec fn wf(self) -> bool {
        &&& sorted_links(self.links)
        &&& forall|j: int|
            0 <= j < self.links.len() ==> (#[trigger] self.links[j]).1.node is None || (link_ok(
                self.links[j].0,
                self.links[j].1,
            ) && trie_wf(child_at(self.root(), j)))
    }
}

/// A persistent key-value store backed by a content-addressed compressed radix trie.
///
/// All mutations return new instances and leave the receiver unchanged.
/// CIDs are computed from deterministically serialized JSON.
#[derive(Debug)]
pub struct MerkleDictionary<V> {
    children: Vec<(char, RadixHeader<V>)>,
    count: usize,
}

impl View for MerkleDictionary<String> {
    type V = DictModel;

    closed spec fn view(&self) -> DictModel {
        DictModel { links: links_view(self.children@), count: self.count as nat }
    }
}

pub open spec fn empty_key_message(m: String) -> bool {
    m@ == "empty key"@
}

fn empty_key_error() -> (e: CashewError)
    ensures
        e matches CashewError::InvalidKey(m) && empty_key_message(m),
{
    CashewError::InvalidKey(String::from_str("empty key"))
}

fn key_message(what: &str, key: &str) -> (m: String)
    ensures
        m@ == what@ + key@,
{
    let mut m = String::from_str(what);
    m.append(key);
    m
}

/// Lookup in a dictionary through a loaded top-level link.
proof fn lemma_dict_get_through(d: DictModel, i: int, k: Seq<char>)
    requires
        d.wf(),
        0 <= i < d.links.len(),
        k.len() > 0,
        k[0] == d.links[i].0,
    ensures
        d.get(k) == link_get(d.links[i].1, k),
        !d.blocked(k) <==> d.links[i].1.node is Some,
{
    lemma_node_get_step(d.root(), k);
    lemma_lookup_at(d.links, i);
    assert(k.take(0) =~= Seq::<char>::empty());
    assert(k.skip(0) =~= k);
}

/// Lookup in a dictionary without a top-level link for the key's first character.
proof fn lemma_dict_get_absent(d: DictModel, k: Seq<char>)
    requires
        k.len() > 0,
        forall|j: int| 0 <= j < d.links.len() ==> d.links[j].0 != k[0],
    ensures
        d.get(k) is None,
        !d.blocked(k),
{
    lemma_node_get_step(d.root(), k);
    lemma_lookup_absent(d.links, k[0]);
    assert(k.take(0) =~= Seq::<char>::empty());
    assert(k.skip(0) =~= k);
}

proof fn lemma_dict_get_empty(d: DictModel)
    ensures
        d.get(Seq::empty()) is None,
        !d.blocked(Seq::empty()),
{
    lemma_node_get_step(d.root(), Seq::empty());
    assert(Seq::<char>::empty().take(0) =~= Seq::<char>::empty());
    assert(Seq::<char>::empty().skip(0) =~= Seq::<char>::empty());
}

impl MerkleDictionary<String> {
    /// The dictionary's internal invariant.
    pub open spec fn wf(&self) -> bool {
        self@.wf()
    }

    /// Creates an empty dictionary.
    pub fn new() -> (d: Self)
        ensures
            d.wf(),
            d@.links.len() == 0,
            d@.count == 0,
            d@.map() == Map::<Seq<char>, Seq<char>>::empty(),
            d@.counted(),
            dict_plain(d@),
    {
        let d = MerkleDictionary { children: Vec::new(), count: 0 };
        proof {
            lemma_links_view(d.children@);
            lemma_trie_plain(d@.root());
            assert forall|k: Seq<char>| d@.get(k) is None by {
                lemma_node_get_step(d@.root(), k);
                if k.len() > 0 {
                    lemma_lookup_absent(d@.links, k[0]);
                }
            }
            assert(d@.map() =~= Map::<Seq<char>, Seq<char>>::empty());
        }
        d
    }

    /// Returns the number of key-value pairs.
    pub fn len(&self) -> (n: usize)
        ensures
            n == self@.count,
    {
        self.count
    }

    pub fn is_empty(&self) -> (b: bool)
        ensures
            b == (self@.count == 0),
    {
        self.count == 0
    }

    /// Returns the value for a key by traversing the radix trie.
    pub fn get(&self, key: &str) -> (r: Result<Option<String>, CashewError>)
        requires
            self.wf(),
        ensures
            self@.blocked(key@) ==> r == Err::<Option<String>, CashewError>(
                CashewError::NodeNotAvailable,
            ),
            !self@.blocked(key@) ==> (r matches Ok(v) && opt_view(v) == self@.get(key@)),
    {
        let kc = str_chars(key);
        if kc.len() == 0 {
            proof {
                assert(key@ =~= Seq::<char>::empty());
                lemma_dict_get_empty(self@);
            }
            return Ok(None);
        }
        proof {
            lemma_links_view(self.children@);
        }
        let first = kc[0];
        match find_link(&self.children, first) {
            None => {
                proof {
                    lemma_dict_get_absent(self@, key@);
                }
                Ok(None)
            },
            Some(i) => {
                proof {
                    lemma_dict_get_through(self@, i as int, key@);
                }
                let node = match self.children[i].1.require_node() {
                    Ok(n) => n,
                    Err(e) => return Err(e),
                };
                proof {
                    assert(child_at(self@.root(), i as int) == node@);
                    assert(link_ok(self@.links[i as int].0, self@.links[i as int].1));
                    assert(kc@.skip(0) =~= kc@);
                }
                radix_get(node, &kc, 0)
            },
        }
    }
}

/// A dictionary whose top-level link `i` was replaced by a loaded link to `node`.
proof fn lemma_dict_update(d: DictModel, d2: DictModel, i: int, node: TrieNode, old: TrieNode)
    requires
        d.wf(),
        0 <= i < d.links.len(),
        d.links[i].1.node == Some(Box::new(old)),
        d2.links == d.links.update(i, (d.links[i].0, TrieLink { cid: crate::merkle::radix_node::node_cid(node), node: Some(Box::new(node)), encryption: None })),
        trie_wf(node),
        node.prefix.len() > 0,
        node.prefix[0] == d.links[i].0,
    ensures
        d2.wf(),
        forall|k: Seq<char>| #[trigger] d2.get(k) == if in_child(d.root(), d.links[i].0, k) {
            node_get(node, k)
        } else {
            d.get(k)
        },
        forall|k: Seq<char>| #[trigger] d2.blocked(k) == d.blocked(k),
        dict_plain(d) && trie_plain(node) ==> dict_plain(d2),
{
    let c = d.links[i].0;
    let l = TrieLink { cid: crate::merkle::radix_node::node_cid(node), node: Some(Box::new(node)), encryption: None };
    assert(d2.root() == TrieNode { children: d.root().children.update(i, (c, l)), ..d.root() });
    if dict_plain(d) && trie_plain(node) {
        lemma_plain_update(d.root(), d2.root(), i, l);
    }
    assert forall|k: Seq<char>| #[trigger] d2.get(k) == if in_child(d.root(), c, k) {
        node_get(node, k)
    } else {
        d.get(k)
    } by {
        lemma_get_update_child(d.root(), i, l, k);
        assert(k.skip(0) =~= k);
    }
    lemma_lookup_update(d.links, i, l, c);
    assert forall|k: Seq<char>| #[trigger] d2.blocked(k) == d.blocked(k) by {
        if k.len() > 0 {
            lemma_lookup_update(d.links, i, l, k[0]);
            if k[0] == c {
                lemma_lookup_at(d.links, i);
            }
        }
    }
    assert forall|j: int| 0 <= j < d2.links.len() implies (#[trigger] d2.links[j]).1.node is None || (link_ok(
        d2.links[j].0,
        d2.links[j].1,
    ) && trie_wf(child_at(d2.root(), j))) by {
        if j != i {
            assert(d2.links[j] == d.links[j]);
            assert(d.links[j].1.node is None || (link_ok(d.links[j].0, d.links[j].1) && trie_wf(child_at(d.root(), j))));
        }
    }
}

/// A dictionary with a new loaded top-level link to `node` under a fresh character.
proof fn lemma_dict_insert(d: DictModel, d2: DictModel, pos: int, c: char, node: TrieNode)
    requires
        d.wf(),
        0 <= pos <= d.links.len(),
        forall|j: int| 0 <= j < pos ==> (d.links[j].0 as int) < (c as int),
        forall|j: int| pos <= j < d.links.len() ==> (c as int) < (d.links[j].0 as int),
        d2.links == d.links.insert(pos, (c, TrieLink { cid: crate::merkle::radix_node::node_cid(node), node: Some(Box::new(node)), encryption: None })),
        trie_wf(node),
        node.prefix.len() > 0,
        node.prefix[0] == c,
    ensures
        d2.wf(),
        forall|k: Seq<char>| #[trigger] d2.get(k) == if in_child(d.root(), c, k) {
            node_get(node, k)
        } else {
            d.get(k)
        },
        forall|k: Seq<char>| #[trigger] d2.blocked(k) == d.blocked(k),
        forall|k: Seq<char>| in_child(d.root(), c, k) ==> #[trigger] d.get(k) is None,
        dict_plain(d) && trie_plain(node) ==> dict_plain(d2),
{
    let l = TrieLink { cid: crate::merkle::radix_node::node_cid(node), node: Some(Box::new(node)), encryption: None };
    let s2 = d.links.insert(pos, (c, l));
    if dict_plain(d) && trie_plain(node) {
        assert(d2.root().children == d.root().children.insert(pos, (c, l)));
        lemma_plain_insert(d.root(), d2.root(), pos, c, l);
    }
    assert(sorted_links(s2)) by {
        assert forall|a: int, b: int| 0 <= a < b < s2.len() implies (s2[a].0 as int) < (s2[b].0 as int) by {
            if a < pos && b < pos {
                assert(s2[a] == d.links[a] && s2[b] == d.links[b]);
            } else if a < pos && b == pos {
                assert(s2[a] == d.links[a]);
            } else if a < pos {
                assert(s2[a] == d.links[a] && s2[b] == d.links[b - 1]);
            } else if a == pos {
                assert(s2[b] == d.links[b - 1]);
            } else {
                assert(s2[a] == d.links[a - 1] && s2[b] == d.links[b - 1]);
            }
        }
    }
    assert forall|j: int| 0 <= j < d.links.len() implies d.links[j].0 != c by {}
    assert(d2.root() == TrieNode { children: d.root().children.insert(pos, (c, l)), ..d.root() });
    assert forall|k: Seq<char>| #[trigger] d2.get(k) == if in_child(d.root(), c, k) {
        node_get(node, k)
    } else {
        d.get(k)
    } by {
        lemma_get_insert_child(d.root(), pos, c, l, k);
        assert(k.skip(0) =~= k);
    }
    assert forall|k: Seq<char>| in_child(d.root(), c, k) implies #[trigger] d.get(k) is None by {
        lemma_dict_get_absent(d, k);
    }
    assert forall|k: Seq<char>| #[trigger] d2.blocked(k) == d.blocked(k) by {
        if k.len() > 0 {
            lemma_lookup_insert(d.links, pos, c, l, k[0]);
            if k[0] == c {
                lemma_lookup_absent(d.links, c);
            }
        }
    }
    assert forall|j: int| 0 <= j < s2.len() implies (#[trigger] d2.links[j]).1.node is None || (link_ok(
        d2.links[j].0,
        d2.links[j].1,
    ) && trie_wf(child_at(d2.root(), j))) by {
        if j < pos {
            assert(d2.links[j] == d.links[j]);
            assert(d.links[j].1.node is None || (link_ok(d.links[j].0, d.links[j].1) && trie_wf(child_at(d.root(), j))));
        } else if j > pos {
            assert(d2.links[j] == d.links[j - 1]);
            assert(d.links[j - 1].1.node is None || (link_ok(d.links[j - 1].0, d.links[j - 1].1) && trie_wf(child_at(d.root(), j - 1))));
        }
    }
}

/// A dictionary whose loaded top-level link `i` was dropped.
proof fn lemma_dict_remove(d: DictModel, d2: DictModel, i: int)
    requires
        d.wf(),
        0 <= i < d.links.len(),
        d.links[i].1.node is Some,
        d2.links == d.links.remove(i),
    ensures
        d2.wf(),
        forall|k: Seq<char>| #[trigger] d2.get(k) == if in_child(d.root(), d.links[i].0, k) {
            None
        } else {
            d.get(k)
        },
        forall|k: Seq<char>| #[trigger] d2.blocked(k) == d.blocked(k),
        dict_plain(d) ==> dict_plain(d2),
{
    let c = d.links[i].0;
    assert(d2.root() == TrieNode { children: d.root().children.remove(i), ..d.root() });
    if dict_plain(d) {
        lemma_plain_remove(d.root(), d2.root(), i);
    }
    assert forall|k: Seq<char>| #[trigger] d2.get(k) == if in_child(d.root(), c, k) {
        None
    } else {
        d.get(k)
    } by {
        lemma_get_remove_child(d.root(), i, k);
    }
    lemma_lookup_remove(d.links, i, c);
    assert forall|k: Seq<char>| #[trigger] d2.blocked(k) == d.blocked(k) by {
        if k.len() > 0 {
            lemma_lookup_remove(d.links, i, k[0]);
            if k[0] == c {
                lemma_lookup_at(d.links, i);
            }
        }
    }
    assert forall|j: int| 0 <= j < d2.links.len() implies (#[trigger] d2.links[j]).1.node is None || (link_ok(
        d2.links[j].0,
        d2.links[j].1,
    ) && trie_wf(child_at(d2.root(), j))) by {
        let j1 = if j < i { j } else { j + 1 };
        assert(d2.links[j] == d.links[j1]);
        assert(d.links[j1].1.node is None || (link_ok(d.links[j1].0, d.links[j1].1) && trie_wf(child_at(d.root(), j1))));
    }
}

impl MerkleDictionary<String> {
    pub(crate) fn with_links(children: Vec<(char, RadixHeader<String>)>, count: usize) -> (d: Self)
        ensures
            d@.links == links_view(children@),
            d@.count == count,
    {
        MerkleDictionary { children, count }
    }

    /// The top-level link keyed by `c`, if any.
    pub fn child(&self, c: char) -> (r: Option<&RadixHeader<String>>)
        requires
            self.wf(),
        ensures
            match child_lookup(self@.links, c) {
                Some(l) => r matches Some(h) && h@ == l,
                None => r is None,
            },
    {
        proof {
            lemma_links_view(self.children@);
        }
        match find_link(&self.children, c) {
            Some(i) => {
                proof {
                    lemma_lookup_at(self@.links, i as int);
                }
                Some(&self.children[i].1)
            },
            None => {
                proof {
                    lemma_lookup_absent(self@.links, c);
                }
                None
            },
        }
    }

    /// The top-level links.
    pub(crate) fn links_ref(&self) -> (r: &Vec<(char, RadixHeader<String>)>)
        ensures
            links_view(r@) == self@.links,
    {
        &self.children
    }

    /// Locates the loaded top-level node that holds `key`, checking the key on the way.
    fn locate(&self, kc: &Vec<char>) -> (r: Result<Option<usize>, CashewError>)
        requires
            self.wf(),
            kc@.len() > 0,
        ensures
            self@.blocked(kc@) ==> r == Err::<Option<usize>, CashewError>(CashewError::NodeNotAvailable),
            !self@.blocked(kc@) ==> (r matches Ok(o) && match o {
                Some(i) => i < self@.links.len() && self@.links[i as int].0 == kc@[0]
                    && self@.links[i as int].1.node is Some,
                None => forall|j: int| 0 <= j < self@.links.len() ==> self@.links[j].0 != kc@[0],
            }),
    {
        proof {
            lemma_links_view(self.children@);
        }
        match find_link(&self.children, kc[0]) {
            None => {
                proof {
                    lemma_dict_get_absent(self@, kc@);
                }
                Ok(None)
            },
            Some(i) => {
                proof {
                    lemma_dict_get_through(self@, i as int, kc@);
                }
                match self.children[i].1.require_node() {
                    Ok(_) => Ok(Some(i)),
                    Err(e) => Err(e),
                }
            },
        }
    }

    /// Returns a new dictionary with the key-value pair inserted, replacing the
    /// value of a key that is present already; fails when the key is empty.
    pub fn inserting(&self, key: &str, value: String) -> (r: Result<Self, CashewError>)
        requires
            self.wf(),
            self@.get(key@) is None ==> self@.count < usize::MAX,
        ensures
            key@.len() == 0 ==> (r matches Err(CashewError::InvalidKey(m)) && empty_key_message(m)),
            self@.blocked(key@) ==> r == Err::<Self, CashewError>(CashewError::NodeNotAvailable),
            key@.len() > 0 && !self@.blocked(key@) ==> (r matches Ok(d) && d.wf() && d@.map()
                == self@.map().insert(key@, value@) && d@.count == (if self@.get(key@) is Some {
                self@.count
            } else {
                self@.count + 1
            }) && forall|k: Seq<char>| #[trigger] d@.blocked(k) == self@.blocked(k)),
            r matches Ok(d) ==> (self@.counted() ==> d@.counted()),
            r matches Ok(d) ==> (dict_plain(self@) ==> dict_plain(d@)),
    {
        let kc = str_chars(key);
        if kc.len() == 0 {
            return Err(empty_key_error());
        }
        let first = kc[0];
        proof {
            assert(key@.take(0) =~= Seq::<char>::empty());
        }
        let loc = match self.locate(&kc) {
            Ok(l) => l,
            Err(e) => return Err(e),
        };
        proof {
            lemma_links_view(self.children@);
        }
        match loc {
            Some(i) => {
                let node = match self.children[i].1.require_node() {
                    Ok(n) => n,
                    Err(e) => return Err(e),
                };
                proof {
                    lemma_dict_get_through(self@, i as int, key@);
                    assert(child_at(self@.root(), i as int) == node@);
                    assert(link_ok(self@.links[i as int].0, self@.links[i as int].1));
                    assert(kc@.skip(0) =~= kc@);
                }
                let existing = match radix_get(node, &kc, 0) {
                    Ok(v) => v,
                    Err(e) => return Err(e),
                };
                let count = if existing.is_some() {
                    self.count
                } else {
                    self.count + 1
                };
                let new_node = match radix_insert(node, &kc, 0, value) {
                    Ok(n) => n,
                    Err(e) => return Err(e),
                };
                let ghost nn = new_node@;
                proof {
                    if dict_plain(self@) {
                        lemma_trie_plain(self@.root());
                        assert(trie_plain(child_at(self@.root(), i as int)));
                    }
                }
                let h = match RadixHeader::from_node(new_node) {
                    Ok(h) => h,
                    Err(e) => return Err(e),
                };
                let mut c = clone_links(&self.children);
                let ghost c0 = c@;
                c.set(i, (first, h));
                proof {
                    lemma_links_view_update(c0, i as int, (first, h));
                }
                let d = Self::with_links(c, count);
                proof {
                    lemma_dict_update(self@, d@, i as int, nn, node@);
                    assert forall|k: Seq<char>| #[trigger] d@.get(k) == if k == key@ {
                        Some(value@)
                    } else {
                        self@.get(k)
                    } by {
                        if in_child(self@.root(), first, k) {
                            lemma_dict_get_through(self@, i as int, k);
                        } else {
                            assert(in_child(self@.root(), first, key@));
                        }
                    }
                    assert(d@.map() =~= self@.map().insert(key@, value@));
                }
                Ok(d)
            },
            None => {
                let leaf = RadixNode::leaf(String::from_str(key), value);
                let ghost lf = leaf@;
                let h = match RadixHeader::from_node(leaf) {
                    Ok(h) => h,
                    Err(e) => return Err(e),
                };
                proof {
                    assert forall|j: int| 0 <= j < self.children@.len() implies self.children@[j].0 != first by {
                        assert(self@.links[j].0 == self.children@[j].0);
                    }
                    assert(sorted_links(links_view(self.children@)));
                    assert(key@[0] == first);
                    lemma_dict_get_absent(self@, key@);
                }
                let pos = insert_pos(&self.children, first);
                let mut c = clone_links(&self.children);
                let ghost c0 = c@;
                c.insert(pos, (first, h));
                proof {
                    lemma_links_view_insert(c0, pos as int, (first, h));
                    lemma_trie_wf(lf);
                }
                let d = Self::with_links(c, self.count + 1);
                proof {
                    lemma_trie_plain(lf);
                    lemma_dict_insert(self@, d@, pos as int, first, lf);
                    assert forall|k: Seq<char>| #[trigger] d@.get(k) == if k == key@ {
                        Some(value@)
                    } else {
                        self@.get(k)
                    } by {
                        lemma_get_leaf(key@, value@, k);
                        if !in_child(self@.root(), first, k) {
                            assert(in_child(self@.root(), first, key@));
                        }
                    }
                    assert(d@.map() =~= self@.map().insert(key@, value@));
                }
                Ok(d)
            },
        }
    }

    /// Returns a new dictionary with the value at an existing key updated; fails
    /// when the key is empty or absent.
    pub fn mutating(&self, key: &str, value: String) -> (r: Result<Self, CashewError>)
        requires
            self.wf(),
        ensures
            key@.len() == 0 ==> (r matches Err(CashewError::InvalidKey(m)) && empty_key_message(m)),
            self@.blocked(key@) ==> r == Err::<Self, CashewError>(CashewError::NodeNotAvailable),
            key@.len() > 0 && !self@.blocked(key@) && self@.get(key@) is None ==> (r matches Err(
                CashewError::InvalidKey(m),
            ) && m@ == "key not found: "@ + key@),
            key@.len() > 0 && !self@.blocked(key@) && self@.get(key@) is Some ==> (r matches Ok(d)
                && d.wf() && d@.map() == self@.map().insert(key@, value@) && d@.count == self@.count
                && forall|k: Seq<char>| #[trigger] d@.blocked(k) == self@.blocked(k)),
            r matches Ok(d) ==> (self@.counted() ==> d@.counted()),
            r matches Ok(d) ==> (dict_plain(self@) ==> dict_plain(d@)),
    {
        let kc = str_chars(key);
        if kc.len() == 0 {
            return Err(empty_key_error());
        }
        let first = kc[0];
        proof {
            assert(key@.take(0) =~= Seq::<char>::empty());
        }
        let loc = match self.locate(&kc) {
            Ok(l) => l,
            Err(e) => return Err(e),
        };
        proof {
            lemma_links_view(self.children@);
        }
        match loc {
            Some(i) => {
                let node = match self.children[i].1.require_node() {
                    Ok(n) => n,
                    Err(e) => return Err(e),
                };
                proof {
                    lemma_dict_get_through(self@, i as int, key@);
                    assert(child_at(self@.root(), i as int) == node@);
                    assert(link_ok(self@.links[i as int].0, self@.links[i as int].1));
                    assert(kc@.skip(0) =~= kc@);
                }
                let existing = match radix_get(node, &kc, 0) {
                    Ok(v) => v,
                    Err(e) => return Err(e),
                };
                if existing.is_none() {
                    return Err(CashewError::InvalidKey(key_message("key not found: ", key)));
                }
                let new_node = match radix_insert(node, &kc, 0, value) {
                    Ok(n) => n,
                    Err(e) => return Err(e),
                };
                let ghost nn = new_node@;
                proof {
                    if dict_plain(self@) {
                        lemma_trie_plain(self@.root());
                        assert(trie_plain(child_at(self@.root(), i as int)));
                    }
                }
                let h = match RadixHeader::from_node(new_node) {
                    Ok(h) => h,
                    Err(e) => return Err(e),
                };
                let mut c = clone_links(&self.children);
                let ghost c0 = c@;
                c.set(i, (first, h));
                proof {
                    lemma_links_view_update(c0, i as int, (first, h));
                }
                let d = Self::with_links(c, self.count);
                proof {
                    lemma_dict_update(self@, d@, i as int, nn, node@);
                    assert forall|k: Seq<char>| #[trigger] d@.get(k) == if k == key@ {
                        Some(value@)
                    } else {
                        self@.get(k)
                    } by {
                        if in_child(self@.root(), first, k) {
                            lemma_dict_get_through(self@, i as int, k);
                        } else {
                            assert(in_child(self@.root(), first, key@));
                        }
                    }
                    assert(d@.map() =~= self@.map().insert(key@, value@));
                }
                Ok(d)
            },
            None => {
                proof {
                    lemma_dict_get_absent(self@, key@);
                }
                Err(CashewError::InvalidKey(key_message("key not found: ", key)))
            },
        }
    }

    /// Returns a new dictionary with the key removed; an absent key leaves it unchanged.
    pub fn deleting(&self, key: &str) -> (r: Result<Self, CashewError>)
        requires
            self.wf(),
        ensures
            key@.len() == 0 ==> (r matches Err(CashewError::InvalidKey(m)) && empty_key_message(m)),
            self@.blocked(key@) ==> r == Err::<Self, CashewError>(CashewError::NodeNotAvailable),
            key@.len() > 0 && !self@.blocked(key@) && self@.get(key@) is None ==> (r matches Ok(d)
                && d.wf() && d@ == self@),
            key@.len() > 0 && !self@.blocked(key@) && self@.get(key@) is Some ==> (r matches Ok(d)
                && d.wf() && d@.map() == self@.map().remove(key@) && d@.count == (if self@.count > 0 {
                self@.count - 1
            } else {
                0
            }) && forall|k: Seq<char>| #[trigger] d@.blocked(k) == self@.blocked(k)),
            r matches Ok(d) ==> (self@.counted() ==> d@.counted()),
            r matches Ok(d) ==> (dict_plain(self@) ==> dict_plain(d@)),
    {
        let kc = str_chars(key);
        if kc.len() == 0 {
            return Err(empty_key_error());
        }
        let first = kc[0];
        proof {
            assert(key@.take(0) =~= Seq::<char>::empty());
        }
        let loc = match self.locate(&kc) {
            Ok(l) => l,
            Err(e) => return Err(e),
        };
        proof {
            lemma_links_view(self.children@);
        }
        match loc {
            Some(i) => {
                let node = match self.children[i].1.require_node() {
                    Ok(n) => n,
                    Err(e) => return Err(e),
                };
                proof {
                    lemma_dict_get_through(self@, i as int, key@);
                    assert(child_at(self@.root(), i as int) == node@);
                    assert(link_ok(self@.links[i as int].0, self@.links[i as int].1));
                    assert(kc@.skip(0) =~= kc@);
                }
                let existing = match radix_get(node, &kc, 0) {
                    Ok(v) => v,
                    Err(e) => return Err(e),
                };
                if existing.is_none() {
                    return Ok(self.clone());
                }
                let sub = match radix_delete(node, &kc, 0) {
                    Ok(s) => s,
                    Err(e) => return Err(e),
                };
                proof {
                    if dict_plain(self@) {
                        lemma_trie_plain(self@.root());
                        assert(trie_plain(child_at(self@.root(), i as int)));
                    }
                }
                let count = self.count.saturating_sub(1);
                match sub {
                    Some(new_node) => {
                        let ghost nn = new_node@;
                        let h = match RadixHeader::from_node(new_node) {
                            Ok(h) => h,
                            Err(e) => return Err(e),
                        };
                        let mut c = clone_links(&self.children);
                        let ghost c0 = c@;
                        c.set(i, (first, h));
                        proof {
                            lemma_links_view_update(c0, i as int, (first, h));
                        }
                        let d = Self::with_links(c, count);
                        proof {
                            lemma_dict_update(self@, d@, i as int, nn, node@);
                            assert forall|k: Seq<char>| #[trigger] d@.get(k) == if k == key@ {
                                None
                            } else {
                                self@.get(k)
                            } by {
                                if in_child(self@.root(), first, k) {
                                    lemma_dict_get_through(self@, i as int, k);
                                } else {
                                    assert(in_child(self@.root(), first, key@));
                                }
                            }
                            assert(d@.map() =~= self@.map().remove(key@));
                        }
                        Ok(d)
                    },
                    None => {
                        let mut c = clone_links(&self.children);
                        let ghost c0 = c@;
                        c.remove(i);
                        proof {
                            lemma_links_view_remove(c0, i as int);
                        }
                        let d = Self::with_links(c, count);
                        proof {
                            lemma_dict_remove(self@, d@, i as int);
                            assert forall|k: Seq<char>| #[trigger] d@.get(k) == if k == key@ {
                                None
                            } else {
                                self@.get(k)
                            } by {
                                if in_child(self@.root(), first, k) {
                                    lemma_dict_get_through(self@, i as int, k);
                                } else {
                                    assert(in_child(self@.root(), first, key@));
                                }
                            }
                            assert(d@.map() =~= self@.map().remove(key@));
                        }
                        Ok(d)
                    },
                }
            },
            None => {
                proof {
                    lemma_dict_get_absent(self@, key@);
                }
                Ok(self.clone())
            },
        }
    }
}

/// Views of a list of key-value string pairs.
pub open spec fn pairs_view(v: Seq<(String, String)>) -> Seq<(Seq<char>, Seq<char>)> {
    v.map_values(|p: (String, String)| (p.0@, p.1@))
}

/// Views of a list of strings.
pub open spec fn strings_view(v: Seq<String>) -> Seq<Seq<char>> {
    v.map_values(|s: String| s@)
}

/// Entries with `p` prepended to every key.
pub open spec fn prefixed(e: Seq<(Seq<char>, Seq<char>)>, p: Seq<char>) -> Seq<(Seq<char>, Seq<char>)> {
    e.map_values(|x: (Seq<char>, Seq<char>)| (p + x.0, x.1))
}

/// The keys of a list of entries.
pub open spec fn keys_of(e: Seq<(Seq<char>, Seq<char>)>) -> Seq<Seq<char>> {
    e.map_values(|x: (Seq<char>, Seq<char>)| x.0)
}

/// Keeps the keys after the cursor (all keys without one).
pub open spec fn after_cursor(k: Seq<char>, after: Option<Seq<char>>) -> bool {
    match after {
        Some(c) => key_lt(c, k),
        None => true,
    }
}

/// At most `limit` elements of `s` from the front.
pub open spec fn truncated<A>(s: Seq<A>, limit: nat) -> Seq<A> {
    if s.len() <= limit {
        s
    } else {
        s.take(limit as int)
    }
}

/// The page of `keys` after the cursor, at most `limit` long.
pub open spec fn page_keys(keys: Seq<Seq<char>>, limit: nat, after: Option<Seq<char>>) -> Seq<Seq<char>> {
    truncated(keys.filter(|k: Seq<char>| after_cursor(k, after)), limit)
}

/// The page of `pairs` whose keys come after the cursor, at most `limit` long.
pub open spec fn page_pairs(
    pairs: Seq<(Seq<char>, Seq<char>)>,
    limit: nat,
    after: Option<Seq<char>>,
) -> Seq<(Seq<char>, Seq<char>)> {
    truncated(pairs.filter(|p: (Seq<char>, Seq<char>)| after_cursor(p.0, after)), limit)
}

pub open spec fn opt_str_view(a: Option<&str>) -> Option<Seq<char>> {
    match a {
        Some(s) => Some(s@),
        None => None,
    }
}

fn passes_cursor(k: &String, after: Option<&str>) -> (b: bool)
    ensures
        b == after_cursor(k@, opt_str_view(after)),
{
    match after {
        Some(c) => str_less(c, k.as_str()),
        None => true,
    }
}

/// Appends the keys stored below `node`, each prefixed with `prefix`, depth first.
fn collect_keys(node: &RadixNode<String>, prefix: &String, keys: &mut Vec<String>)
    ensures
        strings_view(final(keys)@) == strings_view(old(keys)@) + keys_of(prefixed(node_entries(node@), prefix@)),
    decreases node,
{
    proof {
        crate::merkle::radix_node::lemma_node_view(*node);
    }
    let ghost n = node@;
    let ghost start = strings_view(keys@);
    let full = concat_strings(prefix, &node.prefix);
    let ghost own: Seq<(Seq<char>, Seq<char>)> = match n.value {
        Some(v) => seq![(n.prefix, v)],
        None => Seq::empty(),
    };
    if node.value.is_some() {
        keys.push(full.clone());
    }
    proof {
        assert(strings_view(keys@) =~= start + keys_of(prefixed(own, prefix@)));
    }
    let mut i: usize = 0;
    while i < node.children.len()
        invariant
            i <= node.children@.len(),
            n == node@,
            n.children.len() == node.children@.len(),
            forall|j: int| 0 <= j < node.children@.len() ==> #[trigger] n.children[j] == (node.children@[j].0, node.children@[j].1@),
            full@ == prefix@ + n.prefix,
            strings_view(keys@) == start + keys_of(prefixed(own, prefix@)) + keys_of(prefixed(links_entries(n, i as int), full@)),
        decreases node.children.len() - i,
    {
        let ghost before = strings_view(keys@);
        match &node.children[i].1.node {
            Some(child) => {
                proof {
                    assert(decreases_to!(node.children => node.children@));
                    assert(decreases_to!(node.children@ => node.children@[i as int]));
                }
                collect_keys(&**child, &full, keys);
                proof {
                    assert(n.children[i as int].1.node == Some(Box::new(child@)));
                }
            },
            None => {},
        }
        proof {
            assert(links_entries(n, i + 1) == links_entries(n, i as int) + match n.children[i as int].1.node {
                Some(c) => node_entries(*c),
                None => Seq::empty(),
            });
            assert(keys_of(prefixed(links_entries(n, i + 1), full@)) =~= keys_of(prefixed(links_entries(n, i as int), full@))
                + keys_of(prefixed(match n.children[i as int].1.node {
                Some(c) => node_entries(*c),
                None => Seq::empty(),
            }, full@)));
            assert(strings_view(keys@) =~= start + keys_of(prefixed(own, prefix@)) + keys_of(prefixed(links_entries(n, i + 1), full@)));
        }
        i += 1;
    }
    proof {
        let l = links_entries(n, n.children.len() as int);
        assert(node_entries(n) == own + prefixed(l, n.prefix));
        assert(keys_of(prefixed(node_entries(n), prefix@)) =~= keys_of(prefixed(own, prefix@)) + keys_of(prefixed(l, full@))) by {
            assert forall|t: int| 0 <= t < l.len() implies prefix@ + (n.prefix + l[t].0) == full@ + l[t].0 by {
                assert(prefix@ + (n.prefix + l[t].0) =~= (prefix@ + n.prefix) + l[t].0);
            }
        }
    }
}

/// Appends the pairs stored below `node`, keys prefixed with `prefix`, depth first.
fn collect_pairs(node: &RadixNode<String>, prefix: &String, pairs: &mut Vec<(String, String)>)
    ensures
        pairs_view(final(pairs)@) == pairs_view(old(pairs)@) + prefixed(node_entries(node@), prefix@),
    decreases node,
{
    proof {
        crate::merkle::radix_node::lemma_node_view(*node);
    }
    let ghost n = node@;
    let ghost start = pairs_view(pairs@);
    let full = concat_strings(prefix, &node.prefix);
    let ghost own: Seq<(Seq<char>, Seq<char>)> = match n.value {
        Some(v) => seq![(n.prefix, v)],
        None => Seq::empty(),
    };
    match &node.value {
        Some(v) => {
            pairs.push((full.clone(), v.clone()));
        },
        None => {},
    }
    proof {
        assert(pairs_view(pairs@) =~= start + prefixed(own, prefix@));
    }
    let mut i: usize = 0;
    while i < node.children.len()
        invariant
            i <= node.children@.len(),
            n == node@,
            n.children.len() == node.children@.len(),
            forall|j: int| 0 <= j < node.children@.len() ==> #[trigger] n.children[j] == (node.children@[j].0, node.children@[j].1@),
            full@ == prefix@ + n.prefix,
            pairs_view(pairs@) == start + prefixed(own, prefix@) + prefixed(links_entries(n, i as int), full@),
        decreases node.children.len() - i,
    {
        match &node.children[i].1.node {
            Some(child) => {
                proof {
                    assert(decreases_to!(node.children => node.children@));
                    assert(decreases_to!(node.children@ => node.children@[i as int]));
                }
                collect_pairs(&**child, &full, pairs);
                proof {
                    assert(n.children[i as int].1.node == Some(Box::new(child@)));
                }
            },
            None => {},
        }
        proof {
            assert(links_entries(n, i + 1) == links_entries(n, i as int) + match n.children[i as int].1.node {
                Some(c) => node_entries(*c),
                None => Seq::empty(),
            });
            assert(prefixed(links_entries(n, i + 1), full@) =~= prefixed(links_entries(n, i as int), full@)
                + prefixed(match n.children[i as int].1.node {
                Some(c) => node_entries(*c),
                None => Seq::empty(),
            }, full@));
            assert(pairs_view(pairs@) =~= start + prefixed(own, prefix@) + prefixed(links_entries(n, i + 1), full@));
        }
        i += 1;
    }
    proof {
        let l = links_entries(n, n.children.len() as int);
        assert(node_entries(n) == own + prefixed(l, n.prefix));
        assert(prefixed(node_entries(n), prefix@) =~= prefixed(own, prefix@) + prefixed(l, full@)) by {
            assert forall|t: int| 0 <= t < l.len() implies prefix@ + (n.prefix + l[t].0) == full@ + l[t].0 by {
                assert(prefix@ + (n.prefix + l[t].0) =~= (prefix@ + n.prefix) + l[t].0);
            }
        }
    }
}

/// The entries of a well-formed, fully loaded dictionary list every stored key
/// exactly once, with its value, in strictly increasing key order.
pub proof fn lemma_dict_entries(d: DictModel)
    requires
        d.wf(),
        d.loaded(),
    ensures
        forall|t: int| 0 <= t < d.entries().len() ==> #[trigger] d.map().contains_key(d.entries()[t].0)
            && d.map()[d.entries()[t].0] == d.entries()[t].1,
        forall|k: Seq<char>| #[trigger] d.map().contains_key(k) ==> exists|t: int|
            0 <= t < d.entries().len() && d.entries()[t].0 == k,
        forall|s: int, t: int|
            0 <= s < t < d.entries().len() ==> key_lt(#[trigger] d.entries()[s].0, #[trigger] d.entries()[t].0),
{
    let r = d.root();
    assert forall|j: int| 0 <= j < r.children.len() implies #[trigger] link_ok(r.children[j].0, r.children[j].1)
        && trie_wf(child_at(r, j)) by {
        assert(d.links[j].1.node is Some);
    }
    lemma_links_wf(r, r.children.len() as int);
    lemma_node_entries(r);
    let l = links_entries(r, r.children.len() as int);
    assert(node_entries(r) =~= l) by {
        assert(node_entries(r) == Seq::<(Seq<char>, Seq<char>)>::empty() + prefixed(l, Seq::empty()));
        assert forall|t: int| 0 <= t < l.len() implies Seq::<char>::empty() + l[t].0 == l[t].0 by {
            assert(Seq::<char>::empty() + l[t].0 =~= l[t].0);
        }
    }
    assert(entries_exact(r, d.entries()));
}

impl MerkleDictionary<String> {
    /// Whether every top-level node is loaded.
    fn all_loaded(&self) -> (b: bool)
        ensures
            b == self@.loaded(),
    {
        proof {
            lemma_links_view(self.children@);
        }
        let mut i: usize = 0;
        while i < self.children.len()
            invariant
                i <= self.children@.len(),
                self@.links.len() == self.children@.len(),
                forall|j: int| 0 <= j < self.children@.len() ==> #[trigger] self@.links[j] == (self.children@[j].0, self.children@[j].1@),
                forall|j: int| 0 <= j < i ==> (#[trigger] self@.links[j]).1.node is Some,
            decreases self.children.len() - i,
        {
            if self.children[i].1.node.is_none() {
                assert(self@.links[i as int].1.node is None);
                return false;
            }
            i += 1;
        }
        true
    }

    /// Returns all keys in the dictionary, depth first, which is increasing key order.
    #[verifier::spinoff_prover]
    #[verifier::rlimit(40)]
    pub fn all_keys(&self) -> (r: Result<Vec<String>, CashewError>)
        requires
            self.wf(),
        ensures
            !self@.loaded() ==> r == Err::<Vec<String>, CashewError>(CashewError::NodeNotAvailable),
            self@.loaded() ==> (r matches Ok(keys) && strings_view(keys@) == self@.keys()),
            self@.loaded() ==> (r matches Ok(keys) && (forall|i: int|
                0 <= i < keys@.len() ==> #[trigger] self@.map().contains_key(keys@[i]@))
                && (forall|k: Seq<char>| #[trigger] self@.map().contains_key(k) ==> exists|i: int|
                0 <= i < keys@.len() && keys@[i]@ == k) && (forall|i: int, j: int|
                0 <= i < j < keys@.len() ==> key_lt(#[trigger] keys@[i]@, #[trigger] keys@[j]@))),
    {
        if !self.all_loaded() {
            proof {
                lemma_links_view(self.children@);
            }
            let mut i: usize = 0;
            while i < self.children.len()
                invariant
                    i <= self.children@.len(),
                    !self@.loaded(),
                    forall|j: int| 0 <= j < i ==> (#[trigger] self@.links[j]).1.node is Some,
                    self@.links.len() == self.children@.len(),
                    forall|j: int| 0 <= j < self.children@.len() ==> #[trigger] self@.links[j] == (self.children@[j].0, self.children@[j].1@),
                decreases self.children.len() - i,
            {
                match self.children[i].1.require_node() {
                    Ok(_) => {},
                    Err(e) => return Err(e),
                }
                i += 1;
            }
            return Err(CashewError::NodeNotAvailable);
        }
        let mut keys: Vec<String> = Vec::new();
        let empty = String::new();
        let ghost r = self@.root();
        proof {
            lemma_links_view(self.children@);
        }
        let mut i: usize = 0;
        while i < self.children.len()
            invariant
                i <= self.children@.len(),
                self@.loaded(),
                r == self@.root(),
                empty@ == Seq::<char>::empty(),
                self@.links.len() == self.children@.len(),
                forall|j: int| 0 <= j < self.children@.len() ==> #[trigger] self@.links[j] == (self.children@[j].0, self.children@[j].1@),
                strings_view(keys@) == keys_of(links_entries(r, i as int)),
            decreases self.children.len() - i,
        {
            let node = match self.children[i].1.require_node() {
                Ok(n) => n,
                Err(e) => return Err(e),
            };
            let ghost before = strings_view(keys@);
            collect_keys(node, &empty, &mut keys);
            proof {
                assert(self@.links[i as int].1.node is Some);
                assert(r.children[i as int].1.node == Some(Box::new(node@)));
                assert(links_entries(r, i + 1) == links_entries(r, i as int) + node_entries(node@));
                assert(prefixed(node_entries(node@), Seq::empty()) =~= node_entries(node@)) by {
                    let e = node_entries(node@);
                    assert forall|t: int| 0 <= t < e.len() implies Seq::<char>::empty() + e[t].0 == e[t].0 by {
                        assert(Seq::<char>::empty() + e[t].0 =~= e[t].0);
                    }
                }
                assert(strings_view(keys@) =~= keys_of(links_entries(r, i + 1)));
            }
            i += 1;
        }
        proof {
            lemma_dict_entries(self@);
            assert(strings_view(keys@) == self@.keys());
            assert forall|t: int| 0 <= t < keys@.len() implies keys@[t]@ == self@.entries()[t].0 by {
                assert(strings_view(keys@)[t] == keys@[t]@);
            }
            assert forall|k: Seq<char>| #[trigger] self@.map().contains_key(k) implies exists|t: int|
                0 <= t < keys@.len() && keys@[t]@ == k by {
                let t = choose|t: int| 0 <= t < self@.entries().len() && self@.entries()[t].0 == k;
                assert(keys@[t]@ == k);
            }
            assert forall|t: int| 0 <= t < keys@.len() implies #[trigger] self@.map().contains_key(keys@[t]@) by {
                assert(self@.map().contains_key(self@.entries()[t].0));
            }
            assert forall|a: int, b: int| 0 <= a < b < keys@.len() implies key_lt(#[trigger] keys@[a]@, #[trigger] keys@[b]@) by {
                assert(key_lt(self@.entries()[a].0, self@.entries()[b].0));
            }
        }
        Ok(keys)
    }
}

fn page_of_keys(keys: Vec<String>, limit: usize, after: Option<&str>) -> (r: Vec<String>)
    ensures
        strings_view(r@) == page_keys(strings_view(keys@), limit as nat, opt_str_view(after)),
{
    let ghost all = strings_view(keys@);
    let ghost p = |k: Seq<char>| after_cursor(k, opt_str_view(after));
    let mut out: Vec<String> = Vec::new();
    let mut i: usize = 0;
    while i < keys.len()
        invariant
            i <= keys@.len(),
            all == strings_view(keys@),
            p == (|k: Seq<char>| after_cursor(k, opt_str_view(after))),
            strings_view(out@) == truncated(all.take(i as int).filter(p), limit as nat),
        decreases keys.len() - i,
    {
        proof {
            reveal_with_fuel(Seq::<_>::filter, 1);
            assert(all.take(i + 1).drop_last() =~= all.take(i as int));
            assert(all.take(i + 1).last() == keys@[i as int]@);
        }
        let keep = passes_cursor(&keys[i], after);
        assert(strings_view(out@).len() == out@.len());
        if keep && out.len() < limit {
            out.push(keys[i].clone());
            proof {
                let f = all.take(i as int).filter(p);
                assert(strings_view(out@) =~= truncated(f.push(keys@[i as int]@), limit as nat));
            }
        } else {
            proof {
                let f = all.take(i as int).filter(p);
                if keep {
                    assert(truncated(f.push(keys@[i as int]@), limit as nat) =~= truncated(f, limit as nat));
                }
            }
        }
        i += 1;
    }
    proof {
        assert(all.take(keys@.len() as int) =~= all);
    }
    out
}

fn page_of_pairs(pairs: Vec<(String, String)>, limit: usize, after: Option<&str>) -> (r: Vec<(String, String)>)
    ensures
        pairs_view(r@) == page_pairs(pairs_view(pairs@), limit as nat, opt_str_view(after)),
{
    let ghost all = pairs_view(pairs@);
    let ghost p = |e: (Seq<char>, Seq<char>)| after_cursor(e.0, opt_str_view(after));
    let mut out: Vec<(String, String)> = Vec::new();
    let mut i: usize = 0;
    while i < pairs.len()
        invariant
            i <= pairs@.len(),
            all == pairs_view(pairs@),
            p == (|e: (Seq<char>, Seq<char>)| after_cursor(e.0, opt_str_view(after))),
            pairs_view(out@) == truncated(all.take(i as int).filter(p), limit as nat),
        decreases pairs.len() - i,
    {
        proof {
            reveal_with_fuel(Seq::<_>::filter, 1);
            assert(all.take(i + 1).drop_last() =~= all.take(i as int));
            assert(all.take(i + 1).last() == (pairs@[i as int].0@, pairs@[i as int].1@));
        }
        let keep = passes_cursor(&pairs[i].0, after);
        assert(pairs_view(out@).len() == out@.len());
        if keep && out.len() < limit {
            out.push((pairs[i].0.clone(), pairs[i].1.clone()));
            proof {
                let f = all.take(i as int).filter(p);
                assert(pairs_view(out@) =~= truncated(f.push((pairs@[i as int].0@, pairs@[i as int].1@)), limit as nat));
            }
        } else {
            proof {
                let f = all.take(i as int).filter(p);
                if keep {
                    assert(truncated(f.push((pairs@[i as int].0@, pairs@[i as int].1@)), limit as nat) =~= truncated(f, limit as nat));
                }
            }
        }
        i += 1;
    }
    proof {
        assert(all.take(pairs@.len() as int) =~= all);
    }
    out
}

impl MerkleDictionary<String> {
    /// Returns all keys sorted, with optional pagination: the keys after `after`,
    /// at most `limit` of them.
    pub fn sorted_keys(&self, limit: usize, after: Option<&str>) -> (r: Result<Vec<String>, CashewError>)
        requires
            self.wf(),
        ensures
            !self@.loaded() ==> r == Err::<Vec<String>, CashewError>(CashewError::NodeNotAvailable),
            self@.loaded() ==> (r matches Ok(keys) && strings_view(keys@) == page_keys(
                self@.keys(),
                limit as nat,
                opt_str_view(after),
            )),
    {
        // `all_keys` lists the keys in increasing order already, so no sorting is needed.
        let keys = match self.all_keys() {
            Ok(k) => k,
            Err(e) => return Err(e),
        };
        Ok(page_of_keys(keys, limit, after))
    }

    /// Returns all key-value pairs, depth first, which is increasing key order.
    pub fn all_keys_and_values(&self) -> (r: Result<Vec<(String, String)>, CashewError>)
        requires
            self.wf(),
        ensures
            !self@.loaded() ==> r == Err::<Vec<(String, String)>, CashewError>(CashewError::NodeNotAvailable),
            self@.loaded() ==> (r matches Ok(pairs) && pairs_view(pairs@) == self@.entries()),
    {
        if !self.all_loaded() {
            proof {
                lemma_links_view(self.children@);
            }
            let mut i: usize = 0;
            while i < self.children.len()
                invariant
                    i <= self.children@.len(),
                    !self@.loaded(),
                    forall|j: int| 0 <= j < i ==> (#[trigger] self@.links[j]).1.node is Some,
                    self@.links.len() == self.children@.len(),
                    forall|j: int| 0 <= j < self.children@.len() ==> #[trigger] self@.links[j] == (self.children@[j].0, self.children@[j].1@),
                decreases self.children.len() - i,
            {
                match self.children[i].1.require_node() {
                    Ok(_) => {},
                    Err(e) => return Err(e),
                }
                i += 1;
            }
            return Err(CashewError::NodeNotAvailable);
        }
        let mut pairs: Vec<(String, String)> = Vec::new();
        let empty = String::new();
        let ghost r = self@.root();
        proof {
            lemma_links_view(self.children@);
        }
        let mut i: usize = 0;
        while i < self.children.len()
            invariant
                i <= self.children@.len(),
                self@.loaded(),
                r == self@.root(),
                empty@ == Seq::<char>::empty(),
                self@.links.len() == self.children@.len(),
                forall|j: int| 0 <= j < self.children@.len() ==> #[trigger] self@.links[j] == (self.children@[j].0, self.children@[j].1@),
                pairs_view(pairs@) == links_entries(r, i as int),
            decreases self.children.len() - i,
        {
            let node = match self.children[i].1.require_node() {
                Ok(n) => n,
                Err(e) => return Err(e),
            };
            collect_pairs(node, &empty, &mut pairs);
            proof {
                assert(self@.links[i as int].1.node is Some);
                assert(r.children[i as int].1.node == Some(Box::new(node@)));
                assert(links_entries(r, i + 1) == links_entries(r, i as int) + node_entries(node@));
                assert(prefixed(node_entries(node@), Seq::empty()) =~= node_entries(node@)) by {
                    let e = node_entries(node@);
                    assert forall|t: int| 0 <= t < e.len() implies Seq::<char>::empty() + e[t].0 == e[t].0 by {
                        assert(Seq::<char>::empty() + e[t].0 =~= e[t].0);
                    }
                }
                assert(pairs_view(pairs@) =~= links_entries(r, i + 1));
            }
            i += 1;
        }
        Ok(pairs)
    }

    /// Returns sorted key-value pairs with optional pagination: the pairs whose keys
    /// come after `after`, at most `limit` of them.
    pub fn sorted_keys_and_values(&self, limit: usize, after: Option<&str>) -> (r: Result<Vec<(String, String)>, CashewError>)
        requires
            self.wf(),
        ensures
            !self@.loaded() ==> r == Err::<Vec<(String, String)>, CashewError>(CashewError::NodeNotAvailable),
            self@.loaded() ==> (r matches Ok(pairs) && pairs_view(pairs@) == page_pairs(
                self@.entries(),
                limit as nat,
                opt_str_view(after),
            )),
    {
        // `all_keys_and_values` lists the pairs in increasing key order already.
        let pairs = match self.all_keys_and_values() {
            Ok(p) => p,
            Err(e) => return Err(e),
        };
        Ok(page_of_pairs(pairs, limit, after))
    }
}

impl Clone for MerkleDictionary<String> {
    fn clone(&self) -> (r: Self)
        ensures
            r@ == self@,
    {
        MerkleDictionary { children: clone_links(&self.children), count: self.count }
    }
}

} // verus!

verus! {

/// A well-formed dictionary is fully loaded exactly when no key is blocked by a
/// top-level node that is not loaded.
pub proof fn lemma_loaded_iff(d: DictModel)
    requires
        d.wf(),
    ensures
        d.loaded() <==> forall|k: Seq<char>| !#[trigger] d.blocked(k),
{
    if d.loaded() {
        assert forall|k: Seq<char>| !#[trigger] d.blocked(k) by {
            if k.len() > 0 {
                lemma_lookup(d.links, k[0]);
            }
        }
    } else {
        let j = choose|j: int| 0 <= j < d.links.len() && !(d.links[j].1.node is Some);
        lemma_lookup_at(d.links, j);
        let k = seq![d.links[j].0];
        assert(d.blocked(k));
    }
}

/// No stored key is empty.
pub proof fn lemma_dict_key_nonempty(d: DictModel, k: Seq<char>)
    requires
        d.map().contains_key(k),
    ensures
        k.len() > 0,
{
    if k.len() == 0 {
        assert(k =~= Seq::<char>::empty());
        lemma_dict_get_empty(d);
    }
}

/// A well-formed, fully loaded dictionary stores finitely many keys, as many as
/// its key listing has entries.
pub proof fn lemma_dict_size(d: DictModel)
    requires
        d.wf(),
        d.loaded(),
    ensures
        d.map().dom().finite(),
        d.map().dom().len() == d.keys().len(),
{
    lemma_dict_entries(d);
    let ks = d.keys();
    assert forall|a: int, b: int| 0 <= a < ks.len() && 0 <= b < ks.len() && a != b implies ks[a] != ks[b] by {
        if a < b {
            assert(key_lt(d.entries()[a].0, d.entries()[b].0));
            if ks[a] == ks[b] {
                lemma_key_lt_irreflexive(ks[a]);
            }
        } else {
            assert(key_lt(d.entries()[b].0, d.entries()[a].0));
            if ks[a] == ks[b] {
                lemma_key_lt_irreflexive(ks[a]);
            }
        }
    }
    assert(ks.no_duplicates());
    ks.unique_seq_to_set();
    assert(ks.to_set() =~= d.map().dom()) by {
        assert forall|k: Seq<char>| ks.to_set().contains(k) implies d.map().dom().contains(k) by {
            let t = choose|t: int| 0 <= t < ks.len() && ks[t] == k;
            assert(d.map().contains_key(d.entries()[t].0));
        }
        assert forall|k: Seq<char>| d.map().dom().contains(k) implies ks.to_set().contains(k) by {
            assert(d.map().contains_key(k));
            let t = choose|t: int| 0 <= t < d.entries().len() && d.entries()[t].0 == k;
            assert(ks[t] == k);
        }
    }
    vstd::seq_lib::seq_to_set_is_finite(ks);
}

} // verus!

verus! {

/// JSON text of a dictionary: its sorted top-level links and its counter.
pub open spec fn dict_json(d: DictModel) -> Seq<char> {
    "{\"children\":["@ + entries_json(d.links) + "],\"count\":"@ + decimal(d.count) + "}"@
}

/// The serialized bytes of a dictionary.
pub open spec fn dict_bytes(d: DictModel) -> Seq<u8> {
    encode_utf8(dict_json(d))
}

/// Where applying one transform to a dictionary with entries `m` and counter `c`
/// leads; `blocked` tells the keys under top-level nodes that are not loaded.
pub enum TransformOutcome {
    Done(Map<Seq<char>, Seq<char>>, nat),
    Failed(ErrorView),
}

/// The outcome of one transform, as `inserting`, `mutating` and `deleting` state it.
pub open spec fn transform_step(
    d: DictModel,
    m: Map<Seq<char>, Seq<char>>,
    c: nat,
    k: Seq<char>,
    t: TransformView,
) -> TransformOutcome {
    if k.len() == 0 {
        TransformOutcome::Failed(ErrorView::InvalidKey("empty key"@))
    } else if d.blocked(k) {
        TransformOutcome::Failed(ErrorView::NodeNotAvailable)
    } else {
        match t {
            TransformView::Insert(v) => if m.contains_key(k) {
                TransformOutcome::Failed(ErrorView::InvalidKey("key already exists: "@ + k))
            } else {
                TransformOutcome::Done(m.insert(k, v), c + 1)
            },
            TransformView::Update(v) => if m.contains_key(k) {
                TransformOutcome::Done(m.insert(k, v), c)
            } else {
                TransformOutcome::Failed(ErrorView::InvalidKey("key not found: "@ + k))
            },
            TransformView::Delete => if m.contains_key(k) {
                TransformOutcome::Done(m.remove(k), if c > 0 { (c - 1) as nat } else { 0 })
            } else {
                TransformOutcome::Done(m, c)
            },
        }
    }
}

/// The outcome of applying the first `n` of the keyed transforms `ts` in order.
pub open spec fn transforms_outcome(d: DictModel, ts: Seq<(Seq<char>, TransformView)>, n: nat) -> TransformOutcome
    decreases n,
{
    if n == 0 {
        TransformOutcome::Done(d.map(), d.count)
    } else {
        match transforms_outcome(d, ts, (n - 1) as nat) {
            TransformOutcome::Done(m, c) => transform_step(d, m, c, ts[n - 1].0, ts[n - 1].1),
            f => f,
        }
    }
}

proof fn lemma_transforms_sticky(d: DictModel, ts: Seq<(Seq<char>, TransformView)>, i: nat, n: nat)
    requires
        i <= n,
        transforms_outcome(d, ts, i) is Failed,
    ensures
        transforms_outcome(d, ts, n) == transforms_outcome(d, ts, i),
    decreases n,
{
    if i < n {
        lemma_transforms_sticky(d, ts, i, (n - 1) as nat);
    }
}

/// The number of inserts among the first `n` transforms.
pub open spec fn insert_count(ts: Seq<(Seq<char>, TransformView)>, n: nat) -> nat
    decreases n,
{
    if n == 0 {
        0
    } else {
        insert_count(ts, (n - 1) as nat) + if ts[n - 1].1 is Insert {
            1nat
        } else {
            0nat
        }
    }
}

proof fn lemma_insert_count_grows(ts: Seq<(Seq<char>, TransformView)>, i: nat, n: nat)
    requires
        i <= n,
    ensures
        insert_count(ts, i) <= insert_count(ts, n),
    decreases n,
{
    if i < n {
        lemma_insert_count_grows(ts, i, (n - 1) as nat);
    }
}

proof fn lemma_transforms_count(d: DictModel, ts: Seq<(Seq<char>, TransformView)>, n: nat)
    ensures
        transforms_outcome(d, ts, n) matches TransformOutcome::Done(m, c) ==> c <= d.count + insert_count(ts, n),
    decreases n,
{
    if n > 0 {
        lemma_transforms_count(d, ts, (n - 1) as nat);
    }
}

/// An insert transform adds an absent key with its value and one to the counter,
/// and fails on a present key; an update transform replaces the value of a
/// present key and keeps the counter, and fails on an absent key. Both fail on an
/// empty key and on a key that cannot be reached.
pub proof fn lemma_transform_insert_update(d: DictModel, k: Seq<char>, v: Seq<char>)
    ensures
        k.len() == 0 ==> transform_step(d, d.map(), d.count, k, TransformView::Insert(v)) is Failed
            && transform_step(d, d.map(), d.count, k, TransformView::Update(v)) is Failed,
        k.len() > 0 && d.blocked(k) ==> transform_step(d, d.map(), d.count, k, TransformView::Insert(v))
            == TransformOutcome::Failed(ErrorView::NodeNotAvailable) && transform_step(
            d,
            d.map(),
            d.count,
            k,
            TransformView::Update(v),
        ) == TransformOutcome::Failed(ErrorView::NodeNotAvailable),
        k.len() > 0 && !d.blocked(k) && d.get(k) is None ==> transform_step(
            d,
            d.map(),
            d.count,
            k,
            TransformView::Insert(v),
        ) == TransformOutcome::Done(d.map().insert(k, v), d.count + 1) && transform_step(
            d,
            d.map(),
            d.count,
            k,
            TransformView::Update(v),
        ) is Failed,
        k.len() > 0 && !d.blocked(k) && d.get(k) is Some ==> transform_step(
            d,
            d.map(),
            d.count,
            k,
            TransformView::Update(v),
        ) == TransformOutcome::Done(d.map().insert(k, v), d.count) && transform_step(
            d,
            d.map(),
            d.count,
            k,
            TransformView::Insert(v),
        ) is Failed,
{
    assert(d.map().contains_key(k) == (d.get(k) is Some));
}

/// A delete transform does what `deleting` does: on a key that can be reached it
/// succeeds, removes the key, and lowers the counter by one exactly when the key
/// was stored; deleting an absent key leaves the dictionary as it is.
pub proof fn lemma_transform_delete(d: DictModel, k: Seq<char>)
    requires
        k.len() > 0,
        !d.blocked(k),
    ensures
        transform_step(d, d.map(), d.count, k, TransformView::Delete) == TransformOutcome::Done(
            d.map().remove(k),
            if d.get(k) is Some && d.count > 0 {
                (d.count - 1) as nat
            } else if d.get(k) is Some {
                0
            } else {
                d.count
            },
        ),
        d.get(k) is None ==> d.map().remove(k) == d.map(),
{
    assert(d.map().contains_key(k) == (d.get(k) is Some));
    if d.get(k) is None {
        assert(d.map().remove(k) =~= d.map());
    }
}

/// Views of keyed transforms.
pub open spec fn keyed_view(v: Seq<(String, Transform)>) -> Seq<(Seq<char>, TransformView)> {
    v.map_values(|p: (String, Transform)| (p.0@, p.1@))
}

impl MerkleDictionary<String> {
    /// Serializes to deterministic JSON: `{"children":[...],"count":N}`, each child
    /// written as its key and its link (CID and encryption metadata only).
    pub fn to_data(&self) -> (r: Result<Vec<u8>, CashewError>)
        ensures
            r matches Ok(b) && b@ == dict_bytes(self@),
    {
        let mut s = String::new();
        s.append("{\"children\":[");
        s.append(entries_json_text(&self.children).as_str());
        s.append("],\"count\":");
        s.append(json_usize(self.count).as_str());
        s.append("}");
        Ok(s.as_str().as_bytes_vec())
    }

    /// Applies a transform by key name and transform operation; an insert fails
    /// on a key that is present already, an update on a key that is absent.
    pub fn apply_transform(&self, key: &str, transform: &Transform) -> (r: Result<Self, CashewError>)
        requires
            self.wf(),
            transform@ is Insert && self@.get(key@) is None ==> self@.count < usize::MAX,
        ensures
            match transform_step(self@, self@.map(), self@.count, key@, transform@) {
                TransformOutcome::Done(m, c) => r matches Ok(d) && d.wf() && d@.map() == m && d@.count == c
                    && forall|k: Seq<char>| #[trigger] d@.blocked(k) == self@.blocked(k),
                TransformOutcome::Failed(e) => r matches Err(x) && x@ == e,
            },
            transform@ is Delete && key@.len() > 0 && !self@.blocked(key@) ==> (r matches Ok(d) && d.wf()
                && d@.map() == self@.map().remove(key@) && d@.count == (if self@.get(key@) is Some && self@.count > 0 {
                (self@.count - 1) as nat
            } else if self@.get(key@) is Some {
                0nat
            } else {
                self@.count
            })),
    {
        proof {
            reveal_strlit("empty key");
            if transform@ is Delete && key@.len() > 0 && !self@.blocked(key@) {
                lemma_transform_delete(self@, key@);
            }
        }
        let r = match transform {
            Transform::Insert(v) => {
                match self.get(key) {
                    Ok(Some(_)) => {
                        return Err(CashewError::InvalidKey(key_message("key already exists: ", key)));
                    },
                    Ok(None) => {},
                    Err(e) => return Err(e),
                }
                self.inserting(key, v.clone())
            },
            Transform::Update(v) => self.mutating(key, v.clone()),
            Transform::Delete => self.deleting(key),
        };
        proof {
            if key@.len() > 0 && !self@.blocked(key@) {
                assert(self@.map().contains_key(key@) == (self@.get(key@) is Some));
            }
        }
        r
    }

    /// Applies keyed transforms in order, stopping at the first that fails.
    pub fn apply_transforms(&self, transforms: &Vec<(String, Transform)>) -> (r: Result<Self, CashewError>)
        requires
            self.wf(),
            self@.count + insert_count(keyed_view(transforms@), transforms@.len() as nat) <= usize::MAX,
        ensures
            match transforms_outcome(self@, keyed_view(transforms@), transforms@.len() as nat) {
                TransformOutcome::Done(m, c) => r matches Ok(d) && d.wf() && d@.map() == m && d@.count == c
                    && forall|k: Seq<char>| #[trigger] d@.blocked(k) == self@.blocked(k),
                TransformOutcome::Failed(e) => r matches Err(x) && x@ == e,
            },
    {
        let mut result = self.clone();
        let ghost ts = keyed_view(transforms@);
        let mut i: usize = 0;
        while i < transforms.len()
            invariant
                i <= transforms@.len(),
                ts == keyed_view(transforms@),
                self.wf(),
                self@.count + insert_count(ts, transforms@.len() as nat) <= usize::MAX,
                result.wf(),
                forall|k: Seq<char>| #[trigger] result@.blocked(k) == self@.blocked(k),
                transforms_outcome(self@, ts, i as nat) == TransformOutcome::Done(result@.map(), result@.count),
            decreases transforms.len() - i,
        {
            proof {
                lemma_transforms_count(self@, ts, i as nat);
                lemma_insert_count_grows(ts, (i + 1) as nat, transforms@.len() as nat);
                assert(ts[i as int] == (transforms@[i as int].0@, transforms@[i as int].1@));
                assert(result@.map().contains_key(transforms@[i as int].0@) == (result@.get(transforms@[i as int].0@) is Some));
            }
            let next = match result.apply_transform(transforms[i].0.as_str(), &transforms[i].1) {
                Ok(d) => d,
                Err(e) => {
                    proof {
                        lemma_transforms_sticky(self@, ts, (i + 1) as nat, transforms@.len() as nat);
                    }
                    return Err(e);
                },
            };
            result = next;
            i += 1;
        }
        Ok(result)
    }
}

impl Default for MerkleDictionary<String> {
    fn default() -> (d: Self)
        ensures
            d.wf(),
            d@.count == 0,
            d@.map() == Map::<Seq<char>, Seq<char>>::empty(),
    {
        Self::new()
    }
}

} // verus!

verus! {

impl MerkleDictionary<String> {
    /// Builds a dictionary from its listed top-level entries and its counter, as
    /// the serialized form holds them: each entry keyed by the first character
    /// of its key (entries with an empty key are skipped, a later entry replaces
    /// an earlier one), all links lazy.
    pub fn from_entries(entries: Vec<(String, String, Option<EncryptionInfo>)>, count: usize) -> (d: Self)
        ensures
            d.wf(),
            d@.count == count,
            forall|j: int| 0 <= j < d@.links.len() ==> (#[trigger] d@.links[j]).1.node is None,
            forall|c: char| #[trigger] child_lookup(d@.links, c) == last_entry_link(entries_view(entries@), c),
    {
        let children = links_from_entries(&entries);
        let ghost c = children@;
        let d = Self::with_links(children, count);
        proof {
            lemma_links_view(c);
            assert forall|j: int| 0 <= j < d@.links.len() implies (#[trigger] d@.links[j]).1.node is None by {
                assert(d@.links[j] == (c[j].0, link_model(c[j].1)));
                assert(c[j].1.node is None);
            }
        }
        d
    }

    /// Deserializes a dictionary from its JSON bytes: exactly what `to_data`
    /// wrote, or the same form in another JSON layout. Its top-level links come
    /// back lazy, keyed by the first character of each
    /// entry's key (entries with an empty key are dropped, a later entry with the
    /// same first character wins).
    pub fn from_data(data: &[u8]) -> (r: Result<Self, CashewError>)
        ensures
            r matches Ok(d) ==> d.wf() && forall|j: int| 0 <= j < d@.links.len() ==> (#[trigger] d@.links[j]).1.node is None,
            r matches Err(e) ==> e is DecodeError,
            forall|m: DictModel| m.wf() && m.count <= usize::MAX && #[trigger] dict_bytes(m) == data@ ==> (r matches Ok(d)
                && d@.links == lazy_links(m.links) && d@.count == m.count),
    {
        let t = match text_of(data) {
            Some(t) => t,
            None => return Err(CashewError::DecodeError(String::from_str("unexpected JSON layout"))),
        };
        proof {
            assert forall|m: DictModel| m.wf() && m.count <= usize::MAX && #[trigger] dict_bytes(m) == data@ implies t@
                == dict_text(m.links, (m.count as usize) as nat) by {
                assert(encode_utf8(dict_json(m)) == data@);
                assert(dict_json(m) == dict_text(m.links, m.count));
            }
        }
        match parse_dict(&t) {
            Some((children, count)) => {
                let ghost c = children@;
                let d = Self::with_links(children, count);
                proof {
                    lemma_links_view(c);
                    assert forall|j: int| 0 <= j < d@.links.len() implies (#[trigger] d@.links[j]).1.node is None by {
                        assert(d@.links[j] == (c[j].0, link_model(c[j].1)));
                        assert(c[j].1.node is None);
                    }
                }
                Ok(d)
            },
            None => match lenient_dict(&t) {
                Some((children, count)) => {
                    let ghost c = children@;
                    let d = Self::with_links(children, count);
                    proof {
                        lemma_links_view(c);
                        assert forall|j: int| 0 <= j < d@.links.len() implies (#[trigger] d@.links[j]).1.node is None by {
                            assert(d@.links[j] == (c[j].0, link_model(c[j].1)));
                            assert(c[j].1.node is None);
                        }
                    }
                    Ok(d)
                },
                None => Err(CashewError::DecodeError(String::from_str("unexpected JSON layout"))),
            },
        }
    }
}

/// `name(count=N)`.
pub open spec fn count_text(name: Seq<char>, n: nat) -> Seq<char> {
    name + "(count="@ + decimal(n) + ")"@
}

/// Writes `name(count=N)`.
pub(crate) fn count_string(name: &str, n: usize) -> (r: String)
    ensures
        r@ == count_text(name@, n as nat),
{
    let mut s = String::from_str(name);
    s.append("(count=");
    s.append(json_usize(n).as_str());
    s.append(")");
    s
}

impl MerkleDictionary<String> {
    /// The dictionary's text form, `MerkleDictionary(count=N)`.
    pub fn display_string(&self) -> (r: String)
        ensures
            r@ == count_text("MerkleDictionary"@, self@.count),
    {
        count_string("MerkleDictionary", self.count)
    }
}

} // verus!

verus! {

proof fn lemma_filter_sorted(s: Seq<Seq<char>>, p: spec_fn(Seq<char>) -> bool)
    requires
        forall|i: int, j: int| 0 <= i < j < s.len() ==> key_lt(#[trigger] s[i], #[trigger] s[j]),
    ensures
        forall|i: int, j: int|
            0 <= i < j < s.filter(p).len() ==> key_lt(#[trigger] s.filter(p)[i], #[trigger] s.filter(p)[j]),
        forall|i: int| 0 <= i < s.filter(p).len() ==> p(#[trigger] s.filter(p)[i]) && s.contains(s.filter(p)[i]),
        forall|i: int| 0 <= i < s.len() && p(#[trigger] s[i]) ==> s.filter(p).contains(s[i]),
    decreases s.len(),
{
    reveal_with_fuel(Seq::<_>::filter, 1);
    if s.len() > 0 {
        let t = s.drop_last();
        lemma_filter_sorted(t, p);
        let ft = t.filter(p);
        let f = s.filter(p);
        assert forall|i: int| 0 <= i < ft.len() implies key_lt(#[trigger] ft[i], s.last()) by {
            let j = choose|j: int| 0 <= j < t.len() && t[j] == ft[i];
            assert(s[j] == t[j]);
        }
        if p(s.last()) {
            assert(f == ft.push(s.last()));
        } else {
            assert(f == ft);
        }
        assert forall|i: int| 0 <= i < f.len() implies p(#[trigger] f[i]) && s.contains(f[i]) by {
            if i < ft.len() {
                assert(f[i] == ft[i]);
                let j = choose|j: int| 0 <= j < t.len() && t[j] == ft[i];
                assert(s[j] == t[j]);
            } else {
                assert(f[i] == s[s.len() - 1]);
            }
        }
        assert forall|i: int| 0 <= i < s.len() && p(#[trigger] s[i]) implies f.contains(s[i]) by {
            if i < t.len() {
                assert(s[i] == t[i]);
                let j = choose|j: int| 0 <= j < ft.len() && ft[j] == t[i];
                assert(f[j] == ft[j]);
            } else {
                assert(f[f.len() - 1] == s[i]);
            }
        }
        assert forall|i: int, j: int| 0 <= i < j < f.len() implies key_lt(#[trigger] f[i], #[trigger] f[j]) by {
            if j < ft.len() {
                assert(f[i] == ft[i] && f[j] == ft[j]);
            } else {
                assert(f[i] == ft[i]);
                assert(f[j] == s.last());
            }
        }
    } else {
        assert(s.filter(p) =~= Seq::<Seq<char>>::empty());
    }
}

/// The page of a fully loaded dictionary's keys after a cursor: at most `limit`
/// keys, in strictly increasing order, each stored and past the cursor, with no
/// qualifying key skipped: a stored key past the cursor is on the page, or the
/// page is full and every key on it comes first.
pub proof fn lemma_sorted_keys_page(d: DictModel, limit: nat, after: Option<Seq<char>>)
    requires
        d.wf(),
        d.loaded(),
    ensures
        page_keys(d.keys(), limit, after).len() <= limit,
        forall|i: int, j: int|
            0 <= i < j < page_keys(d.keys(), limit, after).len() ==> key_lt(
                #[trigger] page_keys(d.keys(), limit, after)[i],
                #[trigger] page_keys(d.keys(), limit, after)[j],
            ),
        forall|i: int|
            0 <= i < page_keys(d.keys(), limit, after).len() ==> d.map().contains_key(
                #[trigger] page_keys(d.keys(), limit, after)[i],
            ) && after_cursor(page_keys(d.keys(), limit, after)[i], after),
        forall|k: Seq<char>|
            #[trigger] d.map().contains_key(k) && after_cursor(k, after) ==> page_keys(d.keys(), limit, after).contains(k)
                || (page_keys(d.keys(), limit, after).len() == limit && forall|i: int|
                0 <= i < limit ==> key_lt(#[trigger] page_keys(d.keys(), limit, after)[i], k)),
{
    lemma_dict_entries(d);
    let ks = d.keys();
    let p = |k: Seq<char>| after_cursor(k, after);
    assert forall|i: int, j: int| 0 <= i < j < ks.len() implies key_lt(#[trigger] ks[i], #[trigger] ks[j]) by {
        assert(key_lt(d.entries()[i].0, d.entries()[j].0));
    }
    lemma_filter_sorted(ks, p);
    let f = ks.filter(p);
    let pg = page_keys(ks, limit, after);
    assert(pg == truncated(f, limit));
    assert forall|i: int| 0 <= i < pg.len() implies d.map().contains_key(#[trigger] pg[i]) && after_cursor(pg[i], after) by {
        assert(pg[i] == f[i]);
        assert(p(f[i]));
        let j = choose|j: int| 0 <= j < ks.len() && ks[j] == f[i];
        assert(ks[j] == d.entries()[j].0);
    }
    assert forall|i: int, j: int| 0 <= i < j < pg.len() implies key_lt(#[trigger] pg[i], #[trigger] pg[j]) by {
        assert(pg[i] == f[i] && pg[j] == f[j]);
    }
    assert forall|k: Seq<char>| #[trigger] d.map().contains_key(k) && after_cursor(k, after) implies pg.contains(k)
        || (pg.len() == limit && forall|i: int| 0 <= i < limit ==> key_lt(#[trigger] pg[i], k)) by {
        let t = choose|t: int| 0 <= t < d.entries().len() && d.entries()[t].0 == k;
        assert(ks[t] == k);
        assert(p(ks[t]));
        assert(f.contains(ks[t]));
        let m = choose|m: int| 0 <= m < f.len() && f[m] == k;
        if m < limit {
            assert(pg[m] == f[m]);
        } else {
            assert forall|i: int| 0 <= i < limit implies key_lt(#[trigger] pg[i], k) by {
                assert(pg[i] == f[i]);
            }
        }
    }
}

} // verus!
