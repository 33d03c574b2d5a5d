# cashew

Persistent, content-addressed Merkle data structures — a dictionary, a set and an
append-only array — built on a compressed radix trie whose nodes are identified by
CIDs (CIDv1, dag-json codec, SHA-256) of their deterministic JSON. Every mutation
returns a new structure and leaves the receiver unchanged. A small query language
(`get "k" | keys sorted limit 10`) and AES-256-GCM helpers for encrypted nodes
come with it.

The library in `src/` is written in Verus and verified: each public function has a
contract over a mathematical model (a dictionary is seen as a map from key
characters to value characters, plus the links that are not loaded), and the
laws of the structures are stated and proved as proof functions or as clauses of
the functions they concern.

The trie is compressed: every node holds a value or branches into at least two
children (`node_compact`, part of `trie_wf`), and every mutation keeps it so. A
compressed trie is determined by its contents (`canonical::lemma_trie_unique`):
two fully loaded dictionaries without encryption metadata that store the same
pairs under the same counter are equal, and so serialize to the same bytes and
get the same CIDs (`canonical::lemma_dict_canonical`).

Child links are kept in a `Vec` sorted by their character rather than in a
`BTreeMap<char, _>`: the proofs of the trie need the order of the links, and they
read it directly off the sorted sequence, over which the ordered lookups and
insertions are written and proved.

`from_data` reads the compact layout that `to_data` writes, and is proved to read
back every such text exactly; it also reads the same forms in any other layout a
JSON reader accepts (whitespace, fields in any order, unknown fields, `null` for
optional fields). A dictionary read back from storage has lazy top-level links;
`resolving` puts a fetched node under one of them once the node's CID and shape
check out, and `RadixNode::resolving` does the same one level down, so a stored
subtree is loaded bottom-up.

Layout:

- `src/merkle/` — the trie model and its proofs (`radix_node`, `trie`,
  `trie_exec`, `entries`), the dictionary, set and array, headers, the diff of two
  dictionaries and the reader of the JSON layout (`decode`).
- `src/query/` — the query tokenizer and parser, with the grammar as spec functions.
- `src/encryption.rs`, `src/cid_utils.rs`, `src/codec.rs`, `src/text.rs` — the
  calls into `aes-gcm`, `sha2`, `base64`, `rand`, `cid`, `multihash`,
  `serde_json` and std, each behind a small trusted function whose contract
  states what the library relies on.
- `app/` — plain Rust around the library: serde forms of its types, `cid::Cid`
  values, the error type with `std::error::Error`, and the asynchronous fetcher
  traits.
- `tests/` — the test suite.
