pub mod dictionary;
pub mod entries;
pub mod radix_header;
pub mod radix_node;
pub mod trie;
pub mod trie_exec;
pub mod set;
pub mod array;
pub mod dict_diff;
pub mod header;
pub mod decode;
pub mod canonical;
pub mod resolve;
pub mod lenient;
