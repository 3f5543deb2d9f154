//! Collection utilities built around an XOR-compressed doubly linked list.
//!
//! The crate provides two containers:
//!
//! * [`XorLinkedList`]: a double-ended sequence that stores a single link
//!   word per node (the XOR of its two neighbour identities) instead of two
//!   pointers, together with forward, backward and owning cursors.
//! * [`BTrieMap`]: a trie keyed by sequences of elements, supporting exact
//!   lookup as well as retrieval of every value stored below a key prefix.

pub mod btrie;
pub mod xor_linked_list;

pub use btrie::BTrieMap;
pub use xor_linked_list::IntoIter;
pub use xor_linked_list::Iter;
pub use xor_linked_list::IterMut;
pub use xor_linked_list::XorLinkedList;
