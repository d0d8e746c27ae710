//! Querying parsed markup documents with a small pipeline language.
//!
//! A document is an arena tree of nodes ([`tree`]) holding markup payloads
//! ([`html::dom`]).  A query such as ``@path(`//div/a`) | @attr(`href`) |
//! #text()`` compiles ([`selector::parse`]) into selector operations
//! ([`selector`]) that a [`querier::Querier`] applies, in order, to a working
//! list of node references ([`html::ElementOrTextRef`]) that starts at the
//! document's root.
pub mod chars;
pub mod html;
pub mod querier;
pub mod selector;
pub mod tree;
