//! A mutable document tree with CSS selector queries.
//!
//! Nodes live in an arena ([`Tree`]) and are named by index. Selectors are
//! compiled into [`Selectors`] and evaluated right to left, with a cache that
//! lives for one selection pass.
//!
//! What a selector text compiles to is stated by `compile::compiled`, and
//! `Tree::select`, `Tree::select_first` and `check_only_match` are stated over
//! it and over the matching semantics of `matching`.
//!
//! Node lifetime: the arena owns every node it ever created. Detaching a
//! subtree unlinks it but does not free its slots; they are released when the
//! whole `Tree` is dropped. Handles are plain indices, so a handle to a
//! detached node stays usable. `Tree::nodes` and the fields of `Node` are
//! public for reading; code that writes them directly must keep `tree::wf`,
//! which every verified operation assumes and preserves.
pub mod compile;
pub mod matching;
pub mod position;
pub mod query;
pub mod selector;
pub mod sink;
pub mod text;
pub mod tree;

pub use matching::PassCache;
pub use query::{check_only_match, SelectError};
pub use selector::{AttrOp, Clause, Combinator, Selectors, Simple, SyntaxError};
pub use text::chars_of;
pub use tree::{Attribute, Node, NodeData, QuirksMode, Tree, TreeError};
