//! B+Trees: the in-memory tree, the node page codec and the persistent
//! B+Tree over a `PageSource`.
pub mod error;
pub mod node;
pub mod pedit;
pub mod persist;
pub mod persistent;
pub mod pscan;
pub mod ptree;
pub mod tree;

pub use error::BTreeError;
pub use node::{Node, MIN_KEYS, ORDER};
pub use persist::{DecodedNode, EncodedNode, KIND_INTERNAL, KIND_LEAF};
pub use persistent::{KvPair, PersistentBtree};
pub use tree::{BTree, ScanIter, Split};
