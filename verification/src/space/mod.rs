//! Tablespace: superblock, free page list, page allocation and the
//! `PageSource` abstraction used by the B+Trees.
pub mod error;
pub mod free_list;
pub mod page_source;
pub mod space;
pub mod superblock;
pub use error::SpaceError;
pub use page_source::PageSource;
pub use space::Space;
pub use superblock::Superblock;
