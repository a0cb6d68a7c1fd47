//! 16 KiB pages, row codec, order-preserving key codec and slotted pages.
pub mod bytes;
pub mod error;
pub mod key;
pub mod page;
pub mod row;
pub mod slotted;

pub use error::PageError;
pub use key::{
    decode_key, encode_index_key, encode_key, encode_pk, encode_secondary_key,
    primary_key_type, successor, upper_bound, TAG_BYTES, TAG_I64,
};
pub use page::{
    Page, PageFooter, PageHeader, PageType, PAGE_FOOTER_OFFSET, PAGE_FOOTER_SIZE,
    PAGE_HEADER_SIZE, PAGE_HEADER_VERSION, PAGE_MAGIC, PAGE_SIZE, PAGE_USER_DATA_OFFSET,
    PAGE_USER_DATA_SIZE,
};
pub use row::{decode_row, encode_row, ColumnType, Row, Schema, Value};
pub use slotted::{SlotEntry, SlottedPage};
