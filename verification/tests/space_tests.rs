use ferrumdb::page::{Page, PageType, PAGE_MAGIC, PAGE_SIZE};
use ferrumdb::space::free_list::{decode_free, encode_free};
use ferrumdb::space::{PageSource, Space, SpaceError, Superblock};

#[test]
fn lib_crate_compiles() {
    let _ = Space::create();
}

#[test]
fn encode_decode_none() {
    let enc = encode_free(None);
    assert_eq!(decode_free(&enc).unwrap(), None);
}

#[test]
fn encode_decode_some() {
    let enc = encode_free(Some(123));
    assert_eq!(decode_free(&enc).unwrap(), Some(123));
}

#[test]
fn free_list_truncated_input_returns_error() {
    let err = decode_free(&[1, 2]);
    assert!(matches!(err, Err(SpaceError::FreeListCorrupted(_))));
}

#[test]
fn free_list_encoding_layout() {
    assert_eq!(encode_free(None), vec![0, 0, 0, 0, 0]);
    assert_eq!(encode_free(Some(0x0102_0304)), vec![1, 4, 3, 2, 1]);
}

#[test]
fn fresh_superblock_round_trip() {
    let sb = Superblock::fresh();
    let mut page = Page::new(0, PageType::Superblock);
    sb.write_into(&mut page).unwrap();
    let decoded = Superblock::read_from(&page).unwrap();
    assert_eq!(sb, decoded);
}

#[test]
fn superblock_set_root_persists() {
    let mut sb = Superblock::fresh();
    sb.root_page_id = Some(42);
    sb.free_list_head = Some(7);
    let mut page = Page::new(0, PageType::Superblock);
    sb.write_into(&mut page).unwrap();
    let decoded = Superblock::read_from(&page).unwrap();
    assert_eq!(decoded.root_page_id, Some(42));
    assert_eq!(decoded.free_list_head, Some(7));
}

#[test]
fn bad_magic_rejected() {
    let mut page = Page::new(0, PageType::Superblock);
    page.user_data_mut()[0] = 0xDE;
    page.user_data_mut()[1] = 0xAD;
    let err = Superblock::read_from(&page);
    assert!(matches!(err, Err(SpaceError::SuperblockInvalidMagic)));
}

#[test]
fn superblock_fresh_fields() {
    let sb = Superblock::fresh();
    assert_eq!(sb.magic, PAGE_MAGIC);
    assert_eq!(sb.version, 1);
    assert_eq!(sb.page_size, PAGE_SIZE as u32);
    assert_eq!(sb.free_list_head, None);
    assert_eq!(sb.root_page_id, None);
    assert_eq!(sb.last_lsn, 0);
}

#[test]
fn superblock_unsupported_version_rejected() {
    let mut sb = Superblock::fresh();
    sb.version = 2;
    let mut page = Page::new(0, PageType::Superblock);
    sb.write_into(&mut page).unwrap();
    assert_eq!(Superblock::read_from(&page).unwrap().version, 2);
    let mut image = Space::create().image();
    image[..PAGE_SIZE].copy_from_slice(&page.to_bytes());
    assert!(matches!(Space::open(&image), Err(SpaceError::SuperblockVersionUnsupported(2))));
}

#[test]
fn superblock_page_size_mismatch_rejected() {
    let mut sb = Superblock::fresh();
    sb.page_size = 4096;
    let mut page = Page::new(0, PageType::Superblock);
    sb.write_into(&mut page).unwrap();
    assert!(matches!(
        Superblock::read_from(&page),
        Err(SpaceError::SuperblockPageSizeMismatch { file: 4096, .. })
    ));
}

#[test]
fn create_then_open_round_trip() {
    let image = {
        let space = Space::create();
        assert_eq!(space.page_count(), 1);
        assert_eq!(space.superblock().magic, PAGE_MAGIC);
        space.image()
    };
    let space = Space::open(&image).unwrap();
    assert_eq!(space.page_count(), 1);
    assert_eq!(space.superblock().magic, PAGE_MAGIC);
    assert_eq!(space.superblock().version, 1);
}

#[test]
fn open_bad_magic_returns_error() {
    let image = vec![0u8; PAGE_SIZE];
    let err = Space::open(&image);
    assert!(matches!(err, Err(SpaceError::SuperblockInvalidMagic)));
}

#[test]
fn open_short_image_returns_truncated() {
    let err = Space::open(&[0u8; 10]);
    assert!(matches!(err, Err(SpaceError::SuperblockTruncated { got: 10 })));
}

#[test]
fn allocate_extends_file() {
    let mut space = Space::create();
    assert_eq!(space.page_count(), 1);
    let id = space.allocate_page().unwrap();
    assert_eq!(id, 1);
    assert_eq!(space.page_count(), 2);
    assert_eq!(space.image().len(), PAGE_SIZE * 2);
}

#[test]
fn alloc_then_free_then_alloc_returns_same_id() {
    let mut space = Space::create();
    let id1 = space.allocate_page().unwrap();
    assert_eq!(id1, 1);
    space.free_page(id1).unwrap();
    let id2 = space.allocate_page().unwrap();
    assert_eq!(id2, id1);
}

#[test]
fn free_list_chains_correctly() {
    let mut space = Space::create();
    let _id1 = space.allocate_page().unwrap();
    let id2 = space.allocate_page().unwrap();
    let id3 = space.allocate_page().unwrap();
    space.free_page(id2).unwrap();
    space.free_page(id3).unwrap();
    assert_eq!(space.allocate_page().unwrap(), id3);
    assert_eq!(space.allocate_page().unwrap(), id2);
    assert_eq!(space.allocate_page().unwrap(), 4);
}

#[test]
fn write_and_read_page() {
    let mut space = Space::create();
    let id = space.allocate_page().unwrap();
    let mut page = Page::new(id, PageType::Data);
    page.user_data_mut()[0] = 0xAB;
    page.user_data_mut()[1] = 0xCD;
    space.write_page(id, &page).unwrap();

    let read = space.read_page(id).unwrap();
    assert_eq!(read.user_data()[0], 0xAB);
    assert_eq!(read.user_data()[1], 0xCD);
}

#[test]
fn space_set_root_persists() {
    let image = {
        let mut space = Space::create();
        space.set_root_page_id(42).unwrap();
        space.image()
    };
    let space = Space::open(&image).unwrap();
    assert_eq!(space.superblock().root_page_id, Some(42));
}

#[test]
fn read_out_of_range_page_errors() {
    let mut space = Space::create();
    assert!(matches!(space.read_page(5), Err(SpaceError::PageIdOutOfRange(5))));
    let page = Page::new(5, PageType::Data);
    assert!(matches!(space.write_page(5, &page), Err(SpaceError::PageIdOutOfRange(5))));
}

#[test]
fn free_page_zero_or_out_of_range_errors() {
    let mut space = Space::create();
    assert!(matches!(space.free_page(0), Err(SpaceError::PageIdOutOfRange(0))));
    assert!(matches!(space.free_page(9), Err(SpaceError::PageIdOutOfRange(9))));
}

#[test]
fn freed_pages_survive_reopen() {
    let mut space = Space::create();
    let a = space.allocate_page().unwrap();
    let _b = space.allocate_page().unwrap();
    space.free_page(a).unwrap();
    let mut reopened = Space::open(&space.image()).unwrap();
    assert_eq!(reopened.page_count(), 3);
    assert_eq!(reopened.superblock().free_list_head, Some(a));
    assert_eq!(reopened.allocate_page().unwrap(), a);
    assert_eq!(reopened.allocate_page().unwrap(), 3);
}

fn write_via<S: PageSource>(src: &mut S) -> u32 {
    let id = src.allocate_page().unwrap();
    let mut page = Page::new(id, PageType::Data);
    page.user_data_mut()[3] = 7;
    src.write_page(id, &page).unwrap();
    id
}

#[test]
fn space_as_page_source() {
    let mut space = Space::create();
    let id = write_via(&mut space);
    assert_eq!(space.read_page(id).unwrap().user_data()[3], 7);
}
