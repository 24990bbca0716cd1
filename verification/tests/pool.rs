use rdbms::buffer::{BufferPoolManager, Error};
use rdbms::disk::{PageId, PAGE_SIZE};

#[test]
fn pool_hands_out_consecutive_pages() {
    let mut bufmgr = BufferPoolManager::new(2);
    assert_eq!(bufmgr.num_pages(), 0);
    assert_eq!(bufmgr.free_pages(), 2);
    let first = bufmgr.create_page().unwrap();
    let second = bufmgr.create_page().unwrap();
    assert_eq!(first.page_id, PageId(0));
    assert_eq!(second.page_id, PageId(1));
    assert_eq!(first.page.len(), PAGE_SIZE);
    assert_eq!(bufmgr.free_pages(), 0);
    assert!(matches!(bufmgr.create_page(), Err(Error::NoFreeBuffer)));
    assert_eq!(bufmgr.num_pages(), 2);
}

#[test]
fn pool_knows_its_pages() {
    let mut bufmgr = BufferPoolManager::new(4);
    bufmgr.create_page().unwrap();
    assert!(bufmgr.fetch_page(PageId(0)).is_ok());
    assert!(matches!(bufmgr.fetch_page(PageId(1)), Err(Error::PageNotFound)));
    assert!(matches!(bufmgr.fetch_page(PageId(u64::MAX)), Err(Error::PageNotFound)));
    assert_eq!(bufmgr.write_page(PageId(1), vec![0u8; PAGE_SIZE]), Err(Error::PageNotFound));
}

#[test]
fn written_page_is_read_back_and_snapshots_stay() {
    let mut bufmgr = BufferPoolManager::new(4);
    bufmgr.create_page().unwrap();
    bufmgr.create_page().unwrap();
    let before = bufmgr.fetch_page(PageId(1)).unwrap();
    let mut page = vec![0u8; PAGE_SIZE];
    page[10] = 42;
    assert_eq!(bufmgr.write_page(PageId(1), page), Ok(()));
    let after = bufmgr.fetch_page(PageId(1)).unwrap();
    assert_eq!(after.page[10], 42);
    assert_eq!(after.page_id, PageId(1));
    assert_eq!(before.page[10], 0);
    assert_eq!(bufmgr.fetch_page(PageId(0)).unwrap().page[10], 0);
}
