use aries_rust::{BufferManager, BuzzDBError, PageID};

#[test]
fn test_buffer_manager_basic() {
    let mut buffer_manager = BufferManager::new(4096, 2); // Capacity of 2 pages

    // Fix two pages
    let page1 = PageID(1);
    let page2 = PageID(2);

    let frame1 = buffer_manager.fix_page(page1, false).unwrap();
    let _frame2 = buffer_manager.fix_page(page2, false).unwrap();

    // Try to fix a third page - should fail because buffer is full
    let page3 = PageID(3);
    assert!(buffer_manager.fix_page(page3, false).is_err());

    // Unfix one page
    buffer_manager.unfix_page(frame1, false).unwrap();

    // Now should be able to fix another page
    let _frame3 = buffer_manager.fix_page(page3, false).unwrap();
}

#[test]
fn test_buffer_manager_dirty_pages() {
    let mut buffer_manager = BufferManager::new(4096, 2);

    // Fix a page in exclusive mode
    let page1 = PageID(1);
    let frame1 = buffer_manager.fix_page(page1, true).unwrap();

    // Modify the page
    {
        let frame = &mut buffer_manager.frames[frame1];
        let data = frame.get_data_mut();
        data[0] = 42;
        frame.set_dirty(true);
    }

    // Unfix the page
    buffer_manager.unfix_page(frame1, true).unwrap();

    // Flush the page
    buffer_manager.flush_page(page1).unwrap();
}

#[test]
fn buffer_full_at_capacity_with_all_pinned() {
    // At exactly `capacity` resident pages, every one pinned, another fix
    // reports BufferFull.
    let mut bm = BufferManager::new(4096, 2);
    bm.fix_page(PageID(1), false).unwrap();
    bm.fix_page(PageID(2), false).unwrap();
    let r = bm.fix_page(PageID(3), false);
    assert!(matches!(r, Err(BuzzDBError::BufferFull)));
}

#[test]
fn unfix_at_pin_count_zero_reports_other() {
    let mut bm = BufferManager::new(4096, 2);
    let f = bm.fix_page(PageID(1), false).unwrap();
    bm.unfix_page(f, false).unwrap();
    let r = bm.unfix_page(f, false);
    assert!(matches!(r, Err(BuzzDBError::Other(_))));
}

#[test]
fn eviction_replaces_first_unpinned_frame() {
    let mut bm = BufferManager::new(4096, 1);
    let f1 = bm.fix_page(PageID(1), false).unwrap();
    bm.unfix_page(f1, false).unwrap();
    bm.fix_page(PageID(2), false).unwrap();
    assert_eq!(bm.frames.len(), 1);
    assert_eq!(bm.frames[0].get_page_id(), PageID(2));
}

#[test]
fn fresh_exclusive_frame_starts_dirty_and_zeroed() {
    let mut bm = BufferManager::new(64, 2);
    let f = bm.fix_page(PageID(9), true).unwrap();
    assert!(bm.frames[f].is_dirty());
    assert_eq!(bm.frames[f].pin_count(), 1);
    assert_eq!(bm.frames[f].get_data(), &[0u8; 64][..]);
    assert_eq!(bm.get_page_size(), 64);
}

#[test]
fn discard_page_refuses_pinned_frames() {
    let mut bm = BufferManager::new(4096, 2);
    let f = bm.fix_page(PageID(1), false).unwrap();
    assert!(matches!(
        bm.discard_page(PageID(1)),
        Err(BuzzDBError::Other(_))
    ));
    bm.unfix_page(f, false).unwrap();
    bm.discard_page(PageID(1)).unwrap();
    assert_eq!(bm.frames.len(), 0);
}

#[test]
fn discard_all_pages_keeps_pinned_frames() {
    let mut bm = BufferManager::new(4096, 3);
    let f1 = bm.fix_page(PageID(1), false).unwrap();
    let f2 = bm.fix_page(PageID(2), false).unwrap();
    bm.fix_page(PageID(3), false).unwrap();
    bm.unfix_page(f1, false).unwrap();
    let _ = f2;
    bm.discard_all_pages().unwrap();
    assert_eq!(bm.frames.len(), 2);
    assert_eq!(bm.frames[0].get_page_id(), PageID(2));
    assert_eq!(bm.frames[1].get_page_id(), PageID(3));
}

#[test]
fn page_id_packing_round_trips() {
    let packed = BufferManager::get_overall_page_id(7, 123456);
    assert_eq!(BufferManager::get_segment_id(packed), 7);
    assert_eq!(BufferManager::get_segment_page_id(packed), 123456);
    assert_eq!(packed.0, (7u64 << 48) | 123456);
}
