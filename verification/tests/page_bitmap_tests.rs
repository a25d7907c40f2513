use mamu_core::page_bitmap::PageStatusBitmap;

#[test]
fn bitmap_counts_pages_of_an_aligned_buffer() {
    let b = PageStatusBitmap::new(8192, 0x1000, 4096);
    assert_eq!(b.num_pages(), 2);
    assert_eq!(b.base_addr(), 0x1000);
    assert_eq!(b.success_count(), 0);
    assert!(!b.is_page_success(0));
    assert!(!b.is_page_success(1));
}

#[test]
fn bitmap_counts_a_partial_last_page() {
    assert_eq!(PageStatusBitmap::new(4097, 0, 4096).num_pages(), 2);
    assert_eq!(PageStatusBitmap::new(1, 0, 4096).num_pages(), 1);
    assert_eq!(PageStatusBitmap::new(4096, 0, 4096).num_pages(), 1);
    assert_eq!(PageStatusBitmap::new(0, 0, 4096).num_pages(), 0);
}

#[test]
fn bitmap_counts_pages_of_an_unaligned_buffer() {
    assert_eq!(PageStatusBitmap::new(4096, 1, 4096).num_pages(), 2);
    assert_eq!(PageStatusBitmap::new(2, 4095, 4096).num_pages(), 2);
    assert_eq!(PageStatusBitmap::new(1, 4095, 4096).num_pages(), 1);
    assert_eq!(PageStatusBitmap::new(8192, 100, 4096).num_pages(), 3);
    assert_eq!(PageStatusBitmap::new(5, 3, 1).num_pages(), 5);
}

#[test]
fn bitmap_records_page_outcomes() {
    let mut b = PageStatusBitmap::new(3 * 4096, 0, 4096);
    b.set_page_status(1, true);
    assert!(!b.is_page_success(0));
    assert!(b.is_page_success(1));
    assert!(!b.is_page_success(2));
    assert_eq!(b.success_count(), 1);
    b.set_page_status(7, true);
    assert_eq!(b.success_count(), 1);
    assert!(!b.is_page_success(7));
    b.set_page_status(1, false);
    assert_eq!(b.success_count(), 0);
    b.mark_all_success();
    assert_eq!(b.success_count(), 3);
    assert!(b.is_page_success(2));
    assert!(!b.is_page_success(3));
}
