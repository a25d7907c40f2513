use mamu_core::error::ErrorKind;
use mamu_core::memory::MemoryRead;
use mamu_core::page_bitmap::PageStatusBitmap;
use mamu_core::pointer_scan::scanner::is_valid_pointer;
use mamu_core::pointer_scan::scanner::merge_runs_kway;
use mamu_core::pointer_scan::scanner::merge_valid_ranges;
use mamu_core::pointer_scan::scanner::scan_all_pointers;
use mamu_core::pointer_scan::scanner::scan_chunk_for_pointers;
use mamu_core::pointer_scan::scanner::scan_region_for_pointers;
use mamu_core::pointer_scan::scanner::sort_and_take_run;
use mamu_core::pointer_scan::scanner::value_before;
use mamu_core::pointer_scan::scanner::ScanRegion;
use mamu_core::pointer_scan::scanner::BATCH_SIZE_THRESHOLD;
use mamu_core::pointer_scan::scanner::CHUNK_SIZE;
use mamu_core::pointer_scan::scanner::MERGE_BATCH_SIZE;
use mamu_core::pointer_scan::types::PointerData;
use mamu_core::pointer_scan::types::PointerScanConfig;

const PAGE: usize = 4096;

fn region(start: u64, end: u64) -> ScanRegion {
    ScanRegion::new(start, end, String::from("r"))
}

fn all_read(size: usize, base: u64) -> PageStatusBitmap {
    let mut pages = PageStatusBitmap::new(size, base as usize, PAGE);
    pages.mark_all_success();
    pages
}

fn put(buffer: &mut [u8], offset: usize, value: u64) {
    buffer[offset..offset + 8].copy_from_slice(&value.to_le_bytes());
}

fn config(align: u32) -> PointerScanConfig {
    PointerScanConfig::new(0, 1, 0, align, false)
}

#[test]
fn scan_region_size() {
    assert_eq!(region(0x1000, 0x3000).size(), 0x2000);
    assert_eq!(region(0x1000, 0x1000).size(), 0);
    assert_eq!(region(0x3000, 0x1000).size(), 0);
}

#[test]
fn constants_have_their_documented_values() {
    assert_eq!(CHUNK_SIZE, 512 * 1024);
    assert_eq!(BATCH_SIZE_THRESHOLD, 10_000_000);
    assert_eq!(MERGE_BATCH_SIZE, 20_000);
}

#[test]
fn adjacent_regions_merge_into_one_range() {
    let merged = merge_valid_ranges(&[region(0x1000, 0x2000), region(0x2000, 0x3000)]);
    assert_eq!(merged, vec![(0x1000, 0x3000)]);
    assert!(is_valid_pointer(0x2500, &merged));
    assert!(is_valid_pointer(0x1000, &merged));
    assert!(is_valid_pointer(0x2fff, &merged));
    assert!(!is_valid_pointer(0x3000, &merged));
    assert!(!is_valid_pointer(0xfff, &merged));
}

#[test]
fn merge_sorts_and_joins_overlapping_regions() {
    let merged = merge_valid_ranges(&[
        region(0x9000, 0xA000),
        region(0x1000, 0x3000),
        region(0x2000, 0x2800),
        region(0x5000, 0x6000),
        region(0x2800, 0x4000),
    ]);
    assert_eq!(merged, vec![(0x1000, 0x4000), (0x5000, 0x6000), (0x9000, 0xA000)]);
}

#[test]
fn merge_of_no_regions_is_empty() {
    let merged = merge_valid_ranges(&[]);
    assert!(merged.is_empty());
    assert!(!is_valid_pointer(0x1000, &merged));
}

#[test]
fn valid_pointer_looks_at_the_low_48_bits_only() {
    let ranges = vec![(0x1000u64, 0x2000u64), (0x8000, 0x9000)];
    assert!(is_valid_pointer(0xFFFF_0000_0000_1800, &ranges));
    assert!(is_valid_pointer(0x00B4_0000_0000_8000, &ranges));
    assert!(!is_valid_pointer(0xFFFF_0000_0000_3000, &ranges));
    assert!(!is_valid_pointer(0x2000, &ranges));
    assert!(!is_valid_pointer(0x7fff, &ranges));
    assert!(is_valid_pointer(0x8fff, &ranges));
}

#[test]
fn one_pointer_in_one_region() {
    let ranges = merge_valid_ranges(&[region(0x1000, 0x2000)]);
    let mut buffer = vec![0u8; 0x1000];
    put(&mut buffer, 0x10, 0x1800);
    let found = scan_chunk_for_pointers(&buffer, 0x1000, 8, &ranges, &all_read(0x1000, 0x1000), PAGE);
    assert_eq!(found, vec![PointerData::new(0x1010, 0x1800)]);
}

#[test]
fn chunk_scan_skips_pages_that_were_not_read() {
    let ranges = vec![(0x1000u64, 0x4000u64)];
    let mut buffer = vec![0u8; 3 * PAGE];
    put(&mut buffer, 0x8, 0x1000);
    put(&mut buffer, PAGE + 0x8, 0x2000);
    put(&mut buffer, 2 * PAGE + 0x8, 0x3000);
    let mut pages = PageStatusBitmap::new(3 * PAGE, 0x1000, PAGE);
    pages.set_page_status(0, true);
    pages.set_page_status(2, true);
    let found = scan_chunk_for_pointers(&buffer, 0x1000, 8, &ranges, &pages, PAGE);
    assert_eq!(
        found,
        vec![PointerData::new(0x1008, 0x1000), PointerData::new(0x3008, 0x3000)]
    );
}

#[test]
fn chunk_scan_steps_by_alignment_from_each_page_start() {
    let ranges = vec![(0x1000u64, 0x2000u64)];
    let mut buffer = vec![0u8; PAGE];
    put(&mut buffer, 0, 0x1001);
    put(&mut buffer, 8, 0x1002);
    put(&mut buffer, 16, 0x1003);
    put(&mut buffer, PAGE - 8, 0x1004);
    let by_16 = scan_chunk_for_pointers(&buffer, 0x1000, 16, &ranges, &all_read(PAGE, 0x1000), PAGE);
    assert_eq!(
        by_16,
        vec![PointerData::new(0x1000, 0x1001), PointerData::new(0x1010, 0x1003)]
    );
    let by_8 = scan_chunk_for_pointers(&buffer, 0x1000, 8, &ranges, &all_read(PAGE, 0x1000), PAGE);
    assert_eq!(by_8.len(), 4);
    assert_eq!(by_8[3], PointerData::new(0x1000 + PAGE as u64 - 8, 0x1004));
}

#[test]
fn chunk_scan_of_unaligned_values_with_step_one() {
    let ranges = vec![(0x1000u64, 0x2000u64)];
    let mut buffer = vec![0u8; 32];
    put(&mut buffer, 3, 0x1234);
    let found = scan_chunk_for_pointers(&buffer, 0x1000, 1, &ranges, &all_read(32, 0x1000), PAGE);
    assert_eq!(found, vec![PointerData::new(0x1003, 0x1234)]);
}

#[test]
fn chunk_scan_of_short_buffer_finds_nothing() {
    let ranges = vec![(0u64, 0x1000u64)];
    let buffer = vec![1u8; 7];
    let found = scan_chunk_for_pointers(&buffer, 0, 1, &ranges, &all_read(7, 0), PAGE);
    assert!(found.is_empty());
}

#[test]
fn chunk_scan_ignores_bitmap_pages_past_the_buffer() {
    let ranges = vec![(0x1000u64, 0x2000u64)];
    let mut buffer = vec![0u8; 16];
    put(&mut buffer, 8, 0x1100);
    let mut pages = PageStatusBitmap::new(4 * PAGE, 0, PAGE);
    pages.mark_all_success();
    let found = scan_chunk_for_pointers(&buffer, 0x1000, 8, &ranges, &pages, PAGE);
    assert_eq!(found, vec![PointerData::new(0x1008, 0x1100)]);
}

#[test]
fn sort_and_take_run_sorts_by_value_and_empties_the_buffer() {
    let mut buffer = vec![
        PointerData::new(1, 30),
        PointerData::new(2, 10),
        PointerData::new(3, 20),
        PointerData::new(4, 10),
    ];
    let run = sort_and_take_run(&mut buffer);
    assert!(buffer.is_empty());
    let values: Vec<u64> = run.iter().map(|p| p.value).collect();
    assert_eq!(values, vec![10, 10, 20, 30]);
    let mut addresses: Vec<u64> = run.iter().map(|p| p.address).collect();
    addresses.sort();
    assert_eq!(addresses, vec![1, 2, 3, 4]);
}

#[test]
fn value_before_compares_values_only() {
    assert!(value_before(&PointerData::new(9, 1), &PointerData::new(0, 2)));
    assert!(!value_before(&PointerData::new(0, 2), &PointerData::new(9, 2)));
    assert!(!value_before(&PointerData::new(0, 3), &PointerData::new(9, 2)));
}

#[test]
fn merge_runs_gives_one_sorted_queue() {
    let runs = vec![
        vec![PointerData::new(1, 10), PointerData::new(2, 40), PointerData::new(3, 70)],
        vec![],
        vec![PointerData::new(4, 20), PointerData::new(5, 50)],
        vec![PointerData::new(6, 30), PointerData::new(7, 60), PointerData::new(8, 80)],
    ];
    let queue = merge_runs_kway(&runs).unwrap();
    assert_eq!(queue.len(), 8);
    for i in 0..8usize {
        let record = queue.get(i).unwrap();
        assert_eq!(record.value, 10 * (i as u64 + 1));
    }
    assert_eq!(queue.get(1), Some(PointerData::new(4, 20)));
}

#[test]
fn merge_runs_larger_than_one_batch() {
    let count = MERGE_BATCH_SIZE as u64 + 5;
    let evens: Vec<PointerData> = (0..count).map(|i| PointerData::new(i, 2 * i)).collect();
    let odds: Vec<PointerData> = (0..count).map(|i| PointerData::new(i, 2 * i + 1)).collect();
    let queue = merge_runs_kway(&vec![evens, odds]).unwrap();
    assert_eq!(queue.len() as u64, 2 * count);
    for i in 0..2 * count {
        assert_eq!(queue.get(i as usize).unwrap().value, i);
    }
}

#[test]
fn merge_of_no_runs_is_an_empty_queue() {
    let queue = merge_runs_kway(&Vec::new()).unwrap();
    assert_eq!(queue.len(), 0);
}

fn memory_of_two_pages(addr: u64, size: usize) -> Option<MemoryRead> {
    // Two pages at 0x1000: pointers to 0x1800 at 0x1010, to 0x1100 at 0x1ff8
    // and to 0x2008 at 0x2000; a value outside every region at 0x1020.
    let mut data = vec![0u8; size];
    let mut write = |at: u64, value: u64| {
        if at >= addr && at + 8 <= addr + size as u64 {
            let o = (at - addr) as usize;
            data[o..o + 8].copy_from_slice(&value.to_le_bytes());
        }
    };
    write(0x1010, 0x1800);
    write(0x1020, 0x9999);
    write(0x1ff8, 0x1100);
    write(0x2000, 0xFFFF_0000_0000_2008);
    let mut pages = PageStatusBitmap::new(size, addr as usize, PAGE);
    pages.mark_all_success();
    Some(MemoryRead::new(data, pages))
}

#[test]
fn scan_all_pointers_finds_and_sorts() {
    let regions = vec![region(0x2000, 0x3000), region(0x1000, 0x2000)];
    let queue = scan_all_pointers(
        &regions,
        &config(8),
        PAGE,
        memory_of_two_pages,
        |_done, _total, _found| {},
        || false,
    )
    .unwrap();
    assert_eq!(queue.len(), 3);
    assert_eq!(queue.get(0), Some(PointerData::new(0x1ff8, 0x1100)));
    assert_eq!(queue.get(1), Some(PointerData::new(0x1010, 0x1800)));
    assert_eq!(queue.get(2), Some(PointerData::new(0x2000, 0xFFFF_0000_0000_2008)));
}

#[test]
fn scan_all_pointers_records_satisfy_the_scan_promise() {
    let regions = vec![region(0x1000, 0x3000)];
    let align = 8u64;
    let queue = scan_all_pointers(
        &regions,
        &config(align as u32),
        PAGE,
        memory_of_two_pages,
        |_done, _total, _found| {},
        || false,
    )
    .unwrap();
    assert_eq!(queue.len(), 3);
    let mut last = 0u64;
    for i in 0..queue.len() {
        let r = queue.get(i).unwrap();
        let masked = r.value & 0x0000_FFFF_FFFF_FFFF;
        assert!(0x1000 <= masked && masked < 0x3000);
        assert!(0x1000 <= r.address && r.address < 0x3000);
        assert_eq!(r.address % align, 0);
        assert!(last <= r.value);
        last = r.value;
    }
}

#[test]
fn scan_all_pointers_one_region_one_pointer() {
    let regions = vec![region(0x1000, 0x2000)];
    let read = |addr: u64, size: usize| {
        let mut data = vec![0u8; size];
        assert_eq!(addr, 0x1000);
        data[0x10..0x18].copy_from_slice(&0x1800u64.to_le_bytes());
        let mut pages = PageStatusBitmap::new(size, addr as usize, PAGE);
        pages.mark_all_success();
        Some(MemoryRead::new(data, pages))
    };
    let queue = scan_all_pointers(&regions, &config(8), PAGE, read, |_, _, _| {}, || false).unwrap();
    assert_eq!(queue.len(), 1);
    assert_eq!(queue.get(0), Some(PointerData::new(0x1010, 0x1800)));
}

#[test]
fn scan_all_pointers_without_regions_gives_an_empty_queue() {
    let queue =
        scan_all_pointers(&[], &config(8), PAGE, memory_of_two_pages, |_, _, _| {}, || false)
            .unwrap();
    assert_eq!(queue.len(), 0);
}

#[test]
fn scan_all_pointers_skips_failed_reads() {
    let regions = vec![region(0x1000, 0x3000)];
    let queue = scan_all_pointers(
        &regions,
        &config(8),
        PAGE,
        |_addr, _size| None,
        |_, _, _| {},
        || false,
    )
    .unwrap();
    assert_eq!(queue.len(), 0);
}

#[test]
fn scan_all_pointers_stops_when_cancelled() {
    let regions = vec![region(0x1000, 0x3000)];
    let result =
        scan_all_pointers(&regions, &config(8), PAGE, memory_of_two_pages, |_, _, _| {}, || true);
    assert_eq!(result.err(), Some(ErrorKind::Cancelled));
}

#[test]
fn scan_all_pointers_reports_progress_every_fifty_regions() {
    let regions: Vec<ScanRegion> =
        (0..120u64).map(|i| region(0x10000 + i * 0x1000, 0x11000 + i * 0x1000)).collect();
    let calls = std::cell::RefCell::new(Vec::new());
    let queue = scan_all_pointers(
        &regions,
        &config(8),
        PAGE,
        |_addr, _size| None,
        |done, total, found| calls.borrow_mut().push((done, total, found)),
        || false,
    )
    .unwrap();
    assert_eq!(queue.len(), 0);
    assert_eq!(*calls.borrow(), vec![(50, 120, 0), (100, 120, 0)]);
}

#[test]
fn scan_region_reads_in_chunks_and_misses_nothing_inside_them() {
    let r = region(0x10000, 0x10000 + 3 * PAGE as u64);
    let ranges = vec![(0x10000u64, 0x10000 + 3 * PAGE as u64)];
    let asked = std::cell::RefCell::new(Vec::new());
    let read = |addr: u64, size: usize| {
        asked.borrow_mut().push((addr, size));
        let mut data = vec![0u8; size];
        data[0..8].copy_from_slice(&addr.to_le_bytes());
        let mut pages = PageStatusBitmap::new(size, addr as usize, PAGE);
        pages.mark_all_success();
        Some(MemoryRead::new(data, pages))
    };
    let found =
        scan_region_for_pointers(&r, 2 * PAGE, &ranges, &config(8), PAGE, &read, &|| false).unwrap();
    assert_eq!(
        *asked.borrow(),
        vec![(0x10000, 2 * PAGE), (0x10000 + 2 * PAGE as u64, PAGE)]
    );
    assert_eq!(
        found,
        vec![
            PointerData::new(0x10000, 0x10000),
            PointerData::new(0x10000 + 2 * PAGE as u64, 0x10000 + 2 * PAGE as u64)
        ]
    );
}

#[test]
fn scan_region_ignores_a_buffer_of_the_wrong_size() {
    let r = region(0x1000, 0x2000);
    let ranges = vec![(0x1000u64, 0x2000u64)];
    let read = |addr: u64, size: usize| {
        let mut data = vec![0u8; size - 1];
        data[0..8].copy_from_slice(&0x1000u64.to_le_bytes());
        let mut pages = PageStatusBitmap::new(size, addr as usize, PAGE);
        pages.mark_all_success();
        Some(MemoryRead::new(data, pages))
    };
    let found =
        scan_region_for_pointers(&r, PAGE, &ranges, &config(8), PAGE, &read, &|| false).unwrap();
    assert!(found.is_empty());
}

#[test]
fn merge_drops_regions_that_hold_nothing() {
    let merged = merge_valid_ranges(&[
        region(0x5000, 0x5000),
        region(0x1000, 0x2000),
        region(0x9000, 0x8000),
        region(0x3000, 0x3000),
        region(0x2000, 0x2001),
    ]);
    assert_eq!(merged, vec![(0x1000, 0x2001)]);
    assert!(merge_valid_ranges(&[region(7, 7), region(9, 1)]).is_empty());
}

#[test]
fn scan_all_pointers_ignores_an_inverted_region() {
    let regions = vec![region(0x3000, 0x1000), region(0x1000, 0x2000)];
    let queue = scan_all_pointers(
        &regions,
        &config(8),
        PAGE,
        memory_of_two_pages,
        |_, _, _| {},
        || false,
    )
    .unwrap();
    assert_eq!(queue.len(), 2);
    assert_eq!(queue.get(0), Some(PointerData::new(0x1ff8, 0x1100)));
    assert_eq!(queue.get(1), Some(PointerData::new(0x1010, 0x1800)));
}

#[test]
fn valid_pointer_accepts_ranges_that_touch() {
    let ranges = vec![(0x1000u64, 0x2000u64), (0x2000, 0x3000), (0x3000, 0x3000), (0x5000, 0x6000)];
    assert!(is_valid_pointer(0x1fff, &ranges));
    assert!(is_valid_pointer(0x2000, &ranges));
    assert!(is_valid_pointer(0x2fff, &ranges));
    assert!(!is_valid_pointer(0x3000, &ranges));
    assert!(!is_valid_pointer(0x4fff, &ranges));
    assert!(is_valid_pointer(0x5000, &ranges));
    assert!(!is_valid_pointer(0x6000, &ranges));
    assert!(!is_valid_pointer(0x1000, &[]));
}

#[test]
fn scan_region_stops_with_cancelled_before_the_first_read() {
    let r = region(0x1000, 0x2000);
    let ranges = vec![(0x1000u64, 0x2000u64)];
    let reads = std::cell::Cell::new(0);
    let read = |addr: u64, size: usize| {
        reads.set(reads.get() + 1);
        memory_of_two_pages(addr, size)
    };
    let result = scan_region_for_pointers(&r, PAGE, &ranges, &config(8), PAGE, &read, &|| true);
    assert_eq!(result, Err(ErrorKind::Cancelled));
    assert_eq!(reads.get(), 0);
    let empty = region(0x1000, 0x1000);
    let nothing = scan_region_for_pointers(&empty, PAGE, &ranges, &config(8), PAGE, &read, &|| true);
    assert_eq!(nothing, Ok(Vec::new()));
}

#[test]
fn scan_all_pointers_without_regions_is_cancelled_before_the_merge() {
    let result = scan_all_pointers(&[], &config(8), PAGE, memory_of_two_pages, |_, _, _| {}, || true);
    assert_eq!(result.err(), Some(ErrorKind::Cancelled));
}

#[test]
fn scan_all_pointers_cancelled_after_the_first_region() {
    let regions = vec![region(0x1000, 0x2000), region(0x2000, 0x3000)];
    let asked = std::cell::Cell::new(0);
    let cancel_late = || {
        asked.set(asked.get() + 1);
        asked.get() > 2
    };
    let result =
        scan_all_pointers(&regions, &config(8), PAGE, memory_of_two_pages, |_, _, _| {}, cancel_late);
    assert_eq!(result.err(), Some(ErrorKind::Cancelled));
}
