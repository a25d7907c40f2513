use mamu_core::memory::MemoryRead;
use mamu_core::page_bitmap::PageStatusBitmap;
use mamu_core::search::fuzzy_search::filter_matching;
use mamu_core::search::fuzzy_search::fuzzy_initial_scan;
use mamu_core::search::fuzzy_search::fuzzy_refine_search;
use mamu_core::search::fuzzy_search::scan_buffer_parallel;
use mamu_core::search::fuzzy_search::scan_single_page;
use mamu_core::search::fuzzy_search::FuzzyResultSet;
use mamu_core::search::result_manager::le_value;
use mamu_core::search::result_manager::FuzzySearchResultItem;
use mamu_core::search::types::condition_holds;
use mamu_core::search::types::FuzzyCondition;
use mamu_core::search::types::ValueType;

const PAGE: usize = 4096;
const BASE: u64 = 0x10000;

fn item(address: u64, value_type: ValueType, value_bits: u64) -> FuzzySearchResultItem {
    FuzzySearchResultItem { address, value_type, value_bits }
}

fn no_floats(_item: FuzzySearchResultItem, _bits: u64, _cond: FuzzyCondition) -> bool {
    panic!("no floating-point item is expected")
}

fn never() -> bool {
    false
}

/// A reader over one stretch of memory that starts at `BASE`.
fn chunk_reader(memory: Vec<u8>) -> impl Fn(u64, usize) -> Option<MemoryRead> {
    move |addr: u64, size: usize| {
        let start = (addr - BASE) as usize;
        let data = memory[start..start + size].to_vec();
        let mut pages = PageStatusBitmap::new(size, addr as usize, PAGE);
        pages.mark_all_success();
        Some(MemoryRead::new(data, pages))
    }
}

fn value_reader(memory: Vec<u8>) -> impl Fn(u64, usize) -> Option<Vec<u8>> {
    move |addr: u64, size: usize| {
        let start = (addr - BASE) as usize;
        if start + size > memory.len() {
            return None;
        }
        Some(memory[start..start + size].to_vec())
    }
}

#[test]
fn value_type_sizes() {
    assert_eq!(ValueType::I8.size(), 1);
    assert_eq!(ValueType::U8.size(), 1);
    assert_eq!(ValueType::I16.size(), 2);
    assert_eq!(ValueType::U16.size(), 2);
    assert_eq!(ValueType::I32.size(), 4);
    assert_eq!(ValueType::U32.size(), 4);
    assert_eq!(ValueType::F32.size(), 4);
    assert_eq!(ValueType::I64.size(), 8);
    assert_eq!(ValueType::U64.size(), 8);
    assert_eq!(ValueType::F64.size(), 8);
}

#[test]
fn value_type_tags_round_trip() {
    let all = [
        ValueType::I8,
        ValueType::U8,
        ValueType::I16,
        ValueType::U16,
        ValueType::I32,
        ValueType::U32,
        ValueType::I64,
        ValueType::U64,
        ValueType::F32,
        ValueType::F64,
    ];
    for (i, t) in all.iter().enumerate() {
        assert_eq!(t.tag() as usize, i);
        assert_eq!(ValueType::from_tag(t.tag()), Some(*t));
    }
    assert_eq!(ValueType::from_tag(10), None);
    assert_eq!(ValueType::from_tag(255), None);
    assert!(ValueType::I32.is_signed());
    assert!(!ValueType::U32.is_signed());
    assert!(!ValueType::F32.is_signed());
    assert!(ValueType::F64.is_float());
    assert!(!ValueType::I64.is_float());
}

#[test]
fn le_value_reads_little_endian() {
    assert_eq!(le_value(&[]), 0);
    assert_eq!(le_value(&[0x34, 0x12]), 0x1234);
    assert_eq!(le_value(&[1, 0, 0, 0]), 1);
    assert_eq!(le_value(&[0xff; 8]), u64::MAX);
    assert_eq!(le_value(&[0, 0, 0, 0, 0, 0, 0, 0x80]), 0x8000_0000_0000_0000);
}

#[test]
fn item_from_bytes_takes_one_value() {
    let i = FuzzySearchResultItem::from_bytes(0x40, &[0x78, 0x56, 0x34, 0x12, 0xAA], ValueType::U32);
    assert_eq!(i, item(0x40, ValueType::U32, 0x1234_5678));
    let j = FuzzySearchResultItem::from_bytes(0x41, &[0xFE, 0xFF], ValueType::I8);
    assert_eq!(j, item(0x41, ValueType::I8, 0xFE));
}

#[test]
fn item_value_reads_signed_types_as_twos_complement() {
    assert_eq!(item(0, ValueType::I8, 0xFE).value(), -2);
    assert_eq!(item(0, ValueType::U8, 0xFE).value(), 254);
    assert_eq!(item(0, ValueType::I16, 0x8000).value(), -32768);
    assert_eq!(item(0, ValueType::I16, 0x7FFF).value(), 32767);
    assert_eq!(item(0, ValueType::I32, 0xFFFF_FFFF).value(), -1);
    assert_eq!(item(0, ValueType::U32, 0xFFFF_FFFF).value(), 4294967295);
    assert_eq!(item(0, ValueType::I64, u64::MAX).value(), -1);
    assert_eq!(item(0, ValueType::I64, 0x8000_0000_0000_0000).value(), i64::MIN as i128);
    assert_eq!(item(0, ValueType::U64, u64::MAX).value(), u64::MAX as i128);
}

#[test]
fn condition_holds_for_each_condition() {
    assert!(condition_holds(FuzzyCondition::Unchanged, 5, 5));
    assert!(!condition_holds(FuzzyCondition::Unchanged, 5, 6));
    assert!(condition_holds(FuzzyCondition::Changed, 5, 6));
    assert!(!condition_holds(FuzzyCondition::Changed, 5, 5));
    assert!(condition_holds(FuzzyCondition::Increased, 5, 6));
    assert!(!condition_holds(FuzzyCondition::Increased, 5, 5));
    assert!(condition_holds(FuzzyCondition::Decreased, 5, 4));
    assert!(!condition_holds(FuzzyCondition::Decreased, 5, 5));
    assert!(condition_holds(FuzzyCondition::IncreasedBy(3), 5, 8));
    assert!(!condition_holds(FuzzyCondition::IncreasedBy(3), 5, 9));
    assert!(condition_holds(FuzzyCondition::DecreasedBy(3), 5, 2));
    assert!(!condition_holds(FuzzyCondition::DecreasedBy(3), 5, 8));
    assert!(condition_holds(FuzzyCondition::Equal(-1), 0, -1));
    assert!(!condition_holds(FuzzyCondition::Equal(-1), -1, 0));
    assert!(condition_holds(FuzzyCondition::GreaterThan(7), 0, 8));
    assert!(!condition_holds(FuzzyCondition::GreaterThan(7), 0, 7));
    assert!(condition_holds(FuzzyCondition::LessThan(7), 0, 6));
    assert!(!condition_holds(FuzzyCondition::LessThan(7), 0, 7));
    assert!(condition_holds(FuzzyCondition::InRange(2, 4), 0, 2));
    assert!(condition_holds(FuzzyCondition::InRange(2, 4), 0, 4));
    assert!(!condition_holds(FuzzyCondition::InRange(2, 4), 0, 5));
    assert!(!condition_holds(FuzzyCondition::InRange(2, 4), 0, 1));
    assert!(condition_holds(
        FuzzyCondition::IncreasedBy(i64::MIN),
        0,
        i64::MIN as i128
    ));
    assert!(condition_holds(
        FuzzyCondition::Increased,
        i64::MIN as i128,
        u64::MAX as i128
    ));
}

#[test]
fn matches_condition_reads_bytes_under_the_items_type() {
    let signed = item(0, ValueType::I8, 0xFF);
    assert_eq!(signed.matches_condition(&[0x00], FuzzyCondition::Increased), Some(true));
    assert_eq!(signed.matches_condition(&[0x00], FuzzyCondition::IncreasedBy(1)), Some(true));
    let unsigned = item(0, ValueType::U8, 0xFF);
    assert_eq!(unsigned.matches_condition(&[0x00], FuzzyCondition::Increased), Some(false));
    assert_eq!(unsigned.matches_condition(&[0x00], FuzzyCondition::DecreasedBy(255)), Some(true));
    let wide = item(8, ValueType::U32, 1000);
    assert_eq!(
        wide.matches_condition(&1000u32.to_le_bytes(), FuzzyCondition::Unchanged),
        Some(true)
    );
    assert_eq!(
        wide.matches_condition(&1001u32.to_le_bytes(), FuzzyCondition::Unchanged),
        Some(false)
    );
    assert_eq!(
        wide.matches_condition(&1001u32.to_le_bytes(), FuzzyCondition::InRange(1001, 1001)),
        Some(true)
    );
    assert_eq!(
        wide.matches_condition(&[0xE9, 0x03, 0, 0, 9, 9], FuzzyCondition::Equal(1001)),
        Some(true)
    );
    let huge = item(8, ValueType::U64, u64::MAX);
    assert_eq!(
        huge.matches_condition(&u64::MAX.to_le_bytes(), FuzzyCondition::GreaterThan(i64::MAX)),
        Some(true)
    );
    assert_eq!(
        huge.matches_condition(&u64::MAX.to_le_bytes(), FuzzyCondition::Equal(-1)),
        Some(false)
    );
    let negative = item(8, ValueType::I64, u64::MAX);
    assert_eq!(
        negative.matches_condition(&u64::MAX.to_le_bytes(), FuzzyCondition::Equal(-1)),
        Some(true)
    );
}

#[test]
fn matches_condition_leaves_floats_undecided() {
    let single = item(0, ValueType::F32, 0x3F80_0000);
    assert_eq!(single.matches_condition(&[0, 0, 0x80, 0x3F], FuzzyCondition::Unchanged), None);
    let double = item(0, ValueType::F64, 0);
    assert_eq!(double.matches_condition(&[0; 8], FuzzyCondition::Equal(0)), None);
}

#[test]
fn result_set_keeps_one_item_per_address_in_order() {
    let mut set = FuzzyResultSet::new();
    assert!(set.is_empty());
    assert_eq!(set.len(), 0);
    assert!(set.insert(item(30, ValueType::U16, 3)));
    assert!(set.insert(item(10, ValueType::I8, 1)));
    assert!(set.insert(item(20, ValueType::F64, 2)));
    assert!(!set.insert(item(10, ValueType::U32, 9)));
    assert_eq!(set.len(), 3);
    assert!(!set.is_empty());
    assert_eq!(set.get(10), Some(item(10, ValueType::U32, 9)));
    assert_eq!(set.get(20), Some(item(20, ValueType::F64, 2)));
    assert_eq!(set.get(15), None);
    assert!(set.contains(30));
    assert!(!set.contains(31));
    assert_eq!(
        set.to_vec(),
        vec![
            item(10, ValueType::U32, 9),
            item(20, ValueType::F64, 2),
            item(30, ValueType::U16, 3)
        ]
    );
}

#[test]
fn result_set_holds_many_items() {
    let mut set = FuzzyResultSet::new();
    for i in (0..5000u64).rev() {
        set.insert(item(i * 4, ValueType::U32, i));
    }
    assert_eq!(set.len(), 5000);
    let all = set.to_vec();
    assert_eq!(all.len(), 5000);
    for (i, it) in all.iter().enumerate() {
        assert_eq!(*it, item(i as u64 * 4, ValueType::U32, i as u64));
    }
}

#[test]
fn single_page_scan_walks_aligned_values() {
    let mut buffer = vec![0u8; 2 * PAGE];
    for (i, b) in buffer.iter_mut().enumerate() {
        *b = (i % 251) as u8;
    }
    let items = scan_single_page(&buffer, BASE, BASE, BASE + 2 * PAGE as u64, 4, ValueType::U32, PAGE, 1);
    assert_eq!(items.len(), PAGE / 4);
    assert_eq!(items[0].address, BASE + PAGE as u64);
    assert_eq!(items[1].address, BASE + PAGE as u64 + 4);
    assert_eq!(
        items[0].value_bits,
        u32::from_le_bytes([buffer[PAGE], buffer[PAGE + 1], buffer[PAGE + 2], buffer[PAGE + 3]]) as u64
    );
    assert_eq!(items[PAGE / 4 - 1].address, BASE + 2 * PAGE as u64 - 4);
}

#[test]
fn single_page_scan_starts_at_the_first_aligned_address_in_range() {
    let buffer: Vec<u8> = (0..64u8).collect();
    let items = scan_single_page(&buffer, 0x1000, 0x1003, 0x1017, 8, ValueType::U64, PAGE, 0);
    assert_eq!(items.len(), 1);
    assert_eq!(items[0].address, 0x1008);
    assert_eq!(items[0].value_bits, u64::from_le_bytes([8, 9, 10, 11, 12, 13, 14, 15]));
    let none = scan_single_page(&buffer, 0x1000, 0x1003, 0x100F, 8, ValueType::U64, PAGE, 0);
    assert!(none.is_empty());
    let bytes = scan_single_page(&buffer, 0x1000, 0x1003, 0x1006, 1, ValueType::I8, PAGE, 0);
    assert_eq!(
        bytes,
        vec![
            item(0x1003, ValueType::I8, 3),
            item(0x1004, ValueType::I8, 4),
            item(0x1005, ValueType::I8, 5)
        ]
    );
}

#[test]
fn single_page_scan_of_page_past_the_buffer_is_empty() {
    let buffer = vec![0u8; PAGE];
    let items = scan_single_page(&buffer, BASE, 0, u64::MAX, 4, ValueType::U32, PAGE, 1);
    assert!(items.is_empty());
    let far = scan_single_page(&buffer, BASE, 0, u64::MAX, 4, ValueType::U32, usize::MAX, usize::MAX);
    assert!(far.is_empty());
}

#[test]
fn buffer_scan_takes_read_pages_only() {
    let buffer = vec![7u8; 3 * PAGE];
    let mut pages = PageStatusBitmap::new(3 * PAGE, BASE as usize, PAGE);
    pages.set_page_status(0, true);
    pages.set_page_status(2, true);
    let items = scan_buffer_parallel(&buffer, BASE, 0, u64::MAX, 2, ValueType::U16, PAGE, &pages);
    assert_eq!(items.len(), 2 * PAGE / 2);
    assert_eq!(items[0], item(BASE, ValueType::U16, 0x0707));
    assert_eq!(items[PAGE / 2].address, BASE + 2 * PAGE as u64);
    let outside = scan_buffer_parallel(&buffer, BASE, 0, BASE, 2, ValueType::U16, PAGE, &pages);
    assert!(outside.is_empty());
}

#[test]
fn initial_scan_of_a_zero_page() {
    let set = fuzzy_initial_scan(
        ValueType::U32,
        BASE,
        BASE + PAGE as u64,
        PAGE,
        PAGE,
        chunk_reader(vec![0u8; PAGE]),
        Some(&never),
    )
    .unwrap();
    assert_eq!(set.len(), PAGE / 4);
    let items = set.to_vec();
    for (i, it) in items.iter().enumerate() {
        assert_eq!(*it, item(BASE + 4 * i as u64, ValueType::U32, 0));
    }
}

#[test]
fn refine_equal_zero_keeps_all_and_changed_keeps_the_written_one() {
    let mut memory = vec![0u8; PAGE];
    let first = fuzzy_initial_scan(
        ValueType::U32,
        BASE,
        BASE + PAGE as u64,
        PAGE,
        PAGE,
        chunk_reader(memory.clone()),
        None::<&fn() -> bool>,
    )
    .unwrap();
    let items = first.to_vec();
    assert_eq!(items.len(), PAGE / 4);

    let all = fuzzy_refine_search(
        &items,
        FuzzyCondition::Equal(0),
        value_reader(memory.clone()),
        no_floats,
        &|_, _| {},
        Some(&never),
    )
    .unwrap();
    assert_eq!(all.to_vec(), items);

    memory[0x120..0x124].copy_from_slice(&1u32.to_le_bytes());
    let changed = fuzzy_refine_search(
        &items,
        FuzzyCondition::Changed,
        value_reader(memory.clone()),
        no_floats,
        &|_, _| {},
        Some(&never),
    )
    .unwrap();
    assert_eq!(changed.to_vec(), vec![item(BASE + 0x120, ValueType::U32, 1)]);
}

#[test]
fn refine_unchanged_twice_keeps_what_stays_readable() {
    let memory: Vec<u8> = (0..64u8).collect();
    let items: Vec<FuzzySearchResultItem> = (0..8u64)
        .map(|i| {
            FuzzySearchResultItem::from_bytes(
                BASE + 8 * i,
                &memory[8 * i as usize..8 * i as usize + 8],
                ValueType::I64,
            )
        })
        .collect();
    let readable = value_reader(memory[..40].to_vec());
    let once = fuzzy_refine_search(
        &items,
        FuzzyCondition::Unchanged,
        &readable,
        no_floats,
        &|_, _| {},
        Some(&never),
    )
    .unwrap()
    .to_vec();
    assert_eq!(once, items[..5].to_vec());
    let twice = fuzzy_refine_search(
        &once,
        FuzzyCondition::Unchanged,
        &readable,
        no_floats,
        &|_, _| {},
        Some(&never),
    )
    .unwrap()
    .to_vec();
    assert_eq!(twice, once);
}

#[test]
fn refine_of_nothing_is_empty() {
    let set = fuzzy_refine_search(
        &Vec::new(),
        FuzzyCondition::Changed,
        value_reader(Vec::new()),
        no_floats,
        &|_, _| panic!("no progress is expected"),
        Some(&never),
    )
    .unwrap();
    assert!(set.is_empty());
}

#[test]
fn refine_asks_the_float_decider_for_float_items() {
    let memory = vec![0u8; 16];
    let items = vec![item(BASE, ValueType::F32, 0), item(BASE + 4, ValueType::U32, 0), item(BASE + 8, ValueType::F64, 0)];
    let keep_doubles =
        |old: FuzzySearchResultItem, _bits: u64, _cond: FuzzyCondition| old.value_type == ValueType::F64;
    let set = fuzzy_refine_search(
        &items,
        FuzzyCondition::Changed,
        value_reader(memory),
        keep_doubles,
        &|_, _| {},
        Some(&never),
    )
    .unwrap();
    assert_eq!(set.to_vec(), vec![item(BASE + 8, ValueType::F64, 0)]);
}

#[test]
fn refine_stops_reading_when_cancelled_and_keeps_what_was_read() {
    let memory = vec![5u8; 1024];
    let items: Vec<FuzzySearchResultItem> =
        (0..250u64).map(|i| item(BASE + i, ValueType::U8, 5)).collect();
    let asked = std::cell::Cell::new(0);
    let cancel_on_second = || {
        asked.set(asked.get() + 1);
        asked.get() > 1
    };
    let progress = std::cell::RefCell::new(Vec::new());
    let set = fuzzy_refine_search(
        &items,
        FuzzyCondition::Unchanged,
        value_reader(memory),
        no_floats,
        &|done, found| progress.borrow_mut().push((done, found)),
        Some(&cancel_on_second),
    )
    .unwrap();
    assert_eq!(set.len(), 100);
    assert_eq!(set.to_vec(), items[..100].to_vec());
    assert_eq!(*progress.borrow(), vec![(100, 100), (250, 100)]);
}

#[test]
fn initial_scan_returns_what_it_has_when_cancelled() {
    let asked = std::cell::Cell::new(0);
    let cancel_on_second = || {
        asked.set(asked.get() + 1);
        asked.get() > 1
    };
    let set = fuzzy_initial_scan(
        ValueType::U64,
        BASE,
        BASE + 4 * PAGE as u64,
        PAGE,
        PAGE,
        chunk_reader(vec![1u8; 4 * PAGE]),
        Some(&cancel_on_second),
    )
    .unwrap();
    assert_eq!(set.len(), PAGE / 8);
}

#[test]
fn initial_scan_from_an_unaligned_start() {
    let memory: Vec<u8> = (0..2 * PAGE).map(|i| (i % 256) as u8).collect();
    let set = fuzzy_initial_scan(
        ValueType::U16,
        BASE + 5,
        BASE + 11,
        PAGE,
        PAGE,
        chunk_reader(memory),
        Some(&never),
    )
    .unwrap();
    assert_eq!(
        set.to_vec(),
        vec![
            item(BASE + 6, ValueType::U16, 0x0706),
            item(BASE + 8, ValueType::U16, 0x0908)
        ]
    );
}

#[test]
fn initial_scan_skips_chunks_that_cannot_be_read() {
    let read = |addr: u64, size: usize| {
        if addr == BASE {
            return None;
        }
        let mut pages = PageStatusBitmap::new(size, addr as usize, PAGE);
        pages.mark_all_success();
        Some(MemoryRead::new(vec![9u8; size], pages))
    };
    let set = fuzzy_initial_scan(
        ValueType::U8,
        BASE,
        BASE + 2 * PAGE as u64,
        PAGE,
        PAGE,
        read,
        Some(&never),
    )
    .unwrap();
    assert_eq!(set.len(), PAGE);
    assert!(!set.contains(BASE));
    assert_eq!(set.get(BASE + PAGE as u64), Some(item(BASE + PAGE as u64, ValueType::U8, 9)));
}

#[test]
fn filter_matching_keeps_matches_with_their_new_value() {
    let pairs = vec![
        (item(0, ValueType::U16, 10), vec![11u8, 0]),
        (item(2, ValueType::U16, 10), vec![10u8, 0]),
        (item(4, ValueType::I16, 0xFFFF), vec![1u8, 0]),
        (item(6, ValueType::U16, 0xFFFF), vec![1u8, 0]),
    ];
    assert_eq!(
        filter_matching(&pairs, FuzzyCondition::Increased, &no_floats),
        vec![item(0, ValueType::U16, 11), item(4, ValueType::I16, 1)]
    );
    assert_eq!(
        filter_matching(&pairs, FuzzyCondition::Unchanged, &no_floats),
        vec![item(2, ValueType::U16, 10)]
    );
}

#[test]
fn item_value_bytes_are_little_endian_and_as_many_as_the_type_has() {
    assert_eq!(item(0, ValueType::U32, 0x1234_5678).value_bytes(), vec![0x78, 0x56, 0x34, 0x12]);
    assert_eq!(item(0, ValueType::I8, 0xFE).value_bytes(), vec![0xFE]);
    assert_eq!(item(0, ValueType::U16, 1).value_bytes(), vec![1, 0]);
    assert_eq!(item(0, ValueType::F64, u64::MAX).value_bytes(), vec![0xFF; 8]);
    let bytes = [9u8, 8, 7, 6, 5, 4, 3, 2];
    for t in [ValueType::U8, ValueType::I16, ValueType::F32, ValueType::I64] {
        let made = FuzzySearchResultItem::from_bytes(0x10, &bytes, t);
        assert_eq!(made.value_bytes(), bytes[..t.size()].to_vec());
    }
}

#[test]
fn initial_scan_that_is_cancelled_at_once_reads_nothing() {
    let reads = std::cell::Cell::new(0);
    let read = |addr: u64, size: usize| {
        reads.set(reads.get() + 1);
        let mut pages = PageStatusBitmap::new(size, addr as usize, PAGE);
        pages.mark_all_success();
        Some(MemoryRead::new(vec![1u8; size], pages))
    };
    let always = || true;
    let set = fuzzy_initial_scan(
        ValueType::U32,
        BASE,
        BASE + 4 * PAGE as u64,
        PAGE,
        PAGE,
        read,
        Some(&always),
    )
    .unwrap();
    assert!(set.is_empty());
    assert_eq!(reads.get(), 0);
}

#[test]
fn refine_that_is_cancelled_at_once_reads_nothing() {
    let items: Vec<FuzzySearchResultItem> =
        (0..150u64).map(|i| item(BASE + i, ValueType::U8, 5)).collect();
    let reads = std::cell::Cell::new(0);
    let read = |_addr: u64, size: usize| {
        reads.set(reads.get() + 1);
        Some(vec![5u8; size])
    };
    let always = || true;
    let set = fuzzy_refine_search(
        &items,
        FuzzyCondition::Unchanged,
        read,
        no_floats,
        &|_, _| {},
        Some(&always),
    )
    .unwrap();
    assert!(set.is_empty());
    assert_eq!(reads.get(), 0);
}
