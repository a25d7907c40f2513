use mamu_core::error::ErrorKind;
use mamu_core::pointer_scan::chain_builder::assemble_chain;
use mamu_core::pointer_scan::chain_builder::build_pointer_chains;
use mamu_core::pointer_scan::chain_builder::build_pointer_chains_layered_bfs;
use mamu_core::pointer_scan::chain_builder::chain_sort_key;
use mamu_core::pointer_scan::chain_builder::classify_candidates;
use mamu_core::pointer_scan::chain_builder::classify_pointer;
use mamu_core::pointer_scan::chain_builder::find_pointers_to_range;
use mamu_core::pointer_scan::chain_builder::find_range_in_pointer_queue;
use mamu_core::pointer_scan::chain_builder::scatter_layer;
use mamu_core::pointer_scan::chain_builder::Candidate;
use mamu_core::pointer_scan::chain_builder::PathNode;
use mamu_core::pointer_scan::storage::MmapQueue;
use mamu_core::pointer_scan::types::PointerChain;
use mamu_core::pointer_scan::types::PointerChainStep;
use mamu_core::pointer_scan::types::PointerData;
use mamu_core::pointer_scan::types::PointerScanConfig;
use mamu_core::pointer_scan::types::VmStaticData;

fn queue_of(records: &[(u64, u64)]) -> MmapQueue {
    let mut q = MmapQueue::new().unwrap();
    for (address, value) in records {
        q.push(&PointerData::new(*address, *value)).unwrap();
    }
    q
}

fn module(name: &str, index: u32, base: u64, size: u64) -> VmStaticData {
    VmStaticData::new(String::from(name), index, base, size)
}

fn root(name: &str, index: u32, base_offset: i64) -> PointerChainStep {
    PointerChainStep::static_root(String::from(name), index, base_offset)
}

fn dynamic(offset: i64) -> PointerChainStep {
    PointerChainStep::dynamic_offset(offset)
}

fn chains(
    queue: &MmapQueue,
    modules: &[VmStaticData],
    config: &PointerScanConfig,
) -> Vec<PointerChain> {
    build_pointer_chains(queue, modules, config, |_, _| {}, || false).unwrap()
}

/// Walks a chain through the queue as a user would: read the pointer at the
/// current address, add the offset.
fn walk(queue: &MmapQueue, modules: &[VmStaticData], chain: &PointerChain) -> Option<u64> {
    let mut address = match &chain.steps[0] {
        PointerChainStep::StaticRoot { module_name, module_index, base_offset } => {
            let m = modules
                .iter()
                .find(|m| &m.name == module_name && m.index == *module_index)?;
            m.base.wrapping_add(*base_offset as u64)
        }
        PointerChainStep::DynamicOffset { .. } => return None,
    };
    for step in &chain.steps[1..] {
        let offset = match step {
            PointerChainStep::DynamicOffset { offset } => *offset,
            PointerChainStep::StaticRoot { .. } => return None,
        };
        let mut value = None;
        for i in 0..queue.len() {
            let r = queue.get(i).unwrap();
            if r.address == address {
                value = Some(r.value);
            }
        }
        address = value?.wrapping_add(offset as u64);
    }
    Some(address)
}

#[test]
fn find_range_gives_half_open_index_range() {
    let q = queue_of(&[(1, 10), (2, 20), (3, 20), (4, 30), (5, 40)]);
    assert_eq!(find_range_in_pointer_queue(&q, 20, 31), (1, 4));
    assert_eq!(find_range_in_pointer_queue(&q, 20, 30), (1, 3));
    assert_eq!(find_range_in_pointer_queue(&q, 0, 10), (0, 0));
    assert_eq!(find_range_in_pointer_queue(&q, 0, 11), (0, 1));
    assert_eq!(find_range_in_pointer_queue(&q, 41, 50), (5, 5));
    assert_eq!(find_range_in_pointer_queue(&q, 0, u64::MAX), (0, 5));
    assert_eq!(find_range_in_pointer_queue(&q, 30, 20), (3, 3));
}

#[test]
fn find_range_in_empty_queue() {
    let q = queue_of(&[]);
    assert_eq!(find_range_in_pointer_queue(&q, 0, u64::MAX), (0, 0));
}

#[test]
fn find_pointers_to_range_keeps_those_within_reach() {
    let q = queue_of(&[(10, 100), (20, 105), (30, 115)]);
    assert_eq!(find_pointers_to_range(&q, 107, 5), vec![(20, 2)]);
}

#[test]
fn find_pointers_to_range_signs_the_offset() {
    let q = queue_of(&[(10, 100), (20, 105), (30, 115)]);
    assert_eq!(find_pointers_to_range(&q, 107, 8), vec![(10, 7), (20, 2), (30, -8)]);
    assert_eq!(find_pointers_to_range(&q, 107, 7), vec![(10, 7), (20, 2)]);
    assert_eq!(find_pointers_to_range(&q, 115, 0), vec![(30, 0)]);
    assert_eq!(find_pointers_to_range(&q, 116, 0), Vec::<(u64, i64)>::new());
}

#[test]
fn find_pointers_to_range_at_the_top_of_the_address_space() {
    let q = queue_of(&[(1, 5), (2, u64::MAX - 3), (3, u64::MAX)]);
    assert_eq!(find_pointers_to_range(&q, u64::MAX, 0), vec![(3, 0)]);
    assert_eq!(find_pointers_to_range(&q, u64::MAX - 1, 2), vec![(2, 2), (3, -1)]);
    assert_eq!(
        find_pointers_to_range(&q, u64::MAX, u32::MAX),
        vec![(2, 3), (3, 0)]
    );
}

#[test]
fn find_pointers_to_range_at_the_bottom_of_the_address_space() {
    let q = queue_of(&[(1, 0), (2, 3), (3, 9)]);
    assert_eq!(find_pointers_to_range(&q, 2, 5), vec![(1, 2), (2, -1)]);
    assert_eq!(find_pointers_to_range(&q, 0, 3), vec![(1, 0), (2, -3)]);
}

#[test]
fn find_pointers_matches_a_plain_filter() {
    let records: Vec<(u64, u64)> = (0..200u64).map(|i| (1000 + i, (i * 7) / 3)).collect();
    let q = queue_of(&records);
    for (target, reach) in [(0u64, 0u32), (50, 3), (100, 40), (466, 1), (470, 10), (9999, 5)] {
        let expected: Vec<(u64, i64)> = records
            .iter()
            .filter(|(_, v)| (*v as i128 - target as i128).abs() <= reach as i128)
            .map(|(a, v)| (*a, (target as i128 - *v as i128) as i64))
            .collect();
        assert_eq!(find_pointers_to_range(&q, target, reach), expected);
    }
}

#[test]
fn classify_pointer_takes_the_first_module_that_contains() {
    let modules = vec![
        module("libA", 0, 0x400000, 0x1000),
        module("libB", 1, 0x400800, 0x1000),
        module("libC", 7, 0x900000, 0x10),
    ];
    assert_eq!(
        classify_pointer(0x400900, &modules),
        Some((String::from("libA"), 0, 0x900))
    );
    assert_eq!(
        classify_pointer(0x401000, &modules),
        Some((String::from("libB"), 1, 0x800))
    );
    assert_eq!(
        classify_pointer(0x90000f, &modules),
        Some((String::from("libC"), 7, 0xf))
    );
    assert_eq!(classify_pointer(0x900010, &modules), None);
    assert_eq!(classify_pointer(0x3fffff, &modules), None);
    assert_eq!(classify_pointer(0x400000, &[]), None);
}

#[test]
fn module_contains_and_offset() {
    let m = module("libA", 3, 0x1000, 0x100);
    assert!(m.contains(0x1000));
    assert!(m.contains(0x10ff));
    assert!(!m.contains(0x1100));
    assert!(!m.contains(0xfff));
    assert_eq!(m.offset_from_base(0x1040), 0x40);
    assert_eq!(m.offset_from_base(0xfff), u64::MAX);
    let top = module("top", 0, u64::MAX - 1, 10);
    assert!(top.contains(u64::MAX));
}

#[test]
fn path_node_child_extends_history() {
    let start = PathNode::new(0x20000);
    assert_eq!(start.current_target, 0x20000);
    assert_eq!(start.depth(), 0);
    let child = start.child(0x10000, 8);
    let grandchild = child.child(0x9000, -16);
    assert_eq!(child.current_target, 0x10000);
    assert_eq!(child.offset_history, vec![8]);
    assert_eq!(grandchild.current_target, 0x9000);
    assert_eq!(grandchild.offset_history, vec![8, -16]);
    assert_eq!(grandchild.depth(), 2);
    assert_eq!(start.depth(), 0);
    let roomy = PathNode::with_capacity(5, 10);
    assert_eq!(roomy.current_target, 5);
    assert_eq!(roomy.depth(), 0);
}

#[test]
fn chain_depth_counts_steps_after_the_root() {
    let mut chain = PointerChain::with_capacity(0x20000, 3);
    assert_eq!(chain.depth(), 0);
    chain.push(root("libA", 0, 0x100));
    assert_eq!(chain.depth(), 0);
    chain.push(dynamic(4));
    chain.push(dynamic(-4));
    assert_eq!(chain.depth(), 2);
    assert_eq!(chain.target, 0x20000);
    assert!(chain.steps[0].is_static_root());
    assert!(!chain.steps[1].is_static_root());
}

#[test]
fn assemble_chain_reverses_history_and_drops_zero_root_offset() {
    let parent = PathNode::new(100).child(90, 1).child(80, 2).child(70, 3);
    let with_offset = assemble_chain(
        100,
        (String::from("m"), 2, 0x10),
        &Candidate { ptr_address: 60, offset: 5, parent_idx: 0 },
        &parent,
    );
    assert_eq!(
        with_offset.steps,
        vec![root("m", 2, 0x10), dynamic(5), dynamic(3), dynamic(2), dynamic(1)]
    );
    let without = assemble_chain(
        100,
        (String::from("m"), 2, 0x10),
        &Candidate { ptr_address: 60, offset: 0, parent_idx: 0 },
        &parent,
    );
    assert_eq!(without.steps, vec![root("m", 2, 0x10), dynamic(3), dynamic(2), dynamic(1)]);
    assert_eq!(without.target, 100);
}

#[test]
fn scatter_layer_marks_each_pointer_with_its_node() {
    let q = queue_of(&[(0x10, 100), (0x20, 200), (0x30, 204)]);
    let layer = vec![PathNode::new(204), PathNode::new(100), PathNode::new(999)];
    assert_eq!(
        scatter_layer(&q, &layer, 4),
        vec![
            Candidate { ptr_address: 0x20, offset: 4, parent_idx: 0 },
            Candidate { ptr_address: 0x30, offset: 0, parent_idx: 0 },
            Candidate { ptr_address: 0x10, offset: 0, parent_idx: 1 },
        ]
    );
}

#[test]
fn classify_candidates_emits_chains_and_next_level() {
    let modules = vec![module("libA", 0, 0x400000, 0x1000)];
    let config = PointerScanConfig::new(0x20000, 3, 16, 8, true);
    let layer = vec![PathNode::new(0x20000)];
    let candidates = vec![
        Candidate { ptr_address: 0x20000, offset: 0, parent_idx: 0 },
        Candidate { ptr_address: 0x400010, offset: 8, parent_idx: 0 },
        Candidate { ptr_address: 0x10000, offset: -8, parent_idx: 0 },
    ];
    let mut results = Vec::new();
    let next = classify_candidates(&candidates, &layer, &modules, &config, 0, &mut results);
    assert_eq!(results.len(), 1);
    assert_eq!(results[0].steps, vec![root("libA", 0, 0x10), dynamic(8)]);
    assert_eq!(next.len(), 1);
    assert_eq!(next[0].current_target, 0x10000);
    assert_eq!(next[0].offset_history, vec![-8]);

    let follow_all = PointerScanConfig::new(0x20000, 3, 16, 8, false);
    let mut more = Vec::new();
    let next = classify_candidates(&candidates, &layer, &modules, &follow_all, 0, &mut more);
    assert_eq!(more.len(), 1);
    assert_eq!(next.len(), 2);
    assert_eq!(next[0].current_target, 0x400010);
    assert_eq!(next[1].current_target, 0x10000);

    let mut last_level = Vec::new();
    let next = classify_candidates(&candidates, &layer, &modules, &follow_all, 2, &mut last_level);
    assert_eq!(last_level.len(), 1);
    assert!(next.is_empty());
}

#[test]
fn two_level_chain_through_exact_pointers() {
    let modules = vec![module("libA", 0, 0x400000, 0x1000)];
    let q = queue_of(&[(0x400100, 0x10000), (0x10000, 0x20000)]);
    let config = PointerScanConfig::new(0x20000, 2, 0, 8, false);
    let found = chains(&q, &modules, &config);
    assert_eq!(found.len(), 1);
    assert_eq!(found[0].target, 0x20000);
    assert_eq!(found[0].steps, vec![root("libA", 0, 0x100), dynamic(0)]);
    assert_eq!(found[0].depth(), 1);
}

#[test]
fn no_chain_when_nothing_points_at_the_intermediate_address() {
    // With the second record at 0x10100 and no reach, nothing points at
    // 0x10100, so the search ends after the first level.
    let modules = vec![module("libA", 0, 0x400000, 0x1000)];
    let q = queue_of(&[(0x400100, 0x10000), (0x10100, 0x20000)]);
    let config = PointerScanConfig::new(0x20000, 2, 0, 8, false);
    assert!(chains(&q, &modules, &config).is_empty());
}

#[test]
fn chain_through_a_pointer_within_reach_walks_to_target() {
    let modules = vec![module("libA", 0, 0x400000, 0x1000)];
    let q = queue_of(&[(0x400100, 0x10000), (0x10100, 0x20000)]);
    let config = PointerScanConfig::new(0x20000, 2, 0x100, 8, false);
    let found = chains(&q, &modules, &config);
    assert_eq!(found.len(), 1);
    assert_eq!(found[0].steps, vec![root("libA", 0, 0x100), dynamic(0x100), dynamic(0)]);
    assert_eq!(found[0].depth(), 2);
    assert_eq!(walk(&q, &modules, &found[0]), Some(0x20000));
}

#[test]
fn chains_have_root_first_and_bounded_depth() {
    let modules = vec![module("libA", 0, 0x400000, 0x1000), module("libB", 1, 0x500000, 0x1000)];
    let q = queue_of(&[
        (0x400010, 0x0FF8),
        (0x500020, 0x1FF8),
        (0x1000, 0x2FFC),
        (0x2000, 0x3FFC),
        (0x3000, 0x4FF0),
        (0x500040, 0x4FF8),
    ]);
    let config = PointerScanConfig::new(0x5000, 4, 0x10, 8, false);
    let found = chains(&q, &modules, &config);
    assert!(!found.is_empty());
    for chain in &found {
        assert!(chain.steps[0].is_static_root());
        assert!(chain.steps[1..].iter().all(|s| !s.is_static_root()));
        assert!(1 <= chain.depth() && chain.depth() <= 4);
        assert_eq!(chain.target, 0x5000);
        assert_eq!(walk(&q, &modules, chain), Some(0x5000));
    }
    let depths: Vec<usize> = found.iter().map(|c| c.depth()).collect();
    let mut sorted = depths.clone();
    sorted.sort();
    assert_eq!(depths, sorted);
    assert_eq!(
        found[0].steps,
        vec![root("libB", 1, 0x40), dynamic(8)]
    );
    assert_eq!(found.len(), 2);
    assert_eq!(
        found[1].steps,
        vec![root("libA", 0, 0x10), dynamic(8), dynamic(4), dynamic(0x10)]
    );
}

#[test]
fn chains_are_sorted_by_depth_then_module_name() {
    let modules = vec![
        module("zeta", 0, 0x100000, 0x100),
        module("alpha", 1, 0x200000, 0x100),
        module("mid", 2, 0x300000, 0x100),
    ];
    let q = queue_of(&[
        (0x300000, 0x6FF0),
        (0x7000, 0x8FF0),
        (0x100000, 0x8FF8),
        (0x200000, 0x8FFC),
        (0x300008, 0x8FFE),
    ]);
    let config = PointerScanConfig::new(0x9000, 2, 0x10, 8, false);
    let found = chains(&q, &modules, &config);
    let keys: Vec<(usize, String)> = found
        .iter()
        .map(|c| {
            let key = chain_sort_key(c);
            (key.0, key.1.unwrap())
        })
        .collect();
    assert_eq!(
        keys,
        vec![
            (1, String::from("alpha")),
            (1, String::from("mid")),
            (1, String::from("zeta")),
            (2, String::from("mid")),
        ]
    );
    assert_eq!(found[3].steps, vec![root("mid", 2, 0), dynamic(0x10), dynamic(0x10)]);
}

#[test]
fn chain_sort_key_of_rootless_chain_has_no_name() {
    let mut chain = PointerChain::with_capacity(1, 0);
    assert_eq!(chain_sort_key(&chain), (0, None));
    chain.push(dynamic(3));
    assert_eq!(chain_sort_key(&chain), (0, None));
}

#[test]
fn static_only_search_does_not_follow_static_pointers() {
    let modules = vec![module("libA", 0, 0x400000, 0x1000)];
    let q = queue_of(&[(0x400100, 0x20000), (0x400200, 0x400100)]);
    let stop_at_static = PointerScanConfig::new(0x20000, 3, 0, 8, true);
    let found = chains(&q, &modules, &stop_at_static);
    assert_eq!(found.len(), 1);
    assert_eq!(found[0].steps, vec![root("libA", 0, 0x100)]);
    let follow = PointerScanConfig::new(0x20000, 3, 0, 8, false);
    let found = chains(&q, &modules, &follow);
    assert_eq!(found.len(), 2);
    assert_eq!(found[0].steps, vec![root("libA", 0, 0x100)]);
    assert_eq!(found[1].steps, vec![root("libA", 0, 0x200), dynamic(0)]);
}

#[test]
fn pointer_at_the_target_itself_is_not_followed() {
    let modules = vec![module("libA", 0, 0x20000, 0x1000)];
    let q = queue_of(&[(0x20000, 0x20000)]);
    let config = PointerScanConfig::new(0x20000, 3, 0, 8, false);
    assert!(chains(&q, &modules, &config).is_empty());
}

#[test]
fn depth_zero_finds_nothing() {
    let modules = vec![module("libA", 0, 0x400000, 0x1000)];
    let q = queue_of(&[(0x400100, 0x20000)]);
    let config = PointerScanConfig::new(0x20000, 0, 0, 8, false);
    assert!(chains(&q, &modules, &config).is_empty());
}

#[test]
fn builder_reports_progress_per_level_and_at_the_end() {
    let modules = vec![module("libA", 0, 0x400000, 0x1000)];
    let q = queue_of(&[(0x400100, 0x10000), (0x10000, 0x20000)]);
    let config = PointerScanConfig::new(0x20000, 5, 0, 8, false);
    let calls = std::cell::RefCell::new(Vec::new());
    let found = build_pointer_chains_layered_bfs(
        &q,
        &modules,
        &config,
        |depth, count| calls.borrow_mut().push((depth, count)),
        || false,
    )
    .unwrap();
    assert_eq!(found.len(), 1);
    assert_eq!(*calls.borrow(), vec![(1, 0), (2, 1), (3, 1), (5, 1)]);
}

#[test]
fn builder_stops_with_cancelled() {
    let modules = vec![module("libA", 0, 0x400000, 0x1000)];
    let q = queue_of(&[(0x400100, 0x20000)]);
    let config = PointerScanConfig::new(0x20000, 2, 0, 8, false);
    let result = build_pointer_chains(&q, &modules, &config, |_, _| {}, || true);
    assert_eq!(result.err(), Some(ErrorKind::Cancelled));
}

#[test]
fn config_validity() {
    assert!(PointerScanConfig::new(0, 1, 0, 1, false).is_valid());
    assert!(PointerScanConfig::new(0, 7, 0, 8, true).is_valid());
    assert!(PointerScanConfig::new(0, 1, 0, 0x8000_0000, false).is_valid());
    assert!(!PointerScanConfig::new(0, 0, 0, 8, false).is_valid());
    assert!(!PointerScanConfig::new(0, 1, 0, 0, false).is_valid());
    assert!(!PointerScanConfig::new(0, 1, 0, 12, false).is_valid());
}

#[test]
fn builder_that_is_cancelled_at_once_searches_nothing() {
    let modules = vec![module("libA", 0, 0x400000, 0x1000)];
    let q = queue_of(&[(0x400100, 0x20000)]);
    let config = PointerScanConfig::new(0x20000, 1, 0, 8, false);
    let progress = std::cell::Cell::new(0);
    let result = build_pointer_chains_layered_bfs(
        &q,
        &modules,
        &config,
        |_, _| progress.set(progress.get() + 1),
        || true,
    );
    assert_eq!(result.err(), Some(ErrorKind::Cancelled));
    assert_eq!(progress.get(), 0);
    let no_levels = PointerScanConfig::new(0x20000, 0, 0, 8, false);
    let found = build_pointer_chains(&q, &modules, &no_levels, |_, _| {}, || true).unwrap();
    assert!(found.is_empty());
}

#[test]
fn chain_roots_lie_inside_their_modules() {
    let modules = vec![module("libA", 4, 0x400000, 0x1000), module("libB", 9, 0x500000, 0x1000)];
    let q = queue_of(&[(0x400ff8, 0x4FF0), (0x500000, 0x4FF8), (0x401000, 0x5000)]);
    let config = PointerScanConfig::new(0x5000, 2, 0x10, 8, false);
    let found = chains(&q, &modules, &config);
    assert_eq!(found.len(), 2);
    for chain in &found {
        match &chain.steps[0] {
            PointerChainStep::StaticRoot { module_name, module_index, base_offset } => {
                let m = modules
                    .iter()
                    .find(|m| &m.name == module_name && m.index == *module_index)
                    .unwrap();
                assert!(m.contains(m.base + *base_offset as u64));
            }
            PointerChainStep::DynamicOffset { .. } => panic!("a chain starts with its root"),
        }
    }
}
