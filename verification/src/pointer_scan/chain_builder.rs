//! Phase two of the pointer scan: from the target address back through the
//! sorted pointer queue to the static modules.
//!
//! The search runs level by level. A level holds the addresses that are
//! known to lead to the target, each with the offsets that lead there. For
//! every such address the queue is searched for pointers whose value lies
//! within reach of it; a pointer that sits in a static module completes a
//! chain, and the others form the next level. No address is barred for
//! having been seen before: two paths through one address are two chains.

use crate::error::spec_always_cancels;
use crate::error::ErrorKind;
use crate::pointer_scan::storage::MmapQueue;
use crate::pointer_scan::types::spec_sorted_by_value;
use crate::pointer_scan::types::PointerChain;
use crate::pointer_scan::types::PointerChainStep;
use crate::pointer_scan::types::PointerChainView;
use crate::pointer_scan::types::PointerData;
use crate::pointer_scan::types::PointerScanConfig;
use crate::pointer_scan::types::VmStaticData;
use crate::seq_facts::lemma_all_filter;
use crate::seq_facts::lemma_all_flatten;
use crate::seq_facts::lemma_all_map;
use crate::seq_facts::lemma_all_same_members;
use rayon::slice::ParallelSliceMut;
use vstd::prelude::*;

verus! {

/// Index pair `(start, end)` of the records whose value lies in
/// `[min_value, max_value)`, found by two binary searches. `start` is the
/// first record that is not below `min_value`; `end` is the first from
/// `start` on that is not below `max_value`.
pub fn find_range_in_pointer_queue(queue: &MmapQueue, min_value: u64, max_value: u64) -> (r: (
    usize,
    usize,
))
    requires
        queue.well_formed(),
        spec_sorted_by_value(queue@),
    ensures
        r.0 <= r.1 <= queue@.len(),
        forall|i: int| 0 <= i < r.0 ==> (#[trigger] queue@[i]).value < min_value,
        forall|i: int| r.0 <= i < queue@.len() ==> (#[trigger] queue@[i]).value >= min_value,
        forall|i: int| r.0 <= i < r.1 ==> (#[trigger] queue@[i]).value < max_value,
        forall|i: int| r.1 <= i < queue@.len() ==> (#[trigger] queue@[i]).value >= max_value,
{
    let count = queue.len();
    if count == 0 {
        return (0, 0);
    }
    let mut left: usize = 0;
    let mut right: usize = count;
    while left < right
        invariant
            0 <= left <= right <= count,
            count == queue@.len(),
            queue.well_formed(),
            spec_sorted_by_value(queue@),
            forall|i: int| 0 <= i < left ==> (#[trigger] queue@[i]).value < min_value,
            forall|i: int| right <= i < count ==> (#[trigger] queue@[i]).value >= min_value,
        decreases right - left,
    {
        let mid = left + (right - left) / 2;
        match queue.get(mid) {
            Some(record) => {
                if record.value < min_value {
                    left = mid + 1;
                } else {
                    right = mid;
                }
            },
            None => {
                right = mid;
            },
        }
    }
    let start_idx = left;

    right = count;
    while left < right
        invariant
            0 <= start_idx <= left <= right <= count,
            count == queue@.len(),
            queue.well_formed(),
            spec_sorted_by_value(queue@),
            forall|i: int| start_idx <= i < left ==> (#[trigger] queue@[i]).value < max_value,
            forall|i: int| right <= i < count ==> (#[trigger] queue@[i]).value >= max_value,
        decreases right - left,
    {
        let mid = left + (right - left) / 2;
        match queue.get(mid) {
            Some(record) => {
                if record.value < max_value {
                    left = mid + 1;
                } else {
                    right = mid;
                }
            },
            None => {
                right = mid;
            },
        }
    }
    (start_idx, left)
}

/// `value` lies no further than `max_offset` from `target`, on either side.
pub open spec fn spec_in_window(value: u64, target: u64, max_offset: u32) -> bool {
    target - max_offset <= value <= target + max_offset
}

/// What must be added to `value` to reach `target`. Positive where the
/// value lies below the target.
pub open spec fn spec_offset_to(target: u64, value: u64) -> i64 {
    (target - value) as i64
}

/// A record reaches `target` within `max_offset`.
pub open spec fn spec_record_in_window(target: u64, max_offset: u32) -> spec_fn(
    PointerData,
) -> bool {
    |record: PointerData| spec_in_window(record.value, target, max_offset)
}

/// The address of a record, with its offset to `target`.
pub open spec fn spec_record_offset(target: u64) -> spec_fn(PointerData) -> (u64, i64) {
    |record: PointerData| (record.address, spec_offset_to(target, record.value))
}

/// The pointers that reach `target` within `max_offset`: the records whose
/// value lies in the window, in queue order, each as its address and its
/// offset to the target.
pub open spec fn spec_pointers_to_range(
    records: Seq<PointerData>,
    target: u64,
    max_offset: u32,
) -> Seq<(u64, i64)> {
    records.filter(spec_record_in_window(target, max_offset)).map_values(
        spec_record_offset(target),
    )
}

/// Where a predicate holds exactly on the indices `[lo, hi)`, filtering by
/// it cuts that range out.
proof fn lemma_filter_is_subrange(
    records: Seq<PointerData>,
    pred: spec_fn(PointerData) -> bool,
    lo: int,
    hi: int,
)
    requires
        0 <= lo <= hi <= records.len(),
        forall|i: int| 0 <= i < records.len() ==> (pred(#[trigger] records[i]) <==> lo <= i < hi),
    ensures
        records.filter(pred) == records.subrange(lo, hi),
    decreases records.len(),
{
    reveal(Seq::filter);
    if records.len() == 0 {
        assert(records.subrange(lo, hi) =~= records);
    } else {
        let front = records.drop_last();
        let last_index = records.len() - 1;
        assert forall|i: int| 0 <= i < front.len() implies (pred(#[trigger] front[i]) <==> (
        if lo < last_index {
            lo
        } else {
            last_index
        }) <= i < (if hi < last_index {
            hi
        } else {
            last_index
        })) by {
            assert(front[i] == records[i]);
        }
        if hi == records.len() && lo < hi {
            lemma_filter_is_subrange(front, pred, lo, hi - 1);
            assert(pred(records[last_index]));
            assert(front.subrange(lo, hi - 1).push(records.last()) =~= records.subrange(lo, hi));
        } else if hi == records.len() {
            lemma_filter_is_subrange(front, pred, last_index, last_index);
            assert(!pred(records[last_index]));
            assert(front.subrange(last_index, last_index) =~= records.subrange(lo, hi));
        } else {
            lemma_filter_is_subrange(front, pred, lo, hi);
            assert(!pred(records[last_index]));
            assert(front.subrange(lo, hi) =~= records.subrange(lo, hi));
        }
    }
}

/// All pointers whose value lies in
/// `[target - max_offset, target + max_offset]`, the bounds held inside
/// `u64`. Each comes as its address and the signed offset from its value to
/// `target`.
pub fn find_pointers_to_range(pointer_lib: &MmapQueue, target: u64, max_offset: u32) -> (r: Vec<
    (u64, i64),
>)
    requires
        pointer_lib.well_formed(),
        spec_sorted_by_value(pointer_lib@),
    ensures
        r@ == spec_pointers_to_range(pointer_lib@, target, max_offset),
{
    let min_value = target.saturating_sub(max_offset as u64);
    let (start_idx, end_idx) = match target.checked_add(max_offset as u64 + 1) {
        Some(max_value) => find_range_in_pointer_queue(pointer_lib, min_value, max_value),
        None => {
            let (start, _) = find_range_in_pointer_queue(pointer_lib, min_value, u64::MAX);
            (start, pointer_lib.len())
        },
    };
    let ghost in_window = spec_record_in_window(target, max_offset);
    let ghost with_offset = spec_record_offset(target);
    let ghost records = pointer_lib@;
    proof {
        lemma_filter_is_subrange(records, in_window, start_idx as int, end_idx as int);
    }
    let ghost hits = records.subrange(start_idx as int, end_idx as int);
    let mut results: Vec<(u64, i64)> = Vec::with_capacity(end_idx - start_idx);
    let mut i = start_idx;
    assert(hits.take(0).map_values(with_offset) =~= Seq::<(u64, i64)>::empty());
    while i < end_idx
        invariant
            start_idx <= i <= end_idx <= records.len(),
            records == pointer_lib@,
            pointer_lib.well_formed(),
            hits == records.subrange(start_idx as int, end_idx as int),
            with_offset == spec_record_offset(target),
            forall|k: int|
                start_idx <= k < end_idx ==> spec_in_window(
                    (#[trigger] records[k]).value,
                    target,
                    max_offset,
                ),
            results@ == hits.take(i - start_idx).map_values(with_offset),
        decreases end_idx - i,
    {
        match pointer_lib.get(i) {
            Some(record) => {
                let offset: i64 = if target >= record.value {
                    (target - record.value) as i64
                } else {
                    -((record.value - target) as i64)
                };
                assert(spec_in_window(records[i as int].value, target, max_offset));
                assert(offset == spec_offset_to(target, record.value));
                results.push((record.address, offset));
            },
            None => {},
        }
        proof {
            let done = i - start_idx;
            assert(hits.take(done + 1) =~= hits.take(done).push(hits[done]));
            hits.take(done).lemma_push_map_commute(with_offset, hits[done]);
        }
        i = i + 1;
    }
    assert(hits.take(end_idx - start_idx) =~= hits);
    results
}

/// Module `i` is the first that contains `address`.
pub open spec fn spec_is_first_module(modules: Seq<VmStaticData>, address: u64, i: int) -> bool {
    &&& 0 <= i < modules.len()
    &&& modules[i].spec_contains(address)
    &&& forall|j: int| 0 <= j < i ==> !(#[trigger] modules[j]).spec_contains(address)
}

/// Some module contains `address`.
pub open spec fn spec_in_static_module(modules: Seq<VmStaticData>, address: u64) -> bool {
    exists|i: int| 0 <= i < modules.len() && (#[trigger] modules[i]).spec_contains(address)
}

/// Name, index and base offset of `address` in the first module that
/// contains it; `None` where no module does.
pub open spec fn spec_classify(modules: Seq<VmStaticData>, address: u64) -> Option<
    (String, u32, u64),
> {
    if spec_in_static_module(modules, address) {
        let i = choose|i: int| spec_is_first_module(modules, address, i);
        Some((modules[i].name, modules[i].index, modules[i].spec_offset_from_base(address)))
    } else {
        None
    }
}

/// Looks `address` up in the static modules. The first module that contains
/// it wins.
pub fn classify_pointer(address: u64, static_modules: &[VmStaticData]) -> (r: Option<
    (String, u32, u64),
>)
    ensures
        r == spec_classify(static_modules@, address),
{
    let mut i: usize = 0;
    while i < static_modules.len()
        invariant
            0 <= i <= static_modules@.len(),
            forall|j: int| 0 <= j < i ==> !(#[trigger] static_modules@[j]).spec_contains(address),
        decreases static_modules@.len() - i,
    {
        let module = &static_modules[i];
        if module.contains(address) {
            let offset = module.offset_from_base(address);
            proof {
                assert(spec_is_first_module(static_modules@, address, i as int));
                let chosen = choose|k: int| spec_is_first_module(static_modules@, address, k);
                assert(chosen == i) by {
                    if chosen < i {
                        assert(!static_modules@[chosen].spec_contains(address));
                    }
                }
            }
            return Some((module.name.clone(), module.index, offset));
        }
        i = i + 1;
    }
    None
}

/// A node of the search as a value.
pub struct PathNodeView {
    pub current_target: u64,
    pub offset_history: Seq<i64>,
}

/// An address that leads to the target, with the offsets that were taken
/// from the target to get here: the first is the one nearest the target.
#[derive(Clone, Debug)]
pub struct PathNode {
    pub current_target: u64,
    pub offset_history: Vec<i64>,
}

impl View for PathNode {
    type V = PathNodeView;

    open spec fn view(&self) -> PathNodeView {
        PathNodeView { current_target: self.current_target, offset_history: self.offset_history@ }
    }
}

impl PathNode {
    /// The node the search starts from: the target itself, no offset taken.
    pub fn new(target: u64) -> (r: Self)
        ensures
            r@ == (PathNodeView { current_target: target, offset_history: Seq::empty() }),
    {
        PathNode { current_target: target, offset_history: Vec::new() }
    }

    /// As [`Self::new`], with room for `capacity` offsets.
    pub fn with_capacity(target: u64, capacity: usize) -> (r: Self)
        ensures
            r@ == (PathNodeView { current_target: target, offset_history: Seq::empty() }),
    {
        PathNode { current_target: target, offset_history: Vec::with_capacity(capacity) }
    }

    /// Number of offsets taken to get here.
    pub fn depth(&self) -> (r: usize)
        ensures
            r == self@.offset_history.len(),
    {
        self.offset_history.len()
    }

    /// The node one level further from the target: the pointer at
    /// `ptr_address` leads here by `offset`.
    pub fn child(&self, ptr_address: u64, offset: i64) -> (r: Self)
        ensures
            r@ == (PathNodeView {
                current_target: ptr_address,
                offset_history: self@.offset_history.push(offset),
            }),
    {
        let mut new_history: Vec<i64> = Vec::with_capacity(
            self.offset_history.len().saturating_add(1),
        );
        let mut i: usize = 0;
        while i < self.offset_history.len()
            invariant
                0 <= i <= self.offset_history@.len(),
                new_history@ == self.offset_history@.take(i as int),
            decreases self.offset_history@.len() - i,
        {
            new_history.push(self.offset_history[i]);
            assert(self.offset_history@.take(i + 1) =~= self.offset_history@.take(i as int).push(
                self.offset_history@[i as int],
            ));
            i = i + 1;
        }
        assert(self.offset_history@.take(i as int) =~= self.offset_history@);
        new_history.push(offset);
        PathNode { current_target: ptr_address, offset_history: new_history }
    }
}

/// A pointer found while a level was searched.
#[derive(Clone, Copy, Debug, PartialEq, Eq, Structural)]
pub struct Candidate {
    /// Where the pointer sits.
    pub ptr_address: u64,
    /// What must be added to its value to reach the parent's address.
    pub offset: i64,
    /// Index of the parent node in its level.
    pub parent_idx: usize,
}

/// Greatest number of nodes that a level keeps.
pub const MAX_CANDIDATES_PER_LAYER: usize = 30_000_000;

/// The nodes of a level as values.
pub open spec fn spec_layer_view(layer: Seq<PathNode>) -> Seq<PathNodeView> {
    layer.map_values(|node: PathNode| node@)
}

/// Marks a found pointer with the index of the node it leads to.
pub open spec fn spec_tag_parent(parent: int) -> spec_fn((u64, i64)) -> Candidate {
    |found: (u64, i64)|
        Candidate { ptr_address: found.0, offset: found.1, parent_idx: parent as usize }
}

/// The candidates of one node: the pointers that reach its address.
pub open spec fn spec_node_candidates(
    records: Seq<PointerData>,
    layer: Seq<PathNodeView>,
    parent: int,
    max_offset: u32,
) -> Seq<Candidate> {
    spec_pointers_to_range(records, layer[parent].current_target, max_offset).map_values(
        spec_tag_parent(parent),
    )
}

/// The candidates of a level: those of its nodes, node after node.
pub open spec fn spec_scatter(
    records: Seq<PointerData>,
    layer: Seq<PathNodeView>,
    max_offset: u32,
) -> Seq<Candidate> {
    Seq::new(layer.len(), |p: int| spec_node_candidates(records, layer, p, max_offset)).flatten()
}

/// Searches the queue for every node of a level and collects the pointers
/// found, each marked with its node.
pub fn scatter_layer(pointer_lib: &MmapQueue, layer: &Vec<PathNode>, max_offset: u32) -> (r: Vec<
    Candidate,
>)
    requires
        pointer_lib.well_formed(),
        spec_sorted_by_value(pointer_lib@),
    ensures
        r@ == spec_scatter(pointer_lib@, spec_layer_view(layer@), max_offset),
        forall|i: int| 0 <= i < r@.len() ==> (#[trigger] r@[i]).parent_idx < layer@.len(),
{
    let ghost nodes = spec_layer_view(layer@);
    let ghost per_node = Seq::new(
        nodes.len(),
        |p: int| spec_node_candidates(pointer_lib@, nodes, p, max_offset),
    );
    let mut candidates: Vec<Candidate> = Vec::new();
    let mut parent_idx: usize = 0;
    assert(per_node.take(0) =~= Seq::<Seq<Candidate>>::empty());
    while parent_idx < layer.len()
        invariant
            0 <= parent_idx <= layer@.len(),
            pointer_lib.well_formed(),
            spec_sorted_by_value(pointer_lib@),
            nodes == spec_layer_view(layer@),
            per_node == Seq::new(
                nodes.len(),
                |p: int| spec_node_candidates(pointer_lib@, nodes, p, max_offset),
            ),
            candidates@ == per_node.take(parent_idx as int).flatten(),
            forall|i: int|
                0 <= i < candidates@.len() ==> (#[trigger] candidates@[i]).parent_idx < layer@.len(),
        decreases layer@.len() - parent_idx,
    {
        let pointers = find_pointers_to_range(
            pointer_lib,
            layer[parent_idx].current_target,
            max_offset,
        );
        let ghost before = candidates@;
        let ghost tag = spec_tag_parent(parent_idx as int);
        let mut k: usize = 0;
        assert(pointers@.take(0).map_values(tag) =~= Seq::<Candidate>::empty());
        while k < pointers.len()
            invariant
                0 <= k <= pointers@.len(),
                parent_idx < layer@.len(),
                tag == spec_tag_parent(parent_idx as int),
                candidates@ == before + pointers@.take(k as int).map_values(tag),
                forall|i: int|
                    0 <= i < candidates@.len() ==> (#[trigger] candidates@[i]).parent_idx
                        < layer@.len(),
            decreases pointers@.len() - k,
        {
            let (ptr_address, offset) = pointers[k];
            candidates.push(Candidate { ptr_address, offset, parent_idx });
            proof {
                assert(pointers@.take(k + 1) =~= pointers@.take(k as int).push(pointers@[k as int]));
                pointers@.take(k as int).lemma_push_map_commute(tag, pointers@[k as int]);
            }
            k = k + 1;
        }
        proof {
            let p = parent_idx as int;
            assert(pointers@.take(k as int) =~= pointers@);
            assert(nodes[p].current_target == layer@[p].current_target);
            assert(per_node.take(p + 1) =~= per_node.take(p).push(per_node[p]));
            per_node.take(p).lemma_flatten_push(per_node[p]);
        }
        parent_idx = parent_idx + 1;
    }
    assert(per_node.take(parent_idx as int) =~= per_node);
    candidates
}

/// The offsets of a node, nearest the root first, as dynamic steps.
pub open spec fn spec_reversed_offsets(history: Seq<i64>) -> Seq<PointerChainStep> {
    Seq::new(
        history.len(),
        |k: int| PointerChainStep::DynamicOffset { offset: history[history.len() - 1 - k] },
    )
}

/// The steps of a chain, root first: the static root; the offset from the
/// root pointer's value, left out where it is zero; then the offsets of the
/// node that the root pointer leads to, in reverse.
pub open spec fn spec_chain_steps(
    root: (String, u32, u64),
    offset: i64,
    history: Seq<i64>,
) -> Seq<PointerChainStep> {
    seq![
        PointerChainStep::StaticRoot {
            module_name: root.0,
            module_index: root.1,
            base_offset: root.2 as i64,
        },
    ] + (if offset != 0 {
        seq![PointerChainStep::DynamicOffset { offset }]
    } else {
        Seq::empty()
    }) + spec_reversed_offsets(history)
}

/// A candidate completes a chain: it sits in a static module and is not the
/// target itself.
pub open spec fn spec_completes_chain(modules: Seq<VmStaticData>, target: u64) -> spec_fn(
    Candidate,
) -> bool {
    |c: Candidate| c.ptr_address != target && spec_classify(modules, c.ptr_address) is Some
}

/// The chain that a candidate completes.
pub open spec fn spec_chain_of(
    modules: Seq<VmStaticData>,
    target: u64,
    layer: Seq<PathNodeView>,
) -> spec_fn(Candidate) -> PointerChainView {
    |c: Candidate|
        PointerChainView {
            target,
            steps: spec_chain_steps(
                spec_classify(modules, c.ptr_address).unwrap(),
                c.offset,
                layer[c.parent_idx as int].offset_history,
            ),
        }
}

/// The chains that a level completes, in the order of its candidates.
pub open spec fn spec_layer_chains(
    modules: Seq<VmStaticData>,
    target: u64,
    layer: Seq<PathNodeView>,
    candidates: Seq<Candidate>,
) -> Seq<PointerChainView> {
    candidates.filter(spec_completes_chain(modules, target)).map_values(
        spec_chain_of(modules, target, layer),
    )
}

/// A candidate is searched further: it is not the target itself, another
/// level is allowed, and it lies outside the static modules where only
/// those may end a path.
pub open spec fn spec_goes_on(
    modules: Seq<VmStaticData>,
    config: PointerScanConfig,
    depth: int,
) -> spec_fn(Candidate) -> bool {
    |c: Candidate|
        c.ptr_address != config.target_address && depth + 1 < config.max_depth && (
        !config.scan_static_only || spec_classify(modules, c.ptr_address) is None)
}

/// The node that a candidate becomes in the next level.
pub open spec fn spec_child_of(layer: Seq<PathNodeView>) -> spec_fn(Candidate) -> PathNodeView {
    |c: Candidate|
        PathNodeView {
            current_target: c.ptr_address,
            offset_history: layer[c.parent_idx as int].offset_history.push(c.offset),
        }
}

/// The next level: the candidates that are searched further, in order, cut
/// to the first [`MAX_CANDIDATES_PER_LAYER`].
pub open spec fn spec_next_layer(
    modules: Seq<VmStaticData>,
    config: PointerScanConfig,
    depth: int,
    layer: Seq<PathNodeView>,
    candidates: Seq<Candidate>,
) -> Seq<PathNodeView> {
    let all = candidates.filter(spec_goes_on(modules, config, depth)).map_values(
        spec_child_of(layer),
    );
    if all.len() > MAX_CANDIDATES_PER_LAYER {
        all.take(MAX_CANDIDATES_PER_LAYER as int)
    } else {
        all
    }
}

/// The chains as values.
pub open spec fn spec_chain_views(chains: Seq<PointerChain>) -> Seq<PointerChainView> {
    chains.map_values(|chain: PointerChain| chain@)
}

/// Builds the chain that `candidate` completes: `root` is what the module
/// lookup gave for it, `parent` the node it leads to.
pub fn assemble_chain(
    target: u64,
    root: (String, u32, u64),
    candidate: &Candidate,
    parent: &PathNode,
) -> (chain: PointerChain)
    ensures
        chain@ == (PointerChainView {
            target,
            steps: spec_chain_steps(root, candidate.offset, parent@.offset_history),
        }),
{
    let (module_name, module_index, base_offset) = root;
    let mut chain = PointerChain::with_capacity(target, parent.depth().saturating_add(2));
    chain.push(
        PointerChainStep::static_root(
            module_name,
            module_index,
            #[verifier::truncate]
            (base_offset as i64),
        ),
    );
    if candidate.offset != 0 {
        chain.push(PointerChainStep::dynamic_offset(candidate.offset));
    }
    let ghost head = chain.steps@;
    let ghost tail = spec_reversed_offsets(parent@.offset_history);
    let n = parent.offset_history.len();
    let mut k: usize = 0;
    assert(head + tail.take(0) =~= head);
    while k < n
        invariant
            0 <= k <= n,
            n == parent@.offset_history.len(),
            tail == spec_reversed_offsets(parent@.offset_history),
            chain.target == target,
            chain.steps@ == head + tail.take(k as int),
        decreases n - k,
    {
        chain.push(PointerChainStep::dynamic_offset(parent.offset_history[n - 1 - k]));
        assert(head + tail.take(k + 1) =~= (head + tail.take(k as int)).push(tail[k as int]));
        k = k + 1;
    }
    assert(tail.take(n as int) =~= tail);
    assert(chain.steps@ =~= spec_chain_steps(root, candidate.offset, parent@.offset_history));
    chain
}

/// Goes through the candidates of a level in order. A candidate in a static
/// module adds a chain to `results`; a candidate that may be searched
/// further becomes a node of the next level, which is returned, cut to
/// [`MAX_CANDIDATES_PER_LAYER`] nodes.
pub fn classify_candidates(
    candidates: &Vec<Candidate>,
    layer: &Vec<PathNode>,
    static_modules: &[VmStaticData],
    config: &PointerScanConfig,
    depth: u32,
    results: &mut Vec<PointerChain>,
) -> (next_layer: Vec<PathNode>)
    requires
        depth < config.max_depth,
        forall|i: int|
            0 <= i < candidates@.len() ==> (#[trigger] candidates@[i]).parent_idx < layer@.len(),
    ensures
        spec_chain_views(final(results)@) == spec_chain_views(old(results)@) + spec_layer_chains(
            static_modules@,
            config.target_address,
            spec_layer_view(layer@),
            candidates@,
        ),
        spec_layer_view(next_layer@) == spec_next_layer(
            static_modules@,
            *config,
            depth as int,
            spec_layer_view(layer@),
            candidates@,
        ),
{
    let ghost nodes = spec_layer_view(layer@);
    let ghost completes = spec_completes_chain(static_modules@, config.target_address);
    let ghost chain_of = spec_chain_of(static_modules@, config.target_address, nodes);
    let ghost goes_on = spec_goes_on(static_modules@, *config, depth as int);
    let ghost child_of = spec_child_of(nodes);
    let ghost found_before = spec_chain_views(old(results)@);
    let ghost view_of = |chain: PointerChain| chain@;
    let ghost node_view = |node: PathNode| node@;
    let mut next_layer: Vec<PathNode> = Vec::new();
    let mut i: usize = 0;
    proof {
        assert(candidates@.take(0) =~= Seq::<Candidate>::empty());
        assert(candidates@.take(0).filter(completes) =~= Seq::<Candidate>::empty()) by {
            reveal(Seq::filter);
        }
        assert(candidates@.take(0).filter(goes_on) =~= Seq::<Candidate>::empty()) by {
            reveal(Seq::filter);
        }
        assert(found_before + Seq::<Candidate>::empty().map_values(chain_of) =~= found_before);
        assert(spec_layer_view(next_layer@) =~= Seq::<Candidate>::empty().map_values(child_of));
    }
    while i < candidates.len()
        invariant
            0 <= i <= candidates@.len(),
            depth < config.max_depth,
            forall|k: int|
                0 <= k < candidates@.len() ==> (#[trigger] candidates@[k]).parent_idx < layer@.len(),
            nodes == spec_layer_view(layer@),
            completes == spec_completes_chain(static_modules@, config.target_address),
            chain_of == spec_chain_of(static_modules@, config.target_address, nodes),
            goes_on == spec_goes_on(static_modules@, *config, depth as int),
            child_of == spec_child_of(nodes),
            view_of == (|chain: PointerChain| chain@),
            node_view == (|node: PathNode| node@),
            results@.map_values(view_of) == found_before + candidates@.take(i as int).filter(
                completes,
            ).map_values(chain_of),
            next_layer@.map_values(node_view) == candidates@.take(i as int).filter(
                goes_on,
            ).map_values(child_of),
        decreases candidates@.len() - i,
    {
        let candidate = candidates[i];
        let parent = &layer[candidate.parent_idx];
        let ghost seen = candidates@.take(i as int);
        proof {
            assert(candidates@.take(i + 1) =~= seen.push(candidate));
            seen.lemma_filter_push(candidate, completes);
            seen.lemma_filter_push(candidate, goes_on);
            seen.filter(completes).lemma_push_map_commute(chain_of, candidate);
            seen.filter(goes_on).lemma_push_map_commute(child_of, candidate);
            assert(nodes[candidate.parent_idx as int] == parent@);
        }
        if candidate.ptr_address != config.target_address {
            let root = classify_pointer(candidate.ptr_address, static_modules);
            let is_static = root.is_some();
            match root {
                Some(found) => {
                    let chain = assemble_chain(config.target_address, found, &candidate, parent);
                    let ghost before = results@;
                    results.push(chain);
                    proof {
                        before.lemma_push_map_commute(view_of, chain);
                        assert(chain@ == chain_of(candidate));
                        assert(results@.map_values(view_of) =~= found_before + seen.push(
                            candidate,
                        ).filter(completes).map_values(chain_of));
                    }
                },
                None => {},
            }
            if depth + 1 < config.max_depth {
                if !config.scan_static_only || !is_static {
                    let child = parent.child(candidate.ptr_address, candidate.offset);
                    let ghost before = next_layer@;
                    next_layer.push(child);
                    proof {
                        before.lemma_push_map_commute(node_view, child);
                        assert(child@ == child_of(candidate));
                        assert(next_layer@.map_values(node_view) =~= seen.push(candidate).filter(
                            goes_on,
                        ).map_values(child_of));
                    }
                }
            }
        }
        i = i + 1;
    }
    assert(candidates@.take(i as int) =~= candidates@);
    if next_layer.len() > MAX_CANDIDATES_PER_LAYER {
        let ghost all = next_layer@;
        next_layer.truncate(MAX_CANDIDATES_PER_LAYER);
        assert(next_layer@.map_values(node_view) =~= all.map_values(node_view).take(
            MAX_CANDIDATES_PER_LAYER as int,
        ));
    }
    next_layer
}

/// The chains found from level `depth` on, where `layer` is that level:
/// those that the level completes, then those of the levels after it. No
/// level is searched beyond the greatest depth, nor after an empty one.
pub open spec fn spec_bfs(
    records: Seq<PointerData>,
    modules: Seq<VmStaticData>,
    config: PointerScanConfig,
    layer: Seq<PathNodeView>,
    depth: int,
) -> Seq<PointerChainView>
    decreases config.max_depth - depth,
{
    if depth >= config.max_depth || layer.len() == 0 {
        Seq::empty()
    } else {
        let candidates = spec_scatter(records, layer, config.max_offset);
        spec_layer_chains(modules, config.target_address, layer, candidates) + spec_bfs(
            records,
            modules,
            config,
            spec_next_layer(modules, config, depth, layer, candidates),
            depth + 1,
        )
    }
}

/// The level that the search starts from: the target alone.
pub open spec fn spec_root_layer(target: u64) -> Seq<PathNodeView> {
    seq![PathNodeView { current_target: target, offset_history: Seq::empty() }]
}

/// Every chain from a static module to the target, in the order in which
/// the search finds them.
pub open spec fn spec_pointer_chains(
    records: Seq<PointerData>,
    modules: Seq<VmStaticData>,
    config: PointerScanConfig,
) -> Seq<PointerChainView> {
    spec_bfs(records, modules, config, spec_root_layer(config.target_address), 0)
}

/// The offsets of a node in the order in which a chain is walked: the one
/// taken last comes first.
pub open spec fn spec_reverse_history(history: Seq<i64>) -> Seq<i64> {
    Seq::new(history.len(), |k: int| history[history.len() - 1 - k])
}

/// Walking from `address` reaches `target`: for each offset in turn, some
/// record sits at the current address, and its value plus the offset is the
/// next address; after the last offset the address is the target.
pub open spec fn spec_walk(
    records: Seq<PointerData>,
    address: int,
    offsets: Seq<i64>,
    target: u64,
) -> bool
    decreases offsets.len(),
{
    if offsets.len() == 0 {
        address == target
    } else {
        exists|k: int|
            0 <= k < records.len() && (#[trigger] records[k]).address == address && spec_walk(
                records,
                records[k].value + offsets[0],
                offsets.drop_first(),
                target,
            )
    }
}

/// The offsets of a chain's dynamic steps, in order.
pub open spec fn spec_chain_offsets(chain: PointerChainView) -> Seq<i64> {
    Seq::new(
        (chain.steps.len() - 1) as nat,
        |k: int|
            match chain.steps[k + 1] {
                PointerChainStep::DynamicOffset { offset } => offset,
                PointerChainStep::StaticRoot { .. } => 0,
            },
    )
}

/// The chain leads to its target. Its root names a module of the list by
/// name and index; that module's base plus the root's offset is an address
/// inside the module; and from that address the walk along the chain's
/// offsets reaches the target. Where the root pointer's value is itself the
/// next address, the chain holds no step for it, and the walk needs a zero
/// offset put back in front.
pub open spec fn spec_chain_resolves(
    records: Seq<PointerData>,
    modules: Seq<VmStaticData>,
    chain: PointerChainView,
) -> bool {
    &&& chain.steps.len() >= 1
    &&& match chain.steps[0] {
        PointerChainStep::StaticRoot { module_name, module_index, base_offset } => exists|
            i: int,
        |
            0 <= i < modules.len() && (#[trigger] modules[i]).name == module_name
                && modules[i].index == module_index && 0 <= modules[i].base + base_offset
                <= u64::MAX && modules[i].spec_contains((modules[i].base + base_offset) as u64)
                && (spec_walk(
                records,
                modules[i].base + base_offset,
                spec_chain_offsets(chain),
                chain.target,
            ) || spec_walk(
                records,
                modules[i].base + base_offset,
                seq![0i64] + spec_chain_offsets(chain),
                chain.target,
            )),
        PointerChainStep::DynamicOffset { .. } => false,
    }
}

/// No module is larger than half the address space, so that an offset into
/// it fits the signed offset of a chain's root.
pub open spec fn spec_modules_addressable(modules: Seq<VmStaticData>) -> bool {
    forall|i: int| 0 <= i < modules.len() ==> (#[trigger] modules[i]).size <= 0x8000_0000_0000_0000
}

/// What holds of every node of level `depth`: it carries `depth` offsets,
/// and walking along them from its address reaches the target.
pub open spec fn spec_node_ok(records: Seq<PointerData>, target: u64, depth: int) -> spec_fn(
    PathNodeView,
) -> bool {
    |node: PathNodeView|
        node.offset_history.len() == depth && spec_walk(
            records,
            node.current_target as int,
            spec_reverse_history(node.offset_history),
            target,
        )
}

/// What holds of every candidate of a level: its parent is a node of the
/// level, and some record sits at its address whose value plus its offset
/// is the parent's address.
pub open spec fn spec_candidate_ok(
    records: Seq<PointerData>,
    layer: Seq<PathNodeView>,
) -> spec_fn(Candidate) -> bool {
    |c: Candidate|
        c.parent_idx < layer.len() && exists|k: int|
            0 <= k < records.len() && (#[trigger] records[k]).address == c.ptr_address
                && records[k].value + c.offset == layer[c.parent_idx as int].current_target
}

/// What holds of every chain that the search finds: it has the shape of a
/// chain, is no deeper than the greatest depth, ends at the target, and,
/// where the modules are addressable, leads there.
pub open spec fn spec_chain_ok(
    records: Seq<PointerData>,
    modules: Seq<VmStaticData>,
    config: PointerScanConfig,
) -> spec_fn(PointerChainView) -> bool {
    |chain: PointerChainView|
        {
            &&& chain.well_formed()
            &&& chain.depth() <= config.max_depth
            &&& chain.target == config.target_address
            &&& spec_modules_addressable(modules) ==> spec_chain_resolves(records, modules, chain)
        }
}

proof fn lemma_walk_step(
    records: Seq<PointerData>,
    k: int,
    offset: i64,
    rest: Seq<i64>,
    target: u64,
)
    requires
        0 <= k < records.len(),
        spec_walk(records, records[k].value + offset, rest, target),
    ensures
        spec_walk(records, records[k].address as int, seq![offset] + rest, target),
{
    let offsets = seq![offset] + rest;
    assert(offsets[0] == offset);
    assert(offsets.drop_first() =~= rest);
}

proof fn lemma_scatter_ok(records: Seq<PointerData>, layer: Seq<PathNodeView>, max_offset: u32)
    requires
        layer.len() <= usize::MAX,
    ensures
        spec_scatter(records, layer, max_offset).all(spec_candidate_ok(records, layer)),
{
    let ok = spec_candidate_ok(records, layer);
    let per_node = Seq::new(
        layer.len(),
        |p: int| spec_node_candidates(records, layer, p, max_offset),
    );
    assert forall|p: int| 0 <= p < per_node.len() implies (#[trigger] per_node[p]).all(ok) by {
        let target = layer[p].current_target;
        let in_window = spec_record_in_window(target, max_offset);
        let is_record = |r: PointerData| records.contains(r);
        let reaches = |r: PointerData| records.contains(r) && in_window(r);
        let found_ok = |found: (u64, i64)|
            exists|k: int|
                0 <= k < records.len() && (#[trigger] records[k]).address == found.0
                    && records[k].value + found.1 == target;
        assert(records.all(is_record));
        lemma_all_filter(records, in_window, is_record);
        let hits = records.filter(in_window);
        assert(hits.all(reaches)) by {
            assert forall|i: int| 0 <= i < hits.len() implies #[trigger] reaches(hits[i]) by {
                assert(is_record(hits[i]));
                assert(in_window(hits[i]));
            }
        }
        assert forall|r: PointerData| #[trigger] reaches(r) implies found_ok(
            spec_record_offset(target)(r),
        ) by {
            let k = choose|k: int| 0 <= k < records.len() && records[k] == r;
            assert(records[k].address == r.address);
        }
        lemma_all_map(hits, spec_record_offset(target), reaches, found_ok);
        assert forall|found: (u64, i64)| #[trigger] found_ok(found) implies ok(
            spec_tag_parent(p)(found),
        ) by {
            let k = choose|k: int|
                0 <= k < records.len() && (#[trigger] records[k]).address == found.0
                    && records[k].value + found.1 == target;
            assert(records[k].address == spec_tag_parent(p)(found).ptr_address);
        }
        lemma_all_map(
            hits.map_values(spec_record_offset(target)),
            spec_tag_parent(p),
            found_ok,
            ok,
        );
    }
    lemma_all_flatten(per_node, ok);
}

/// A chain that a candidate completes has the shape of a chain and leads to
/// the target, given that the candidate's parent does.
proof fn lemma_completed_chain_ok(
    records: Seq<PointerData>,
    modules: Seq<VmStaticData>,
    config: PointerScanConfig,
    layer: Seq<PathNodeView>,
    depth: int,
    c: Candidate,
)
    requires
        0 <= depth < config.max_depth,
        layer.all(spec_node_ok(records, config.target_address, depth)),
        spec_candidate_ok(records, layer)(c),
        spec_completes_chain(modules, config.target_address)(c),
    ensures
        spec_chain_ok(records, modules, config)(
            spec_chain_of(modules, config.target_address, layer)(c),
        ),
{
    let target = config.target_address;
    let chain = spec_chain_of(modules, target, layer)(c);
    let parent = layer[c.parent_idx as int];
    let history = parent.offset_history;
    let root = spec_classify(modules, c.ptr_address).unwrap();
    assert(spec_node_ok(records, target, depth)(parent));
    let tail = spec_reversed_offsets(history);
    assert(chain.steps == spec_chain_steps(root, c.offset, history));
    assert(chain.steps[0] is StaticRoot);
    assert forall|i: int| 1 <= i < chain.steps.len() implies #[trigger] chain.steps[i]
        is DynamicOffset by {
        if c.offset != 0 {
            if i >= 2 {
                assert(chain.steps[i] == tail[i - 2]);
            }
        } else {
            assert(chain.steps[i] == tail[i - 1]);
        }
    }
    if spec_modules_addressable(modules) {
        let m = choose|m: int| spec_is_first_module(modules, c.ptr_address, m);
        assert(spec_is_first_module(modules, c.ptr_address, m)) by {
            let some = choose|i: int|
                0 <= i < modules.len() && (#[trigger] modules[i]).spec_contains(c.ptr_address);
            lemma_first_module_exists(modules, c.ptr_address, some);
        }
        assert(modules[m].size <= 0x8000_0000_0000_0000);
        assert(root.2 as i64 == c.ptr_address - modules[m].base);
        let k = choose|k: int|
            0 <= k < records.len() && (#[trigger] records[k]).address == c.ptr_address
                && records[k].value + c.offset == parent.current_target;
        let walked = spec_reverse_history(history);
        lemma_walk_step(records, k, c.offset, walked, target);
        let offsets = spec_chain_offsets(chain);
        if c.offset != 0 {
            assert(offsets =~= seq![c.offset] + walked);
        } else {
            assert(offsets =~= walked);
            assert(seq![0i64] + offsets =~= seq![c.offset] + walked);
        }
        assert(modules[m].name == root.0 && modules[m].index == root.1);
        assert(spec_chain_resolves(records, modules, chain));
    }
}

proof fn lemma_first_module_exists(modules: Seq<VmStaticData>, address: u64, some: int)
    requires
        0 <= some < modules.len(),
        modules[some].spec_contains(address),
    ensures
        exists|m: int| spec_is_first_module(modules, address, m),
    decreases some,
{
    if forall|j: int| 0 <= j < some ==> !(#[trigger] modules[j]).spec_contains(address) {
        assert(spec_is_first_module(modules, address, some));
    } else {
        let j = choose|j: int| 0 <= j < some && (#[trigger] modules[j]).spec_contains(address);
        lemma_first_module_exists(modules, address, j);
    }
}

/// The node that a candidate becomes leads to the target, given that the
/// candidate's parent does.
proof fn lemma_child_ok(
    records: Seq<PointerData>,
    target: u64,
    layer: Seq<PathNodeView>,
    depth: int,
    c: Candidate,
)
    requires
        layer.all(spec_node_ok(records, target, depth)),
        spec_candidate_ok(records, layer)(c),
    ensures
        spec_node_ok(records, target, depth + 1)(spec_child_of(layer)(c)),
{
    let parent = layer[c.parent_idx as int];
    assert(spec_node_ok(records, target, depth)(parent));
    let k = choose|k: int|
        0 <= k < records.len() && (#[trigger] records[k]).address == c.ptr_address
            && records[k].value + c.offset == parent.current_target;
    let walked = spec_reverse_history(parent.offset_history);
    lemma_walk_step(records, k, c.offset, walked, target);
    assert(spec_reverse_history(parent.offset_history.push(c.offset)) =~= seq![c.offset] + walked);
}

proof fn lemma_bfs_ok(
    records: Seq<PointerData>,
    modules: Seq<VmStaticData>,
    config: PointerScanConfig,
    layer: Seq<PathNodeView>,
    depth: int,
)
    requires
        0 <= depth,
        layer.len() <= usize::MAX,
        layer.all(spec_node_ok(records, config.target_address, depth)),
    ensures
        spec_bfs(records, modules, config, layer, depth).all(
            spec_chain_ok(records, modules, config),
        ),
    decreases config.max_depth - depth,
{
    if depth >= config.max_depth || layer.len() == 0 {
    } else {
        let target = config.target_address;
        let candidates = spec_scatter(records, layer, config.max_offset);
        let cand_ok = spec_candidate_ok(records, layer);
        let chain_ok = spec_chain_ok(records, modules, config);
        lemma_scatter_ok(records, layer, config.max_offset);

        let completes = spec_completes_chain(modules, target);
        let completing = |c: Candidate| cand_ok(c) && completes(c);
        lemma_all_filter(candidates, completes, cand_ok);
        let done = candidates.filter(completes);
        assert(done.all(completing)) by {
            assert forall|i: int| 0 <= i < done.len() implies #[trigger] completing(done[i]) by {
                assert(cand_ok(done[i]));
                assert(completes(done[i]));
            }
        }
        assert forall|c: Candidate| #[trigger] completing(c) implies chain_ok(
            spec_chain_of(modules, target, layer)(c),
        ) by {
            lemma_completed_chain_ok(records, modules, config, layer, depth, c);
        }
        lemma_all_map(done, spec_chain_of(modules, target, layer), completing, chain_ok);
        let level = spec_layer_chains(modules, target, layer, candidates);

        let goes_on = spec_goes_on(modules, config, depth);
        let node_ok = spec_node_ok(records, target, depth + 1);
        lemma_all_filter(candidates, goes_on, cand_ok);
        assert forall|c: Candidate| #[trigger] cand_ok(c) implies node_ok(
            spec_child_of(layer)(c),
        ) by {
            lemma_child_ok(records, target, layer, depth, c);
        }
        lemma_all_map(candidates.filter(goes_on), spec_child_of(layer), cand_ok, node_ok);
        let all = candidates.filter(goes_on).map_values(spec_child_of(layer));
        let next = spec_next_layer(modules, config, depth, layer, candidates);
        assert(next.all(node_ok)) by {
            assert forall|i: int| 0 <= i < next.len() implies #[trigger] node_ok(next[i]) by {
                assert(next[i] == all[i]);
                assert(node_ok(all[i]));
            }
        }
        lemma_bfs_ok(records, modules, config, next, depth + 1);
        let rest = spec_bfs(records, modules, config, next, depth + 1);
        assert forall|i: int| 0 <= i < (level + rest).len() implies #[trigger] chain_ok(
            (level + rest)[i],
        ) by {
            if i < level.len() {
                assert(chain_ok(level[i]));
            } else {
                assert(chain_ok(rest[i - level.len()]));
            }
        }
    }
}

/// Every chain that the search finds has the shape of a chain, is no deeper
/// than the greatest depth and ends at the target.
pub proof fn lemma_chains_well_formed(
    records: Seq<PointerData>,
    modules: Seq<VmStaticData>,
    config: PointerScanConfig,
)
    ensures
        forall|i: int|
            0 <= i < spec_pointer_chains(records, modules, config).len() ==> {
                let chain = #[trigger] spec_pointer_chains(records, modules, config)[i];
                &&& chain.well_formed()
                &&& chain.depth() <= config.max_depth
                &&& chain.target == config.target_address
            },
{
    lemma_pointer_chains_ok(records, modules, config);
    let chains = spec_pointer_chains(records, modules, config);
    assert forall|i: int| 0 <= i < chains.len() implies {
        let chain = #[trigger] chains[i];
        &&& chain.well_formed()
        &&& chain.depth() <= config.max_depth
        &&& chain.target == config.target_address
    } by {
        assert(spec_chain_ok(records, modules, config)(chains[i]));
    }
}

/// Every chain that the search finds leads to the target: walking from its
/// root along its offsets, each step through a record of the queue, ends
/// there. A chain whose root pointer holds the next address exactly has no
/// step for that pointer; its walk is the one with a zero offset in front.
pub proof fn lemma_chains_reconstruct(
    records: Seq<PointerData>,
    modules: Seq<VmStaticData>,
    config: PointerScanConfig,
)
    requires
        spec_modules_addressable(modules),
    ensures
        forall|i: int|
            0 <= i < spec_pointer_chains(records, modules, config).len() ==> spec_chain_resolves(
                records,
                modules,
                #[trigger] spec_pointer_chains(records, modules, config)[i],
            ),
{
    lemma_pointer_chains_ok(records, modules, config);
    let chains = spec_pointer_chains(records, modules, config);
    assert forall|i: int| 0 <= i < chains.len() implies spec_chain_resolves(
        records,
        modules,
        #[trigger] chains[i],
    ) by {
        assert(spec_chain_ok(records, modules, config)(chains[i]));
    }
}

proof fn lemma_pointer_chains_ok(
    records: Seq<PointerData>,
    modules: Seq<VmStaticData>,
    config: PointerScanConfig,
)
    ensures
        spec_pointer_chains(records, modules, config).all(
            spec_chain_ok(records, modules, config),
        ),
{
    let root = spec_root_layer(config.target_address);
    assert(spec_reverse_history(root[0].offset_history) =~= Seq::<i64>::empty());
    assert(spec_node_ok(records, config.target_address, 0)(root[0]));
    lemma_bfs_ok(records, modules, config, root, 0);
}

/// Order of two texts: by the first character in which they differ, the
/// shorter first where one is the start of the other.
pub open spec fn spec_text_le(a: Seq<char>, b: Seq<char>) -> bool
    decreases a.len(),
{
    if a.len() == 0 {
        true
    } else if b.len() == 0 {
        false
    } else if a[0] != b[0] {
        (a[0] as u32) < (b[0] as u32)
    } else {
        spec_text_le(a.drop_first(), b.drop_first())
    }
}

/// Name of the module that a chain is rooted in; `None` for a chain that
/// does not start with a static root.
pub open spec fn spec_root_name(chain: PointerChainView) -> Option<String> {
    if chain.steps.len() == 0 {
        None
    } else {
        match chain.steps[0] {
            PointerChainStep::StaticRoot { module_name, .. } => Some(module_name),
            PointerChainStep::DynamicOffset { .. } => None,
        }
    }
}

/// Order of two root names: no name first, then by text.
pub open spec fn spec_name_le(a: Option<String>, b: Option<String>) -> bool {
    match (a, b) {
        (None, _) => true,
        (Some(_), None) => false,
        (Some(x), Some(y)) => spec_text_le(x@, y@),
    }
}

/// Order of the results: by depth, then by the name of the root module.
pub open spec fn spec_chain_le(a: PointerChainView, b: PointerChainView) -> bool {
    a.depth() < b.depth() || (a.depth() == b.depth() && spec_name_le(
        spec_root_name(a),
        spec_root_name(b),
    ))
}

/// The chains stand in the order of the results.
pub open spec fn spec_chains_sorted(chains: Seq<PointerChainView>) -> bool {
    forall|i: int, j: int|
        0 <= i <= j < chains.len() ==> spec_chain_le(#[trigger] chains[i], #[trigger] chains[j])
}

/// What the results are ordered by: the depth of a chain, and the name of
/// its root module.
pub fn chain_sort_key(chain: &PointerChain) -> (r: (usize, Option<String>))
    ensures
        r.0 == chain@.depth(),
        r.1 == spec_root_name(chain@),
{
    let depth = chain.depth();
    if chain.steps.len() == 0 {
        return (depth, None);
    }
    match &chain.steps[0] {
        PointerChainStep::StaticRoot { module_name, .. } => (depth, Some(module_name.clone())),
        PointerChainStep::DynamicOffset { .. } => (depth, None),
    }
}

/// Calls rayon's `par_sort_by_key` with [`chain_sort_key`]. Trusted: the
/// chains are the same, each as often as before, and stand in the order of
/// their keys, which std defines for a pair of a number and an optional
/// string: by the number, then no string before any string, then the
/// strings by their bytes, which is the order of their characters.
#[verifier::external_body]
fn par_sort_chains(chains: &mut Vec<PointerChain>)
    ensures
        spec_chain_views(final(chains)@).to_multiset() == spec_chain_views(
            old(chains)@,
        ).to_multiset(),
        spec_chains_sorted(spec_chain_views(final(chains)@)),
{
    chains.par_sort_by_key(|chain| chain_sort_key(chain));
}

/// Builds every pointer chain from a static module to the target, level by
/// level, and returns them sorted by depth and root module name.
///
/// `progress_callback` is told, after each level, the number of levels done
/// and of chains found, and once more at the end. `check_cancelled` is
/// asked before each level; once it says yes the search ends with
/// `Cancelled` and the chains found so far are dropped.
pub fn build_pointer_chains_layered_bfs<F, C>(
    pointer_lib: &MmapQueue,
    static_modules: &[VmStaticData],
    config: &PointerScanConfig,
    progress_callback: F,
    check_cancelled: C,
) -> (r: Result<Vec<PointerChain>, ErrorKind>) where F: Fn(u32, i64), C: Fn() -> bool
    requires
        pointer_lib.well_formed(),
        spec_sorted_by_value(pointer_lib@),
        forall|depth: u32, found: i64| call_requires(progress_callback, (depth, found)),
        call_requires(check_cancelled, ()),
    ensures
        match r {
            Ok(chains) => {
                &&& spec_chain_views(chains@).to_multiset() == spec_pointer_chains(
                    pointer_lib@,
                    static_modules@,
                    *config,
                ).to_multiset()
                &&& spec_chains_sorted(spec_chain_views(chains@))
                &&& forall|i: int|
                    0 <= i < chains@.len() ==> {
                        &&& (#[trigger] chains@[i]).spec_well_formed()
                        &&& chains@[i].spec_depth() <= config.max_depth
                        &&& chains@[i].target == config.target_address
                        &&& spec_modules_addressable(static_modules@) ==> spec_chain_resolves(
                            pointer_lib@,
                            static_modules@,
                            chains@[i]@,
                        )
                    }
            },
            Err(e) => e == ErrorKind::Cancelled && call_ensures(check_cancelled, (), true),
        },
        spec_always_cancels(check_cancelled) && config.max_depth >= 1 ==> (r matches Err(e) && e
            == ErrorKind::Cancelled),
{
    let mut results: Vec<PointerChain> = Vec::new();
    let mut current_layer: Vec<PathNode> = Vec::new();
    current_layer.push(PathNode::new(config.target_address));
    let ghost all_chains = spec_pointer_chains(pointer_lib@, static_modules@, *config);
    let mut depth: u32 = 0;
    proof {
        assert(spec_layer_view(current_layer@) =~= spec_root_layer(config.target_address));
        assert(spec_chain_views(results@) =~= Seq::<PointerChainView>::empty());
        assert(Seq::<PointerChainView>::empty() + all_chains =~= all_chains);
    }
    while depth < config.max_depth
        invariant
            0 <= depth <= config.max_depth,
            spec_always_cancels(check_cancelled) ==> depth == 0 && current_layer@.len() == 1,
            pointer_lib.well_formed(),
            spec_sorted_by_value(pointer_lib@),
            forall|d: u32, found: i64| call_requires(progress_callback, (d, found)),
            call_requires(check_cancelled, ()),
            all_chains == spec_pointer_chains(pointer_lib@, static_modules@, *config),
            all_chains == spec_chain_views(results@) + spec_bfs(
                pointer_lib@,
                static_modules@,
                *config,
                spec_layer_view(current_layer@),
                depth as int,
            ),
        ensures
            depth >= config.max_depth || current_layer@.len() == 0,
        decreases config.max_depth - depth,
    {
        if check_cancelled() {
            return Err(ErrorKind::Cancelled);
        }
        if current_layer.len() == 0 {
            break ;
        }
        let ghost found_before = spec_chain_views(results@);
        let ghost nodes = spec_layer_view(current_layer@);
        let candidates = scatter_layer(pointer_lib, &current_layer, config.max_offset);
        let next_layer = classify_candidates(
            &candidates,
            &current_layer,
            static_modules,
            config,
            depth,
            &mut results,
        );
        proof {
            let level = spec_layer_chains(
                static_modules@,
                config.target_address,
                nodes,
                candidates@,
            );
            let rest = spec_bfs(
                pointer_lib@,
                static_modules@,
                *config,
                spec_layer_view(next_layer@),
                depth + 1,
            );
            assert(found_before + (level + rest) =~= (found_before + level) + rest);
        }
        progress_callback(
            depth + 1,
            #[verifier::truncate]
            (results.len() as i64),
        );
        current_layer = next_layer;
        depth = depth + 1;
    }
    proof {
        assert(spec_bfs(
            pointer_lib@,
            static_modules@,
            *config,
            spec_layer_view(current_layer@),
            depth as int,
        ) =~= Seq::<PointerChainView>::empty()) by {
            if current_layer@.len() == 0 {
                assert(spec_layer_view(current_layer@).len() == 0);
            }
        }
        assert(spec_chain_views(results@) + Seq::<PointerChainView>::empty() =~= spec_chain_views(
            results@,
        ));
    }
    progress_callback(
        config.max_depth,
        #[verifier::truncate]
        (results.len() as i64),
    );
    par_sort_chains(&mut results);
    proof {
        let chain_ok = spec_chain_ok(pointer_lib@, static_modules@, *config);
        lemma_pointer_chains_ok(pointer_lib@, static_modules@, *config);
        lemma_all_same_members(all_chains, spec_chain_views(results@), chain_ok);
        assert forall|i: int| 0 <= i < results@.len() implies {
            &&& (#[trigger] results@[i]).spec_well_formed()
            &&& results@[i].spec_depth() <= config.max_depth
            &&& results@[i].target == config.target_address
            &&& spec_modules_addressable(static_modules@) ==> spec_chain_resolves(
                pointer_lib@,
                static_modules@,
                results@[i]@,
            )
        } by {
            assert(chain_ok(spec_chain_views(results@)[i]));
        }
    }
    Ok(results)
}

/// Builds every pointer chain from a static module to the target. See
/// [`build_pointer_chains_layered_bfs`], which does the work.
pub fn build_pointer_chains<F, C>(
    pointer_lib: &MmapQueue,
    static_modules: &[VmStaticData],
    config: &PointerScanConfig,
    progress_callback: F,
    check_cancelled: C,
) -> (r: Result<Vec<PointerChain>, ErrorKind>) where F: Fn(u32, i64), C: Fn() -> bool
    requires
        pointer_lib.well_formed(),
        spec_sorted_by_value(pointer_lib@),
        forall|depth: u32, found: i64| call_requires(progress_callback, (depth, found)),
        call_requires(check_cancelled, ()),
    ensures
        match r {
            Ok(chains) => {
                &&& spec_chain_views(chains@).to_multiset() == spec_pointer_chains(
                    pointer_lib@,
                    static_modules@,
                    *config,
                ).to_multiset()
                &&& spec_chains_sorted(spec_chain_views(chains@))
                &&& forall|i: int|
                    0 <= i < chains@.len() ==> {
                        &&& (#[trigger] chains@[i]).spec_well_formed()
                        &&& chains@[i].spec_depth() <= config.max_depth
                        &&& chains@[i].target == config.target_address
                        &&& spec_modules_addressable(static_modules@) ==> spec_chain_resolves(
                            pointer_lib@,
                            static_modules@,
                            chains@[i]@,
                        )
                    }
            },
            Err(e) => e == ErrorKind::Cancelled && call_ensures(check_cancelled, (), true),
        },
        spec_always_cancels(check_cancelled) && config.max_depth >= 1 ==> (r matches Err(e) && e
            == ErrorKind::Cancelled),
{
    build_pointer_chains_layered_bfs(
        pointer_lib,
        static_modules,
        config,
        progress_callback,
        check_cancelled,
    )
}

} // verus!
