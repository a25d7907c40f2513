//! Data carried through the pointer scan.

use vstd::bytes::*;
use vstd::prelude::*;
use vstd::slice::*;

verus! {

/// One pointer found in the target: the address it was read from and the
/// value it holds.
#[derive(Clone, Copy, Debug, PartialEq, Eq, Structural)]
pub struct PointerData {
    pub address: u64,
    pub value: u64,
}

impl PointerData {
    /// The stored form: the address, then the value, each as eight
    /// little-endian bytes.
    pub open spec fn spec_to_bytes(self) -> Seq<u8> {
        spec_u64_to_le_bytes(self.address) + spec_u64_to_le_bytes(self.value)
    }

    /// The record that sixteen stored bytes stand for; any other length
    /// stands for none.
    pub open spec fn spec_from_bytes(bytes: Seq<u8>) -> Option<PointerData> {
        if bytes.len() == 16 {
            Some(
                PointerData {
                    address: spec_u64_from_le_bytes(bytes.subrange(0, 8)),
                    value: spec_u64_from_le_bytes(bytes.subrange(8, 16)),
                },
            )
        } else {
            None
        }
    }

    /// Strict order of the records: by value, and by address where the
    /// values are equal.
    pub open spec fn spec_ordered_before(self, other: PointerData) -> bool {
        self.value < other.value || (self.value == other.value && self.address < other.address)
    }

    pub fn new(address: u64, value: u64) -> (r: Self)
        ensures
            r.address == address,
            r.value == value,
    {
        PointerData { address, value }
    }

    /// Whether `self` sorts strictly before `other`.
    pub fn ordered_before(&self, other: &PointerData) -> (r: bool)
        ensures
            r == self.spec_ordered_before(*other),
    {
        self.value < other.value || (self.value == other.value && self.address < other.address)
    }

    /// Encodes the record into its sixteen stored bytes.
    pub fn to_bytes(&self) -> (r: Vec<u8>)
        ensures
            r@ == self.spec_to_bytes(),
            r@.len() == 16,
    {
        let mut out = u64_to_le_bytes(self.address);
        let mut tail = u64_to_le_bytes(self.value);
        proof {
            lemma_auto_spec_u64_to_from_le_bytes();
        }
        out.append(&mut tail);
        out
    }

    /// Decodes a record from its stored bytes. `None` unless there are
    /// exactly sixteen.
    pub fn from_bytes(bytes: &[u8]) -> (r: Option<PointerData>)
        ensures
            r == Self::spec_from_bytes(bytes@),
    {
        if bytes.len() != 16 {
            return None;
        }
        let address = u64_from_le_bytes(slice_subrange(bytes, 0, 8));
        let value = u64_from_le_bytes(slice_subrange(bytes, 8, 16));
        Some(PointerData { address, value })
    }
}

/// The values of the records ascend; equal values may stand in any order.
pub open spec fn spec_sorted_by_value(records: Seq<PointerData>) -> bool {
    forall|i: int, j: int|
        0 <= i <= j < records.len() ==> (#[trigger] records[i]).value <= (#[trigger] records[j]).value
}

/// Decoding what `to_bytes` wrote gives the record back.
pub proof fn lemma_pointer_data_round_trip(p: PointerData)
    ensures
        p.spec_to_bytes().len() == 16,
        PointerData::spec_from_bytes(p.spec_to_bytes()) == Some(p),
{
    lemma_auto_spec_u64_to_from_le_bytes();
    let a = spec_u64_to_le_bytes(p.address);
    let v = spec_u64_to_le_bytes(p.value);
    assert((a + v).subrange(0, 8) =~= a);
    assert((a + v).subrange(8, 16) =~= v);
}

/// Settings of one pointer scan.
#[derive(Clone, Copy, Debug, PartialEq, Eq, Structural)]
pub struct PointerScanConfig {
    /// The address that every chain must end at.
    pub target_address: u64,
    /// Greatest number of levels to explore; at least 1.
    pub max_depth: u32,
    /// Greatest distance between a pointer's value and the address it is
    /// taken to reach.
    pub max_offset: u32,
    /// Step between scanned positions; a power of two.
    pub align: u32,
    /// Stop following a pointer once it lies inside a static module.
    pub scan_static_only: bool,
}

/// `n` is one of the 32 powers of two that fit a `u32`.
pub open spec fn is_power_of_two(n: u32) -> bool {
    n > 0 && n & ((n - 1) as u32) == 0
}

impl PointerScanConfig {
    /// The settings a scan accepts: a depth of at least 1 and an alignment
    /// that is a power of two.
    pub open spec fn spec_is_valid(self) -> bool {
        self.max_depth >= 1 && is_power_of_two(self.align)
    }

    pub fn new(
        target_address: u64,
        max_depth: u32,
        max_offset: u32,
        align: u32,
        scan_static_only: bool,
    ) -> (r: Self)
        ensures
            r == (PointerScanConfig {
                target_address,
                max_depth,
                max_offset,
                align,
                scan_static_only,
            }),
    {
        PointerScanConfig { target_address, max_depth, max_offset, align, scan_static_only }
    }

    /// Whether a scan accepts these settings.
    pub fn is_valid(&self) -> (r: bool)
        ensures
            r == self.spec_is_valid(),
    {
        self.max_depth >= 1 && self.align > 0 && self.align & (self.align - 1) == 0
    }
}

/// A static module of the target: a contiguous mapped range that can anchor
/// a chain.
#[derive(Clone, Debug, PartialEq, Eq)]
pub struct VmStaticData {
    pub name: String,
    pub index: u32,
    pub base: u64,
    pub size: u64,
}

impl VmStaticData {
    /// `addr` lies in `[base, base + size)`.
    pub open spec fn spec_contains(self, addr: u64) -> bool {
        self.base <= addr && addr - self.base < self.size
    }

    /// Distance of `addr` from the module's base, modulo 2 to the power 64.
    pub open spec fn spec_offset_from_base(self, addr: u64) -> u64 {
        if addr >= self.base {
            (addr - self.base) as u64
        } else {
            (addr - self.base + 0x1_0000_0000_0000_0000) as u64
        }
    }

    pub fn new(name: String, index: u32, base: u64, size: u64) -> (r: Self)
        ensures
            r == (VmStaticData { name, index, base, size }),
    {
        VmStaticData { name, index, base, size }
    }

    /// Whether `addr` lies inside the module.
    pub fn contains(&self, addr: u64) -> (r: bool)
        ensures
            r == self.spec_contains(addr),
    {
        addr >= self.base && addr - self.base < self.size
    }

    /// Distance of `addr` from the module's base. For an address below the
    /// base the subtraction wraps.
    pub fn offset_from_base(&self, addr: u64) -> (r: u64)
        ensures
            r == self.spec_offset_from_base(addr),
    {
        addr.wrapping_sub(self.base)
    }
}

/// One step of a chain.
#[derive(Clone, Debug, PartialEq, Eq)]
pub enum PointerChainStep {
    /// Where the chain starts: an offset into a static module.
    StaticRoot { module_name: String, module_index: u32, base_offset: i64 },
    /// Read the pointer at the current address and add this offset.
    DynamicOffset { offset: i64 },
}

impl PointerChainStep {
    pub fn static_root(module_name: String, module_index: u32, base_offset: i64) -> (r: Self)
        ensures
            r == (PointerChainStep::StaticRoot { module_name, module_index, base_offset }),
    {
        PointerChainStep::StaticRoot { module_name, module_index, base_offset }
    }

    pub fn dynamic_offset(offset: i64) -> (r: Self)
        ensures
            r == (PointerChainStep::DynamicOffset { offset }),
    {
        PointerChainStep::DynamicOffset { offset }
    }

    /// Whether this step is a static root.
    pub fn is_static_root(&self) -> (r: bool)
        ensures
            r == (*self is StaticRoot),
    {
        match self {
            PointerChainStep::StaticRoot { .. } => true,
            PointerChainStep::DynamicOffset { .. } => false,
        }
    }
}

/// A path from a static module to the target, read from the root outwards.
#[derive(Clone, Debug, PartialEq, Eq)]
pub struct PointerChain {
    pub target: u64,
    pub steps: Vec<PointerChainStep>,
}

/// A chain as a value: its target and its steps.
pub struct PointerChainView {
    pub target: u64,
    pub steps: Seq<PointerChainStep>,
}

impl PointerChainView {
    /// The shape of a finished chain: a static root first, dynamic offsets
    /// after it.
    pub open spec fn well_formed(self) -> bool {
        &&& self.steps.len() >= 1
        &&& self.steps[0] is StaticRoot
        &&& forall|i: int| 1 <= i < self.steps.len() ==> #[trigger] self.steps[i] is DynamicOffset
    }

    /// Number of steps after the root.
    pub open spec fn depth(self) -> nat {
        if self.steps.len() == 0 {
            0
        } else {
            (self.steps.len() - 1) as nat
        }
    }
}

impl View for PointerChain {
    type V = PointerChainView;

    open spec fn view(&self) -> PointerChainView {
        PointerChainView { target: self.target, steps: self.steps@ }
    }
}

impl PointerChain {
    /// The shape of a finished chain: a static root first, dynamic offsets
    /// after it.
    pub open spec fn spec_well_formed(self) -> bool {
        self@.well_formed()
    }

    /// Number of steps after the root.
    pub open spec fn spec_depth(self) -> nat {
        self@.depth()
    }

    /// An empty chain to `target`, with room for `capacity` steps.
    pub fn with_capacity(target: u64, capacity: usize) -> (r: Self)
        ensures
            r.target == target,
            r.steps@ == Seq::<PointerChainStep>::empty(),
    {
        PointerChain { target, steps: Vec::with_capacity(capacity) }
    }

    /// Appends a step.
    pub fn push(&mut self, step: PointerChainStep)
        ensures
            final(self).target == old(self).target,
            final(self).steps@ == old(self).steps@.push(step),
    {
        self.steps.push(step);
    }

    /// Number of steps after the root; 0 for a chain without steps.
    pub fn depth(&self) -> (r: usize)
        ensures
            r == self.spec_depth(),
    {
        if self.steps.len() == 0 {
            0
        } else {
            self.steps.len() - 1
        }
    }
}

} // verus!
