//! The two passes of the fuzzy search, and the ordered set that holds what
//! they find.

use crate::error::spec_always_cancels;
use crate::error::ErrorKind;
use crate::memory::MemoryRead;
use crate::page_bitmap::PageStatusBitmap;
use crate::pointer_scan::scanner::lemma_chunk_count;
use crate::search::result_manager::lemma_le_value_bound;
use crate::search::result_manager::spec_le_value;
use crate::search::result_manager::spec_typed_value;
use crate::search::types::spec_condition_holds;
use crate::search::result_manager::FuzzySearchResultItem;
use crate::search::types::FuzzyCondition;
use crate::search::types::ValueType;
use crate::seq_facts::lemma_all_filter;
use bplustree::BPlusTree;
use vstd::prelude::*;
use vstd::slice::slice_subrange;

verus! {

/// The B+ tree of the `bplustree` crate, taken as it is: nothing of its
/// inside is known here.
#[verifier::external_type_specification]
#[verifier::external_body]
#[verifier::reject_recursive_types(K)]
#[verifier::reject_recursive_types(V)]
pub struct ExGenericBPlusTree<K, V, const IC: usize, const LC: usize>(
    bplustree::GenericBPlusTree<K, V, IC, LC>,
);

/// What a tree holds: for each address in it, the tag of a value type and
/// the bits of a value.
pub uninterp spec fn tree_entries(tree: BPlusTree<u64, (u8, u64)>) -> Map<u64, (u8, u64)>;

/// Calls `BPlusTree::new`. Trusted: the new tree holds nothing.
#[verifier::external_body]
fn tree_new() -> (r: BPlusTree<u64, (u8, u64)>)
    ensures
        tree_entries(r).dom() == Set::<u64>::empty(),
{
    BPlusTree::new()
}

/// Calls `BPlusTree::insert`. Trusted: afterwards the tree holds `value`
/// under `key` and is unchanged under every other key; what it held under
/// `key` before is returned.
#[verifier::external_body]
fn tree_insert(tree: &mut BPlusTree<u64, (u8, u64)>, key: u64, value: (u8, u64)) -> (r: Option<
    (u8, u64),
>)
    ensures
        tree_entries(*final(tree)) == tree_entries(*old(tree)).insert(key, value),
        r == if tree_entries(*old(tree)).dom().contains(key) {
            Some(tree_entries(*old(tree))[key])
        } else {
            None
        },
{
    tree.insert(key, value)
}

/// Calls `BPlusTree::len`. Trusted: it is the number of keys in the tree.
#[verifier::external_body]
fn tree_len(tree: &BPlusTree<u64, (u8, u64)>) -> (r: usize)
    ensures
        r == tree_entries(*tree).dom().len(),
{
    tree.len()
}

/// Calls `BPlusTree::lookup` with a function that copies the value.
/// Trusted: it gives what the tree holds under `key`, if anything.
#[verifier::external_body]
fn tree_lookup(tree: &BPlusTree<u64, (u8, u64)>, key: u64) -> (r: Option<(u8, u64)>)
    ensures
        r == if tree_entries(*tree).dom().contains(key) {
            Some(tree_entries(*tree)[key])
        } else {
            None
        },
{
    tree.lookup(&key, |value| *value)
}

/// Walks the tree with `raw_iter`, from `seek_to_first` on by `next`, and
/// copies out each key with its value. Trusted: every key of the tree comes
/// once, with what the tree holds under it, and the keys ascend.
#[verifier::external_body]
fn tree_items(tree: &BPlusTree<u64, (u8, u64)>) -> (r: Vec<(u64, (u8, u64))>)
    ensures
        forall|i: int, j: int| 0 <= i < j < r@.len() ==> (#[trigger] r@[i]).0 < (#[trigger] r@[j]).0,
        forall|i: int|
            0 <= i < r@.len() ==> tree_entries(*tree).dom().contains((#[trigger] r@[i]).0)
                && tree_entries(*tree)[r@[i].0] == r@[i].1,
        forall|key: u64| #[trigger]
            tree_entries(*tree).dom().contains(key) ==> exists|i: int|
                0 <= i < r@.len() && (#[trigger] r@[i]).0 == key,
{
    let mut iter = tree.raw_iter();
    iter.seek_to_first();
    let mut items = Vec::new();
    while let Some((key, value)) = iter.next() {
        items.push((*key, *value));
    }
    items
}

/// The item that a tree entry stands for.
pub open spec fn spec_entry_item(address: u64, entry: (u8, u64)) -> FuzzySearchResultItem {
    FuzzySearchResultItem {
        address,
        value_type: ValueType::spec_from_tag(entry.0).unwrap(),
        value_bits: entry.1,
    }
}

/// The results of a fuzzy search: at most one item per address, kept in
/// ascending order of address.
pub struct FuzzyResultSet {
    tree: BPlusTree<u64, (u8, u64)>,
}

impl View for FuzzyResultSet {
    type V = Map<u64, FuzzySearchResultItem>;

    /// The items, each under its address.
    closed spec fn view(&self) -> Map<u64, FuzzySearchResultItem> {
        Map::new(
            |address: u64| tree_entries(self.tree).dom().contains(address),
            |address: u64| spec_entry_item(address, tree_entries(self.tree)[address]),
        )
    }
}

impl FuzzyResultSet {
    /// What holds of every set between calls: it is finite, each item
    /// stands under its own address, and each has a value of its type.
    pub closed spec fn well_formed(self) -> bool {
        &&& tree_entries(self.tree).dom().finite()
        &&& forall|address: u64| #[trigger]
            tree_entries(self.tree).dom().contains(address) ==> {
                &&& ValueType::spec_from_tag(tree_entries(self.tree)[address].0) is Some
                &&& spec_entry_item(address, tree_entries(self.tree)[address]).spec_fits()
            }
    }

    /// A well-formed set is finite and holds each item under the item's own
    /// address, with a value of the item's type.
    pub proof fn lemma_well_formed(self)
        requires
            self.well_formed(),
        ensures
            self@.dom().finite(),
            forall|address: u64| #[trigger]
                self@.dom().contains(address) ==> self@[address].address == address
                    && self@[address].spec_fits(),
    {
        assert(self@.dom() =~= tree_entries(self.tree).dom());
    }

    /// An empty set.
    pub fn new() -> (r: Self)
        ensures
            r.well_formed(),
            r@ == Map::<u64, FuzzySearchResultItem>::empty(),
    {
        let r = FuzzyResultSet { tree: tree_new() };
        assert(r@ =~= Map::<u64, FuzzySearchResultItem>::empty());
        r
    }

    /// Puts `item` into the set, in place of any item with the same
    /// address. Returns whether the address is new to the set.
    pub fn insert(&mut self, item: FuzzySearchResultItem) -> (r: bool)
        requires
            old(self).well_formed(),
            item.spec_fits(),
        ensures
            final(self).well_formed(),
            final(self)@ == old(self)@.insert(item.address, item),
            r == !old(self)@.dom().contains(item.address),
    {
        let previous = tree_insert(
            &mut self.tree,
            item.address,
            (item.value_type.tag(), item.value_bits),
        );
        assert(self@ =~= old(self)@.insert(item.address, item));
        previous.is_none()
    }

    /// Number of items.
    pub fn len(&self) -> (r: usize)
        requires
            self.well_formed(),
        ensures
            r == self@.dom().len(),
    {
        assert(self@.dom() =~= tree_entries(self.tree).dom());
        tree_len(&self.tree)
    }

    /// Whether the set holds no item.
    pub fn is_empty(&self) -> (r: bool)
        requires
            self.well_formed(),
        ensures
            r == (self@.dom().len() == 0),
    {
        self.len() == 0
    }

    /// The item with this address, if there is one.
    pub fn get(&self, address: u64) -> (r: Option<FuzzySearchResultItem>)
        requires
            self.well_formed(),
        ensures
            r == if self@.dom().contains(address) {
                Some(self@[address])
            } else {
                None
            },
    {
        match tree_lookup(&self.tree, address) {
            Some((tag, value_bits)) => match ValueType::from_tag(tag) {
                Some(value_type) => Some(FuzzySearchResultItem { address, value_type, value_bits }),
                None => None,
            },
            None => None,
        }
    }

    /// Whether the set holds an item with this address.
    pub fn contains(&self, address: u64) -> (r: bool)
        requires
            self.well_formed(),
        ensures
            r == self@.dom().contains(address),
    {
        tree_lookup(&self.tree, address).is_some()
    }

    /// The items in ascending order of address.
    pub fn to_vec(&self) -> (r: Vec<FuzzySearchResultItem>)
        requires
            self.well_formed(),
        ensures
            r@.len() == self@.dom().len(),
            forall|i: int, j: int|
                0 <= i < j < r@.len() ==> (#[trigger] r@[i]).address < (#[trigger] r@[j]).address,
            forall|i: int|
                0 <= i < r@.len() ==> self@.dom().contains((#[trigger] r@[i]).address)
                    && self@[r@[i].address] == r@[i],
            forall|address: u64| #[trigger]
                self@.dom().contains(address) ==> exists|i: int|
                    0 <= i < r@.len() && (#[trigger] r@[i]).address == address,
    {
        let entries = tree_items(&self.tree);
        let mut items: Vec<FuzzySearchResultItem> = Vec::with_capacity(entries.len());
        let mut i: usize = 0;
        while i < entries.len()
            invariant
                0 <= i <= entries@.len(),
                self.well_formed(),
                items@.len() == i,
                forall|k: int|
                    0 <= k < entries@.len() ==> tree_entries(self.tree).dom().contains(
                        (#[trigger] entries@[k]).0,
                    ) && tree_entries(self.tree)[entries@[k].0] == entries@[k].1,
                forall|k: int|
                    0 <= k < i ==> (#[trigger] items@[k]) == spec_entry_item(
                        entries@[k].0,
                        entries@[k].1,
                    ),
            decreases entries@.len() - i,
        {
            let (address, (tag, value_bits)) = entries[i];
            assert(tree_entries(self.tree).dom().contains(entries@[i as int].0));
            match ValueType::from_tag(tag) {
                Some(value_type) => {
                    items.push(FuzzySearchResultItem { address, value_type, value_bits });
                },
                None => {},
            }
            i = i + 1;
        }
        proof {
            assert(self@.dom() =~= tree_entries(self.tree).dom());
            assert forall|address: u64| #[trigger] self@.dom().contains(address) implies exists|
                k: int,
            |
                0 <= k < items@.len() && (#[trigger] items@[k]).address == address by {
                let k = choose|k: int| 0 <= k < entries@.len() && (#[trigger] entries@[k]).0 == address;
                assert(items@[k].address == address);
            }
            lemma_distinct_keys_count(entries@, tree_entries(self.tree).dom());
        }
        items
    }
}

/// A list that names each member of a finite set once, and nothing else,
/// is as long as the set is large.
proof fn lemma_distinct_keys_count(entries: Seq<(u64, (u8, u64))>, keys: Set<u64>)
    requires
        keys.finite(),
        forall|i: int, j: int|
            0 <= i < j < entries.len() ==> (#[trigger] entries[i]).0 < (#[trigger] entries[j]).0,
        forall|i: int| 0 <= i < entries.len() ==> keys.contains((#[trigger] entries[i]).0),
        forall|key: u64| #[trigger]
            keys.contains(key) ==> exists|i: int|
                0 <= i < entries.len() && (#[trigger] entries[i]).0 == key,
    ensures
        entries.len() == keys.len(),
    decreases entries.len(),
{
    if entries.len() == 0 {
        assert(keys =~= Set::<u64>::empty());
    } else {
        let last = entries.last().0;
        let front = entries.drop_last();
        let rest = keys.remove(last);
        assert forall|key: u64| #[trigger] rest.contains(key) implies exists|i: int|
            0 <= i < front.len() && (#[trigger] front[i]).0 == key by {
            let i = choose|i: int| 0 <= i < entries.len() && (#[trigger] entries[i]).0 == key;
            assert(front[i] == entries[i]);
        }
        assert forall|i: int| 0 <= i < front.len() implies rest.contains((#[trigger] front[i]).0) by {
            assert(front[i] == entries[i]);
            assert(entries[i].0 < entries[entries.len() - 1].0);
        }
        assert forall|i: int, j: int| 0 <= i < j < front.len() implies (#[trigger] front[i]).0 < (
        #[trigger] front[j]).0 by {
            assert(front[i] == entries[i] && front[j] == entries[j]);
        }
        lemma_distinct_keys_count(front, rest);
        assert(keys.contains(entries[entries.len() - 1].0));
    }
}

/// The first multiple of `size` at or above `address`.
pub open spec fn spec_align_up(address: int, size: int) -> int {
    if address % size == 0 {
        address
    } else {
        address + size - address % size
    }
}

/// The item for the value of type `value_type` that the buffer holds at
/// `address`.
pub open spec fn spec_item_at(
    buffer: Seq<u8>,
    buffer_addr: u64,
    value_type: ValueType,
    address: int,
) -> FuzzySearchResultItem {
    FuzzySearchResultItem {
        address: address as u64,
        value_type,
        value_bits: spec_le_value(
            buffer.subrange(
                address - buffer_addr,
                address - buffer_addr + value_type.spec_size(),
            ),
        ) as u64,
    }
}

/// Where the search of page `page_idx` starts: at the start of the page or
/// of the searched range, whichever is higher.
pub open spec fn spec_page_search_start(
    buffer_addr: u64,
    search_start: u64,
    page_size: int,
    page_idx: int,
) -> int {
    let page_start = buffer_addr + page_idx * page_size;
    if page_start >= search_start {
        page_start
    } else {
        search_start as int
    }
}

/// Where the search of page `page_idx` ends: at the end of the page, of the
/// searched range or of the buffer, whichever is lowest.
pub open spec fn spec_page_search_end(
    buffer_len: int,
    buffer_addr: u64,
    search_end: u64,
    page_size: int,
    page_idx: int,
) -> int {
    let page_end = buffer_addr + page_idx * page_size + page_size;
    let range_end = if page_end <= search_end {
        page_end
    } else {
        search_end as int
    };
    if range_end <= buffer_addr + buffer_len {
        range_end
    } else {
        buffer_addr + buffer_len
    }
}

/// The items of one page: one for every address in the searched part of
/// the page that is a multiple of the value's size and leaves room for a
/// whole value, in ascending order.
pub open spec fn spec_page_items(
    buffer: Seq<u8>,
    buffer_addr: u64,
    search_start: u64,
    search_end: u64,
    value_type: ValueType,
    page_size: int,
    page_idx: int,
) -> Seq<FuzzySearchResultItem> {
    let size = value_type.spec_size() as int;
    let first = spec_align_up(
        spec_page_search_start(buffer_addr, search_start, page_size, page_idx),
        size,
    );
    let end = spec_page_search_end(
        buffer.len() as int,
        buffer_addr,
        search_end,
        page_size,
        page_idx,
    );
    if first >= end {
        Seq::empty()
    } else {
        Seq::new(
            ((end - first) / size) as nat,
            |k: int| spec_item_at(buffer, buffer_addr, value_type, first + k * size),
        )
    }
}

/// What holds of every item that a scan of `[start, end)` finds: its value
/// lies inside the range, at a multiple of its size, and is of the type
/// searched for.
pub open spec fn spec_item_in_range(
    item: FuzzySearchResultItem,
    start: u64,
    end: u64,
    value_type: ValueType,
) -> bool {
    &&& item.value_type == value_type
    &&& item.spec_fits()
    &&& start <= item.address
    &&& item.address + value_type.spec_size() <= end
    &&& item.address as int % value_type.spec_size() as int == 0
}

proof fn lemma_item_count(span: int, size: int, k: int)
    requires
        size > 0,
        span >= 0,
        k >= 0,
    ensures
        (k * size + size <= span) <==> (k < span / size),
{
    vstd::arithmetic::div_mod::lemma_fundamental_div_mod(span, size);
    let q = span / size;
    if k < q {
        assert(k * size + size <= q * size) by (nonlinear_arith)
            requires
                k + 1 <= q,
                size > 0,
        ;
        assert(q * size == size * q) by (nonlinear_arith);
    } else {
        assert(k * size + size >= (q + 1) * size) by (nonlinear_arith)
            requires
                k >= q,
                size > 0,
        ;
        assert((q + 1) * size == size * q + size) by (nonlinear_arith);
    }
}

proof fn lemma_aligned_step(first: int, size: int, k: int)
    requires
        size > 0,
        first >= 0,
        k >= 0,
        first % size == 0,
    ensures
        (first + k * size) % size == 0,
{
    vstd::arithmetic::div_mod::lemma_mod_multiples_vanish(k, first, size);
    assert(size * k + first == first + k * size) by (nonlinear_arith);
}

proof fn lemma_align_up(address: int, size: int)
    requires
        size > 0,
        address >= 0,
    ensures
        spec_align_up(address, size) % size == 0,
        address <= spec_align_up(address, size) < address + size,
{
    vstd::arithmetic::div_mod::lemma_fundamental_div_mod(address, size);
    let q = address / size;
    if address % size != 0 {
        assert(address + size - address % size == size * (q + 1)) by (nonlinear_arith)
            requires
                address == size * q + address % size,
        ;
        vstd::arithmetic::div_mod::lemma_fundamental_div_mod_converse(size * (q + 1), size, q + 1, 0);
    }
}

/// A whole page gives one item for each value that fits it: where the
/// buffer starts on a page boundary, the page size is a multiple of the
/// value's size, and page `page_idx` lies wholly inside the buffer and the
/// searched range, the items of the page are those at the page's start and
/// at every further multiple of the value's size, `page_size / size` in
/// all. Where the page holds zeroes only, every item's value is zero.
pub proof fn lemma_whole_page_items(
    buffer: Seq<u8>,
    buffer_addr: u64,
    search_start: u64,
    search_end: u64,
    value_type: ValueType,
    page_size: int,
    page_idx: int,
)
    requires
        page_size > 0,
        page_idx >= 0,
        page_size % (value_type.spec_size() as int) == 0,
        buffer_addr as int % page_size == 0,
        search_start <= buffer_addr + page_idx * page_size,
        buffer_addr + page_idx * page_size + page_size <= search_end,
        page_idx * page_size + page_size <= buffer.len(),
    ensures
        spec_page_items(
            buffer,
            buffer_addr,
            search_start,
            search_end,
            value_type,
            page_size,
            page_idx,
        ).len() == page_size / (value_type.spec_size() as int),
        forall|k: int|
            0 <= k < page_size / (value_type.spec_size() as int) ==> (#[trigger] spec_page_items(
                buffer,
                buffer_addr,
                search_start,
                search_end,
                value_type,
                page_size,
                page_idx,
            )[k]) == spec_item_at(
                buffer,
                buffer_addr,
                value_type,
                buffer_addr + page_idx * page_size + k * value_type.spec_size(),
            ),
        (forall|i: int|
            page_idx * page_size <= i < page_idx * page_size + page_size ==> buffer[i] == 0)
            ==> forall|k: int|
            0 <= k < page_size / (value_type.spec_size() as int) ==> (#[trigger] spec_page_items(
                buffer,
                buffer_addr,
                search_start,
                search_end,
                value_type,
                page_size,
                page_idx,
            )[k]).value_bits == 0,
{
    let size = value_type.spec_size() as int;
    let page_start = buffer_addr + page_idx * page_size;
    assert(page_idx * page_size >= 0) by (nonlinear_arith)
        requires
            page_idx >= 0,
            page_size > 0,
    ;
    vstd::arithmetic::div_mod::lemma_fundamental_div_mod(buffer_addr as int, page_size);
    vstd::arithmetic::div_mod::lemma_fundamental_div_mod(page_size, size);
    let q = buffer_addr as int / page_size;
    let m = page_size / size;
    assert(page_start == size * (m * (q + page_idx))) by (nonlinear_arith)
        requires
            page_start == buffer_addr + page_idx * page_size,
            buffer_addr == page_size * q,
            page_size == size * m,
    ;
    vstd::arithmetic::div_mod::lemma_fundamental_div_mod_converse(
        page_start,
        size,
        m * (q + page_idx),
        0,
    );
    assert(spec_align_up(page_start, size) == page_start);
    let items = spec_page_items(
        buffer,
        buffer_addr,
        search_start,
        search_end,
        value_type,
        page_size,
        page_idx,
    );
    assert(spec_page_search_start(buffer_addr, search_start, page_size, page_idx) == page_start);
    assert(spec_page_search_end(buffer.len() as int, buffer_addr, search_end, page_size, page_idx)
        == page_start + page_size);
    assert(items.len() == m);
    if forall|i: int|
        page_idx * page_size <= i < page_idx * page_size + page_size ==> buffer[i] == 0 {
        assert forall|k: int| 0 <= k < m implies (#[trigger] items[k]).value_bits == 0 by {
            assert(k * size + size <= page_size) by (nonlinear_arith)
                requires
                    0 <= k < m,
                    page_size == size * m,
                    size > 0,
            ;
            assert(k * size >= 0) by (nonlinear_arith)
                requires
                    k >= 0,
                    size > 0,
            ;
            let offset = page_idx * page_size + k * size;
            let bytes = buffer.subrange(offset, offset + size);
            assert forall|i: int| 0 <= i < bytes.len() implies bytes[i] == 0 by {
                assert(bytes[i] == buffer[offset + i]);
            }
            crate::search::result_manager::lemma_le_value_of_zeroes(bytes);
        }
    }
}

/// Takes the values of one page of a buffer that was read from
/// `buffer_addr` on. Page `page_idx` starts `page_idx * page_size` bytes
/// into the buffer; of it, the part inside `[search_start, search_end)` is
/// walked in steps of one value, from the first address that is a multiple
/// of the value's size.
pub fn scan_single_page(
    buffer: &[u8],
    buffer_addr: u64,
    search_start: u64,
    search_end: u64,
    element_size: usize,
    value_type: ValueType,
    page_size: usize,
    page_idx: usize,
) -> (r: Vec<FuzzySearchResultItem>)
    requires
        element_size == value_type.spec_size(),
        buffer_addr + buffer@.len() <= 0x1_0000_0000_0000_0000,
    ensures
        r@ == spec_page_items(
            buffer@,
            buffer_addr,
            search_start,
            search_end,
            value_type,
            page_size as int,
            page_idx as int,
        ),
        forall|i: int|
            0 <= i < r@.len() ==> spec_item_in_range(
                #[trigger] r@[i],
                search_start,
                search_end,
                value_type,
            ),
{
    let size = element_size as u128;
    let len = buffer.len();
    let buffer_end = buffer_addr as u128 + len as u128;
    assert((page_idx as u128) * (page_size as u128) <= 0xFFFF_FFFF_FFFF_FFFF
        * 0xFFFF_FFFF_FFFF_FFFF) by (nonlinear_arith)
        requires
            page_idx <= 0xFFFF_FFFF_FFFF_FFFF,
            page_size <= 0xFFFF_FFFF_FFFF_FFFF,
    ;
    let page_start: u128 = buffer_addr as u128 + (page_idx as u128) * (page_size as u128);
    let page_end: u128 = page_start + page_size as u128;
    let effective_start: u128 = if page_start >= search_start as u128 {
        page_start
    } else {
        search_start as u128
    };
    let range_end: u128 = if page_end <= search_end as u128 {
        page_end
    } else {
        search_end as u128
    };
    let effective_end: u128 = if range_end <= buffer_end {
        range_end
    } else {
        buffer_end
    };
    let rem = effective_start % size;
    let first_addr: u128 = if rem == 0 {
        effective_start
    } else {
        effective_start + size - rem
    };
    let ghost expected = spec_page_items(
        buffer@,
        buffer_addr,
        search_start,
        search_end,
        value_type,
        page_size as int,
        page_idx as int,
    );
    let mut results: Vec<FuzzySearchResultItem> = Vec::new();
    if first_addr >= effective_end {
        return results;
    }
    proof {
        lemma_align_up(effective_start as int, size as int);
    }
    let span = effective_end - first_addr;
    let mut addr: u128 = first_addr;
    let mut k: usize = 0;
    proof {
        lemma_item_count(span as int, size as int, 0);
    }
    while effective_end - addr >= size
        invariant
            size == value_type.spec_size(),
            element_size == size,
            1 <= size <= 8,
            len == buffer@.len(),
            buffer_end == buffer_addr + buffer@.len(),
            buffer_end <= 0x1_0000_0000_0000_0000,
            buffer_addr <= first_addr,
            search_start <= first_addr,
            first_addr as int % size as int == 0,
            effective_end <= buffer_end,
            effective_end <= search_end,
            span == effective_end - first_addr,
            first_addr <= addr <= effective_end,
            addr == first_addr + k * size,
            expected.len() == span as int / size as int,
            forall|j: int|
                0 <= j < expected.len() ==> (#[trigger] expected[j]) == spec_item_at(
                    buffer@,
                    buffer_addr,
                    value_type,
                    first_addr + j * size,
                ),
            k <= expected.len(),
            (effective_end - addr >= size) <==> (k < expected.len()),
            results@ == expected.take(k as int),
            forall|i: int|
                0 <= i < results@.len() ==> spec_item_in_range(
                    #[trigger] results@[i],
                    search_start,
                    search_end,
                    value_type,
                ),
        decreases effective_end - addr,
    {
        assert(addr - buffer_addr + size <= len);
        let offset = (addr - buffer_addr as u128) as usize;
        let item = FuzzySearchResultItem::from_bytes(
            addr as u64,
            slice_subrange(buffer, offset, offset + element_size),
            value_type,
        );
        proof {
            let bytes = buffer@.subrange(offset as int, offset + element_size);
            assert(bytes.take(size as int) =~= bytes);
            lemma_le_value_bound(bytes);
            crate::search::result_manager::lemma_pow256_values();
            assert(bytes == buffer@.subrange(
                addr - buffer_addr,
                addr - buffer_addr + value_type.spec_size(),
            ));
            assert(item.value_bits == spec_le_value(bytes) as u64);
            assert(item == spec_item_at(buffer@, buffer_addr, value_type, addr as int));
            assert(item == expected[k as int]);
            assert(expected.take(k + 1) =~= expected.take(k as int).push(expected[k as int]));
            lemma_aligned_step(first_addr as int, size as int, k as int);
            lemma_item_count(span as int, size as int, k + 1);
            assert((k + 1) * size == k * size + size) by (nonlinear_arith);
        }
        results.push(item);
        addr = addr + size;
        k = k + 1;
    }
    assert(expected.take(k as int) =~= expected);
    results
}

/// The items of a buffer: those of its pages that were read, page after
/// page, as far as they lie inside `[region_start, region_end)`.
pub open spec fn spec_buffer_items(
    buffer: Seq<u8>,
    buffer_addr: u64,
    region_start: u64,
    region_end: u64,
    value_type: ValueType,
    page_size: int,
    pages: Seq<bool>,
) -> Seq<FuzzySearchResultItem> {
    let search_start = if buffer_addr >= region_start {
        buffer_addr
    } else {
        region_start
    };
    let search_end = if buffer_addr + buffer.len() <= region_end {
        (buffer_addr + buffer.len()) as u64
    } else {
        region_end
    };
    if search_start >= search_end {
        Seq::empty()
    } else {
        Seq::new(
            pages.len(),
            |p: int|
                if pages[p] {
                    spec_page_items(
                        buffer,
                        buffer_addr,
                        search_start,
                        search_end,
                        value_type,
                        page_size,
                        p,
                    )
                } else {
                    Seq::empty()
                },
        ).flatten()
    }
}

/// Takes the values of every page of a buffer that the bitmap marks as
/// read, in the order of the pages.
pub fn scan_buffer_parallel(
    buffer: &[u8],
    buffer_addr: u64,
    region_start: u64,
    region_end: u64,
    element_size: usize,
    value_type: ValueType,
    page_size: usize,
    page_status: &PageStatusBitmap,
) -> (r: Vec<FuzzySearchResultItem>)
    requires
        element_size == value_type.spec_size(),
        buffer_addr + buffer@.len() <= 0xFFFF_FFFF_FFFF_FFFF,
    ensures
        r@ == spec_buffer_items(
            buffer@,
            buffer_addr,
            region_start,
            region_end,
            value_type,
            page_size as int,
            page_status@,
        ),
        forall|i: int|
            0 <= i < r@.len() ==> spec_item_in_range(
                #[trigger] r@[i],
                region_start,
                region_end,
                value_type,
            ),
{
    let buffer_end = buffer_addr + buffer.len() as u64;
    let search_start = if buffer_addr >= region_start {
        buffer_addr
    } else {
        region_start
    };
    let search_end = if buffer_end <= region_end {
        buffer_end
    } else {
        region_end
    };
    let mut results: Vec<FuzzySearchResultItem> = Vec::new();
    if search_start >= search_end {
        return results;
    }
    let num_pages = page_status.num_pages();
    let ghost per_page = Seq::new(
        page_status@.len(),
        |p: int|
            if page_status@[p] {
                spec_page_items(
                    buffer@,
                    buffer_addr,
                    search_start,
                    search_end,
                    value_type,
                    page_size as int,
                    p,
                )
            } else {
                Seq::empty()
            },
    );
    let mut page_idx: usize = 0;
    assert(per_page.take(0) =~= Seq::<Seq<FuzzySearchResultItem>>::empty());
    while page_idx < num_pages
        invariant
            0 <= page_idx <= num_pages,
            num_pages == page_status@.len(),
            element_size == value_type.spec_size(),
            buffer_addr + buffer@.len() <= 0xFFFF_FFFF_FFFF_FFFF,
            region_start <= search_start,
            search_end <= region_end,
            per_page == Seq::new(
                page_status@.len(),
                |p: int|
                    if page_status@[p] {
                        spec_page_items(
                            buffer@,
                            buffer_addr,
                            search_start,
                            search_end,
                            value_type,
                            page_size as int,
                            p,
                        )
                    } else {
                        Seq::empty()
                    },
            ),
            results@ == per_page.take(page_idx as int).flatten(),
            forall|i: int|
                0 <= i < results@.len() ==> spec_item_in_range(
                    #[trigger] results@[i],
                    region_start,
                    region_end,
                    value_type,
                ),
        decreases num_pages - page_idx,
    {
        let ghost p = page_idx as int;
        let ghost before = results@;
        proof {
            assert(per_page.take(p + 1) =~= per_page.take(p).push(per_page[p]));
            per_page.take(p).lemma_flatten_push(per_page[p]);
        }
        if page_status.is_page_success(page_idx) {
            let mut page_items = scan_single_page(
                buffer,
                buffer_addr,
                search_start,
                search_end,
                element_size,
                value_type,
                page_size,
                page_idx,
            );
            results.append(&mut page_items);
        } else {
            assert(before + Seq::<FuzzySearchResultItem>::empty() =~= before);
        }
        page_idx = page_idx + 1;
    }
    assert(per_page.take(page_idx as int) =~= per_page);
    results
}

/// The set that holds the items after each was put in, in order: under
/// each address the last item with that address.
pub open spec fn spec_insert_all(items: Seq<FuzzySearchResultItem>) -> Map<
    u64,
    FuzzySearchResultItem,
> {
    items.fold_left(
        Map::empty(),
        |set: Map<u64, FuzzySearchResultItem>, item: FuzzySearchResultItem|
            set.insert(item.address, item),
    )
}

proof fn lemma_insert_all_push(items: Seq<FuzzySearchResultItem>, item: FuzzySearchResultItem)
    ensures
        spec_insert_all(items.push(item)) == spec_insert_all(items).insert(item.address, item),
{
    assert(items.push(item).drop_last() =~= items);
}

/// Where the first chunk of a scan starts: at the page boundary at or
/// below `start`.
pub open spec fn spec_scan_origin(start: u64, page_size: int) -> int {
    start - start as int % page_size
}

/// Number of chunks that a scan of `[start, end)` reads.
pub open spec fn spec_scan_chunk_count(start: u64, end: u64, chunk_size: int, page_size: int) -> int {
    let origin = spec_scan_origin(start, page_size);
    if end <= origin {
        0
    } else {
        (end - origin + chunk_size - 1) / chunk_size
    }
}

/// Address and size of chunk `k` of a scan: chunks lie back to back from
/// the origin, and the last ends at `end`.
pub open spec fn spec_scan_request(
    start: u64,
    end: u64,
    chunk_size: int,
    page_size: int,
    k: int,
) -> (u64, usize) {
    let address = spec_scan_origin(start, page_size) + k * chunk_size;
    let left = end - address;
    (
        address as u64,
        (if left < chunk_size {
            left
        } else {
            chunk_size
        }) as usize,
    )
}

/// The items of one chunk, given what the read of it handed back: none for
/// a read that failed, gave a buffer of another size than asked for, or
/// delivered no page.
pub open spec fn spec_chunk_items(
    request: (u64, usize),
    outcome: Option<MemoryRead>,
    start: u64,
    end: u64,
    value_type: ValueType,
    page_size: int,
) -> Seq<FuzzySearchResultItem> {
    match outcome {
        Some(read) => if read.data@.len() == request.1 && read.pages.spec_success_count() > 0 {
            spec_buffer_items(
                read.data@,
                request.0,
                start,
                end,
                value_type,
                page_size,
                read.pages@,
            )
        } else {
            Seq::empty()
        },
        None => Seq::empty(),
    }
}

/// The items of a scan, given what the reads of its chunks handed back:
/// those of the chunks, chunk after chunk.
pub open spec fn spec_scanned_items(
    value_type: ValueType,
    start: u64,
    end: u64,
    chunk_size: int,
    page_size: int,
    outcomes: Seq<Option<MemoryRead>>,
) -> Seq<FuzzySearchResultItem> {
    Seq::new(
        outcomes.len(),
        |k: int|
            spec_chunk_items(
                spec_scan_request(start, end, chunk_size, page_size, k),
                outcomes[k],
                start,
                end,
                value_type,
                page_size,
            ),
    ).flatten()
}

/// A check for cancellation is given and could say yes.
pub open spec fn spec_may_cancel<C: Fn() -> bool>(check_cancelled: Option<&C>) -> bool {
    check_cancelled matches Some(check) && call_ensures(*check, (), true)
}

/// No check for cancellation is given, or the one given could say no.
pub open spec fn spec_may_go_on<C: Fn() -> bool>(check_cancelled: Option<&C>) -> bool {
    match check_cancelled {
        Some(check) => call_ensures(*check, (), false),
        None => true,
    }
}

/// A check for cancellation is given and can only say yes.
pub open spec fn spec_only_cancels<C: Fn() -> bool>(check_cancelled: Option<&C>) -> bool {
    match check_cancelled {
        Some(check) => spec_always_cancels(*check),
        None => false,
    }
}

/// `outcomes` is what the reads of a scan handed back: an outcome for each
/// chunk from the first on, each a possible answer of `read_memory`; for
/// every chunk, unless `check_cancelled` could say yes; and for none,
/// unless it could say no.
pub open spec fn spec_scan_reads<R: Fn(u64, usize) -> Option<MemoryRead>, C: Fn() -> bool>(
    start: u64,
    end: u64,
    chunk_size: int,
    page_size: int,
    read_memory: R,
    check_cancelled: Option<&C>,
    outcomes: Seq<Option<MemoryRead>>,
) -> bool {
    &&& outcomes.len() <= spec_scan_chunk_count(start, end, chunk_size, page_size)
    &&& outcomes.len() < spec_scan_chunk_count(start, end, chunk_size, page_size)
        ==> spec_may_cancel(check_cancelled)
    &&& outcomes.len() > 0 ==> spec_may_go_on(check_cancelled)
    &&& forall|k: int|
        0 <= k < outcomes.len() ==> call_ensures(
            read_memory,
            spec_scan_request(start, end, chunk_size, page_size, k),
            #[trigger] outcomes[k],
        )
}

/// The first snapshot of a fuzzy search: the value at every address in
/// `[start, end)` that is a multiple of the value's size, as far as its
/// page could be read.
///
/// Memory is read in chunks of `chunk_size` bytes from the page boundary at
/// or below `start`; `read_memory` is asked for each chunk by address and
/// size. A chunk for which it gives `None`, a buffer of another size than
/// asked for, or no page at all, adds nothing. `check_cancelled`, where
/// given, is asked before each chunk; once it says yes the scan ends and
/// returns what it has.
pub fn fuzzy_initial_scan<R, C>(
    value_type: ValueType,
    start: u64,
    end: u64,
    chunk_size: usize,
    page_size: usize,
    read_memory: R,
    check_cancelled: Option<&C>,
) -> (r: Result<FuzzyResultSet, ErrorKind>) where
    R: Fn(u64, usize) -> Option<MemoryRead>,
    C: Fn() -> bool,

    requires
        page_size >= 1,
        chunk_size >= 1,
        forall|addr: u64, size: usize| call_requires(read_memory, (addr, size)),
        check_cancelled matches Some(check) ==> call_requires(*check, ()),
    ensures
        r matches Ok(set) && {
            &&& set.well_formed()
            &&& exists|outcomes: Seq<Option<MemoryRead>>|
                spec_scan_reads(
                    start,
                    end,
                    chunk_size as int,
                    page_size as int,
                    read_memory,
                    check_cancelled,
                    outcomes,
                ) && set@ == spec_insert_all(
                    spec_scanned_items(
                        value_type,
                        start,
                        end,
                        chunk_size as int,
                        page_size as int,
                        outcomes,
                    ),
                )
            &&& forall|address: u64| #[trigger]
                set@.dom().contains(address) ==> spec_item_in_range(
                    set@[address],
                    start,
                    end,
                    value_type,
                )
            &&& spec_only_cancels(check_cancelled) ==> set@ == Map::<
                u64,
                FuzzySearchResultItem,
            >::empty()
        },
{
    let element_size = value_type.size();
    let mut results = FuzzyResultSet::new();
    let page = page_size as u64;
    proof {
        vstd::arithmetic::div_mod::lemma_mod_decreases(start as nat, page as nat);
    }
    let origin: u64 = start - start % page;
    let mut current: u64 = origin;
    let ghost mut outcomes: Seq<Option<MemoryRead>> = Seq::empty();
    let ghost mut per_chunk: Seq<Seq<FuzzySearchResultItem>> = Seq::empty();
    let ghost span = if end <= origin {
        0int
    } else {
        end - origin
    };
    let ghost count = spec_scan_chunk_count(start, end, chunk_size as int, page_size as int);
    proof {
        lemma_chunk_count(span, chunk_size as int, 0);
        assert(results@ =~= spec_insert_all(per_chunk.flatten()));
    }
    while current < end
        invariant
            page_size >= 1,
            chunk_size >= 1,
            element_size == value_type.spec_size(),
            origin == spec_scan_origin(start, page_size as int),
            origin <= current,
            span == (if end <= origin {
                0int
            } else {
                end - origin
            }),
            count == spec_scan_chunk_count(start, end, chunk_size as int, page_size as int),
            forall|addr: u64, size: usize| call_requires(read_memory, (addr, size)),
            check_cancelled matches Some(check) ==> call_requires(*check, ()),
            outcomes.len() == per_chunk.len(),
            outcomes.len() <= count,
            outcomes.len() > 0 ==> spec_may_go_on(check_cancelled),
            spec_only_cancels(check_cancelled) ==> outcomes.len() == 0 && results@ == Map::<
                u64,
                FuzzySearchResultItem,
            >::empty(),
            current < end ==> current == origin + outcomes.len() * chunk_size,
            (current < end) <==> (outcomes.len() < count),
            forall|k: int|
                0 <= k < outcomes.len() ==> call_ensures(
                    read_memory,
                    spec_scan_request(start, end, chunk_size as int, page_size as int, k),
                    #[trigger] outcomes[k],
                ),
            forall|k: int|
                0 <= k < per_chunk.len() ==> #[trigger] per_chunk[k] == spec_chunk_items(
                    spec_scan_request(start, end, chunk_size as int, page_size as int, k),
                    outcomes[k],
                    start,
                    end,
                    value_type,
                    page_size as int,
                ),
            results.well_formed(),
            results@ == spec_insert_all(per_chunk.flatten()),
            forall|address: u64| #[trigger]
                results@.dom().contains(address) ==> spec_item_in_range(
                    results@[address],
                    start,
                    end,
                    value_type,
                ),
        decreases end - current,
    {
        match check_cancelled {
            Some(check) => {
                if check() {
                    proof {
                        assert(per_chunk =~= Seq::new(
                            outcomes.len(),
                            |k: int|
                                spec_chunk_items(
                                    spec_scan_request(
                                        start,
                                        end,
                                        chunk_size as int,
                                        page_size as int,
                                        k,
                                    ),
                                    outcomes[k],
                                    start,
                                    end,
                                    value_type,
                                    page_size as int,
                                ),
                        ));
                        assert(spec_scan_reads(
                            start,
                            end,
                            chunk_size as int,
                            page_size as int,
                            read_memory,
                            check_cancelled,
                            outcomes,
                        ));
                    }
                    return Ok(results);
                }
            },
            None => {},
        }
        let left = end - current;
        let chunk_len: usize = if left < chunk_size as u64 {
            left as usize
        } else {
            chunk_size
        };
        let chunk_end = current + chunk_len as u64;
        let ghost k = outcomes.len() as int;
        let ghost request = spec_scan_request(start, end, chunk_size as int, page_size as int, k);
        assert(request == (current, chunk_len));
        let outcome = read_memory(current, chunk_len);
        let ghost found = spec_chunk_items(
            request,
            outcome,
            start,
            end,
            value_type,
            page_size as int,
        );
        let ghost before = per_chunk.flatten();
        proof {
            per_chunk.lemma_flatten_push(found);
            outcomes = outcomes.push(outcome);
            per_chunk = per_chunk.push(found);
        }
        match outcome {
            Some(read) => {
                if read.data.len() == chunk_len && read.pages.success_count() > 0 {
                    let chunk_results = scan_buffer_parallel(
                        read.data.as_slice(),
                        current,
                        start,
                        end,
                        element_size,
                        value_type,
                        page_size,
                        &read.pages,
                    );
                    let mut i: usize = 0;
                    assert(before + chunk_results@.take(0) =~= before);
                    while i < chunk_results.len()
                        invariant
                            0 <= i <= chunk_results@.len(),
                            results.well_formed(),
                            results@ == spec_insert_all(before + chunk_results@.take(i as int)),
                            forall|j: int|
                                0 <= j < chunk_results@.len() ==> spec_item_in_range(
                                    #[trigger] chunk_results@[j],
                                    start,
                                    end,
                                    value_type,
                                ),
                            forall|address: u64| #[trigger]
                                results@.dom().contains(address) ==> spec_item_in_range(
                                    results@[address],
                                    start,
                                    end,
                                    value_type,
                                ),
                        decreases chunk_results@.len() - i,
                    {
                        proof {
                            let seen = before + chunk_results@.take(i as int);
                            lemma_insert_all_push(seen, chunk_results@[i as int]);
                            assert(seen.push(chunk_results@[i as int]) =~= before
                                + chunk_results@.take(i + 1));
                        }
                        results.insert(chunk_results[i]);
                        i = i + 1;
                    }
                    assert(chunk_results@.take(i as int) =~= chunk_results@);
                } else {
                    assert(before + found =~= before);
                }
            },
            None => {
                assert(before + found =~= before);
            },
        }
        proof {
            lemma_chunk_count(span, chunk_size as int, k + 1);
            assert((k + 1) * chunk_size == k * chunk_size + chunk_size) by (nonlinear_arith);
        }
        current = chunk_end;
    }
    proof {
        assert(per_chunk =~= Seq::new(
            outcomes.len(),
            |k: int|
                spec_chunk_items(
                    spec_scan_request(start, end, chunk_size as int, page_size as int, k),
                    outcomes[k],
                    start,
                    end,
                    value_type,
                    page_size as int,
                ),
        ));
        assert(spec_scan_reads(
            start,
            end,
            chunk_size as int,
            page_size as int,
            read_memory,
            check_cancelled,
            outcomes,
        ));
    }
    Ok(results)
}

/// The item that takes the place of `old` once the bytes `new_bytes` were
/// read at its address.
pub open spec fn spec_refined_item(
    old: FuzzySearchResultItem,
    new_bytes: Seq<u8>,
) -> FuzzySearchResultItem {
    FuzzySearchResultItem {
        address: old.address,
        value_type: old.value_type,
        value_bits: spec_le_value(new_bytes.take(old.value_type.spec_size() as int)) as u64,
    }
}

/// The decisions are those of a refinement pass: one for each item with
/// the bytes read for it; for an integer type the outcome of the
/// condition, for a floating-point type whatever `float_matches` answered.
pub open spec fn spec_decisions_valid<M: Fn(FuzzySearchResultItem, u64, FuzzyCondition) -> bool>(
    pairs: Seq<(FuzzySearchResultItem, Vec<u8>)>,
    condition: FuzzyCondition,
    float_matches: M,
    decisions: Seq<bool>,
) -> bool {
    &&& decisions.len() == pairs.len()
    &&& forall|i: int|
        0 <= i < pairs.len() ==> match (#[trigger] pairs[i]).0.spec_matches_condition(
            pairs[i].1@,
            condition,
        ) {
            Some(holds) => decisions[i] == holds,
            None => call_ensures(
                float_matches,
                (pairs[i].0, spec_refined_item(pairs[i].0, pairs[i].1@).value_bits, condition),
                decisions[i],
            ),
        }
}

/// The items that a refinement pass keeps: those decided for, in order,
/// each with the value that was read for it.
pub open spec fn spec_selected(
    pairs: Seq<(FuzzySearchResultItem, Vec<u8>)>,
    decisions: Seq<bool>,
) -> Seq<FuzzySearchResultItem> {
    Seq::new(pairs.len(), |i: int| (decisions[i], spec_refined_item(pairs[i].0, pairs[i].1@))).filter(
        |entry: (bool, FuzzySearchResultItem)| entry.0,
    ).map_values(|entry: (bool, FuzzySearchResultItem)| entry.1)
}

/// What holds of an item that a refinement pass kept for `old`: it has the
/// address and type of `old`, a value of that type, and, for an integer
/// type, a value that meets the condition.
pub open spec fn spec_refines(
    old: FuzzySearchResultItem,
    new: FuzzySearchResultItem,
    condition: FuzzyCondition,
) -> bool {
    &&& new.address == old.address
    &&& new.value_type == old.value_type
    &&& new.spec_fits()
    &&& !old.value_type.spec_is_float() ==> spec_condition_holds(
        condition,
        old.spec_value(),
        new.spec_value(),
    )
}

/// `new` was kept for one of the items.
pub open spec fn spec_refines_one_of(
    items: Seq<FuzzySearchResultItem>,
    new: FuzzySearchResultItem,
    condition: FuzzyCondition,
) -> bool {
    exists|i: int| 0 <= i < items.len() && spec_refines(#[trigger] items[i], new, condition)
}

/// The items of the pairs, without the bytes read for them.
pub open spec fn spec_pair_items(pairs: Seq<(FuzzySearchResultItem, Vec<u8>)>) -> Seq<
    FuzzySearchResultItem,
> {
    pairs.map_values(|pair: (FuzzySearchResultItem, Vec<u8>)| pair.0)
}

/// Keeps, of the items with the bytes that were read for them, those that
/// meet the condition, each with its new value. For an item of a
/// floating-point type `float_matches` is asked, with the item, the bits
/// of the new value and the condition.
pub fn filter_matching<M>(
    pairs: &Vec<(FuzzySearchResultItem, Vec<u8>)>,
    condition: FuzzyCondition,
    float_matches: &M,
) -> (r: Vec<FuzzySearchResultItem>) where M: Fn(FuzzySearchResultItem, u64, FuzzyCondition) -> bool
    requires
        forall|i: int|
            0 <= i < pairs@.len() ==> (#[trigger] pairs@[i]).0.spec_fits() && pairs@[i].1@.len()
                >= pairs@[i].0.value_type.spec_size(),
        forall|item: FuzzySearchResultItem, bits: u64, cond: FuzzyCondition|
            call_requires(*float_matches, (item, bits, cond)),
    ensures
        exists|decisions: Seq<bool>|
            spec_decisions_valid(pairs@, condition, *float_matches, decisions) && r@
                == spec_selected(pairs@, decisions),
        forall|j: int|
            0 <= j < r@.len() ==> spec_refines_one_of(
                spec_pair_items(pairs@),
                #[trigger] r@[j],
                condition,
            ),
{
    let mut matched: Vec<FuzzySearchResultItem> = Vec::new();
    let ghost mut decisions: Seq<bool> = Seq::empty();
    let ghost kept = |entry: (bool, FuzzySearchResultItem)| entry.0;
    let ghost item_of = |entry: (bool, FuzzySearchResultItem)| entry.1;
    let ghost mut entries: Seq<(bool, FuzzySearchResultItem)> = Seq::empty();
    let mut i: usize = 0;
    proof {
        assert(entries.filter(kept) =~= Seq::empty()) by {
            reveal(Seq::filter);
        }
        assert(entries.filter(kept).map_values(item_of) =~= Seq::empty());
    }
    while i < pairs.len()
        invariant
            0 <= i <= pairs@.len(),
            forall|k: int|
                0 <= k < pairs@.len() ==> (#[trigger] pairs@[k]).0.spec_fits() && pairs@[k].1@.len()
                    >= pairs@[k].0.value_type.spec_size(),
            forall|item: FuzzySearchResultItem, bits: u64, cond: FuzzyCondition|
                call_requires(*float_matches, (item, bits, cond)),
            kept == (|entry: (bool, FuzzySearchResultItem)| entry.0),
            item_of == (|entry: (bool, FuzzySearchResultItem)| entry.1),
            decisions.len() == i,
            entries.len() == i,
            forall|k: int|
                0 <= k < i ==> (#[trigger] entries[k]) == (
                    decisions[k],
                    spec_refined_item(pairs@[k].0, pairs@[k].1@),
                ),
            forall|k: int|
                0 <= k < i ==> match (#[trigger] pairs@[k]).0.spec_matches_condition(
                    pairs@[k].1@,
                    condition,
                ) {
                    Some(holds) => decisions[k] == holds,
                    None => call_ensures(
                        *float_matches,
                        (
                            pairs@[k].0,
                            spec_refined_item(pairs@[k].0, pairs@[k].1@).value_bits,
                            condition,
                        ),
                        decisions[k],
                    ),
                },
            matched@ == entries.filter(kept).map_values(item_of),
            forall|j: int|
                0 <= j < matched@.len() ==> spec_refines_one_of(
                    spec_pair_items(pairs@),
                    #[trigger] matched@[j],
                    condition,
                ),
        decreases pairs@.len() - i,
    {
        let old_item = pairs[i].0;
        let new_item = FuzzySearchResultItem::from_bytes(
            old_item.address,
            pairs[i].1.as_slice(),
            old_item.value_type,
        );
        let keep = match old_item.matches_condition(pairs[i].1.as_slice(), condition) {
            Some(holds) => holds,
            None => float_matches(old_item, new_item.value_bits, condition),
        };
        proof {
            let entry = (keep, new_item);
            entries.lemma_filter_push(entry, kept);
            entries.filter(kept).lemma_push_map_commute(item_of, entry);
            entries = entries.push(entry);
            decisions = decisions.push(keep);
        }
        if keep {
            matched.push(new_item);
            assert(spec_refines(spec_pair_items(pairs@)[i as int], new_item, condition));
        }
        i = i + 1;
    }
    proof {
        assert(entries =~= Seq::new(
            pairs@.len(),
            |k: int| (decisions[k], spec_refined_item(pairs@[k].0, pairs@[k].1@)),
        ));
        assert(spec_decisions_valid(pairs@, condition, *float_matches, decisions));
        assert(matched@ == spec_selected(pairs@, decisions));
    }
    matched
}

/// A read gave the bytes of one value of the item's type.
pub open spec fn spec_usable_read() -> spec_fn((FuzzySearchResultItem, Option<Vec<u8>>)) -> bool {
    |entry: (FuzzySearchResultItem, Option<Vec<u8>>)|
        entry.1 matches Some(bytes) && bytes@.len() == entry.0.value_type.spec_size()
}

/// An item with the bytes that were read for it.
pub open spec fn spec_read_pair() -> spec_fn((FuzzySearchResultItem, Option<Vec<u8>>)) -> (
    FuzzySearchResultItem,
    Vec<u8>,
) {
    |entry: (FuzzySearchResultItem, Option<Vec<u8>>)| (entry.0, entry.1.unwrap())
}

/// The items that could be read again, each with the bytes read for it,
/// given what the reads handed back.
pub open spec fn spec_readable_pairs(
    items: Seq<FuzzySearchResultItem>,
    outcomes: Seq<Option<Vec<u8>>>,
) -> Seq<(FuzzySearchResultItem, Vec<u8>)> {
    Seq::new(outcomes.len(), |i: int| (items[i], outcomes[i])).filter(
        spec_usable_read(),
    ).map_values(spec_read_pair())
}

/// `outcomes` is what the reads of a refinement pass handed back: an
/// outcome for each item from the first on, each a possible answer of
/// `read_value` to the request for that item's value; for every item,
/// unless `check_cancelled` could say yes before one whose index is a
/// multiple of 100; and for none, unless it could say no.
pub open spec fn spec_refine_reads<R: Fn(u64, usize) -> Option<Vec<u8>>, C: Fn() -> bool>(
    items: Seq<FuzzySearchResultItem>,
    read_value: R,
    check_cancelled: Option<&C>,
    outcomes: Seq<Option<Vec<u8>>>,
) -> bool {
    &&& outcomes.len() <= items.len()
    &&& outcomes.len() < items.len() ==> outcomes.len() % 100 == 0 && spec_may_cancel(
        check_cancelled,
    )
    &&& outcomes.len() > 0 ==> spec_may_go_on(check_cancelled)
    &&& forall|i: int|
        0 <= i < outcomes.len() ==> call_ensures(
            read_value,
            (items[i].address, items[i].value_type.spec_size() as usize),
            #[trigger] outcomes[i],
        )
}

/// A refinement pass: reads the value at the address of each item again
/// and keeps the items whose new value meets the condition, each with that
/// value.
///
/// `read_value` is asked for each item in order, by address and size; an
/// item for which it gives `None`, or bytes of another number than asked
/// for, is dropped. `float_matches` decides for items of a floating-point
/// type. `check_cancelled`, where given, is asked before every hundredth
/// item; once it says yes no more items are read, and the pass goes on with
/// those read so far. `update_progress` is told the items read and kept
/// after every hundred, and at the end the number of items given and the
/// size of the result.
pub fn fuzzy_refine_search<R, M, P, C>(
    items: &Vec<FuzzySearchResultItem>,
    condition: FuzzyCondition,
    read_value: R,
    float_matches: M,
    update_progress: &P,
    check_cancelled: Option<&C>,
) -> (r: Result<FuzzyResultSet, ErrorKind>) where
    R: Fn(u64, usize) -> Option<Vec<u8>>,
    M: Fn(FuzzySearchResultItem, u64, FuzzyCondition) -> bool,
    P: Fn(usize, usize),
    C: Fn() -> bool,

    requires
        forall|i: int| 0 <= i < items@.len() ==> (#[trigger] items@[i]).spec_fits(),
        forall|addr: u64, size: usize| call_requires(read_value, (addr, size)),
        forall|item: FuzzySearchResultItem, bits: u64, cond: FuzzyCondition|
            call_requires(float_matches, (item, bits, cond)),
        forall|done: usize, found: usize| call_requires(*update_progress, (done, found)),
        check_cancelled matches Some(check) ==> call_requires(*check, ()),
    ensures
        r matches Ok(set) && {
            &&& set.well_formed()
            &&& exists|outcomes: Seq<Option<Vec<u8>>>, decisions: Seq<bool>|
                spec_refine_reads(items@, read_value, check_cancelled, outcomes)
                    && spec_decisions_valid(
                    spec_readable_pairs(items@, outcomes),
                    condition,
                    float_matches,
                    decisions,
                ) && set@ == spec_insert_all(
                    spec_selected(spec_readable_pairs(items@, outcomes), decisions),
                )
            &&& forall|address: u64| #[trigger]
                set@.dom().contains(address) ==> spec_refines_one_of(
                    items@,
                    set@[address],
                    condition,
                )
            &&& spec_only_cancels(check_cancelled) ==> set@ == Map::<
                u64,
                FuzzySearchResultItem,
            >::empty()
        },
{
    let total_items = items.len();
    let mut results = FuzzyResultSet::new();
    let ghost usable = spec_usable_read();
    let ghost to_pair = spec_read_pair();
    let ghost mut outcomes: Seq<Option<Vec<u8>>> = Seq::empty();
    let ghost mut entries: Seq<(FuzzySearchResultItem, Option<Vec<u8>>)> = Seq::empty();
    let mut pairs: Vec<(FuzzySearchResultItem, Vec<u8>)> = Vec::with_capacity(total_items);
    let mut idx: usize = 0;
    proof {
        assert(entries.filter(usable) =~= Seq::empty()) by {
            reveal(Seq::filter);
        }
        assert(pairs@ =~= entries.filter(usable).map_values(to_pair));
    }
    while idx < total_items
        invariant
            0 <= idx <= total_items,
            total_items == items@.len(),
            forall|i: int| 0 <= i < items@.len() ==> (#[trigger] items@[i]).spec_fits(),
            forall|addr: u64, size: usize| call_requires(read_value, (addr, size)),
            forall|done: usize, found: usize| call_requires(*update_progress, (done, found)),
            check_cancelled matches Some(check) ==> call_requires(*check, ()),
            usable == spec_usable_read(),
            to_pair == spec_read_pair(),
            outcomes.len() == idx,
            entries.len() == idx,
            idx > 0 ==> spec_may_go_on(check_cancelled),
            spec_only_cancels(check_cancelled) ==> idx == 0,
            forall|i: int| 0 <= i < idx ==> #[trigger] entries[i] == (items@[i], outcomes[i]),
            forall|i: int|
                0 <= i < idx ==> call_ensures(
                    read_value,
                    (items@[i].address, items@[i].value_type.spec_size() as usize),
                    #[trigger] outcomes[i],
                ),
            pairs@ == entries.filter(usable).map_values(to_pair),
            forall|k: int|
                0 <= k < pairs@.len() ==> (#[trigger] pairs@[k]).0.spec_fits() && pairs@[k].1@.len()
                    >= pairs@[k].0.value_type.spec_size() && items@.contains(pairs@[k].0),
        ensures
            idx < total_items ==> idx % 100 == 0 && spec_may_cancel(check_cancelled),
        decreases total_items - idx,
    {
        if idx % 100 == 0 {
            let stop = match check_cancelled {
                Some(check) => check(),
                None => false,
            };
            if stop {
                break ;
            }
        }
        let old_item = items[idx];
        let element_size = old_item.value_type.size();
        let outcome = read_value(old_item.address, element_size);
        proof {
            let entry = (old_item, outcome);
            entries.lemma_filter_push(entry, usable);
            entries.filter(usable).lemma_push_map_commute(to_pair, entry);
            entries = entries.push(entry);
            outcomes = outcomes.push(outcome);
        }
        match outcome {
            Some(bytes) => {
                if bytes.len() == element_size {
                    pairs.push((old_item, bytes));
                }
            },
            None => {},
        }
        idx = idx + 1;
        if idx % 100 == 0 {
            update_progress(idx, pairs.len());
        }
    }
    proof {
        assert(entries =~= Seq::new(outcomes.len(), |i: int| (items@[i], outcomes[i])));
        assert(pairs@ == spec_readable_pairs(items@, outcomes));
        assert(spec_refine_reads(items@, read_value, check_cancelled, outcomes));
    }
    let matched = filter_matching(&pairs, condition, &float_matches);
    let ghost decisions = choose|decisions: Seq<bool>|
        spec_decisions_valid(pairs@, condition, float_matches, decisions) && matched@
            == spec_selected(pairs@, decisions);
    proof {
        assert forall|j: int| 0 <= j < matched@.len() implies spec_refines_one_of(
            items@,
            #[trigger] matched@[j],
            condition,
        ) by {
            let from = spec_pair_items(pairs@);
            assert(spec_refines_one_of(from, matched@[j], condition));
            let k = choose|k: int|
                0 <= k < from.len() && spec_refines(#[trigger] from[k], matched@[j], condition);
            assert(from[k] == pairs@[k].0);
            assert(items@.contains(pairs@[k].0));
            let i = choose|i: int| 0 <= i < items@.len() && items@[i] == pairs@[k].0;
            assert(spec_refines(items@[i], matched@[j], condition));
        }
        assert(results@ =~= spec_insert_all(matched@.take(0)));
        if spec_only_cancels(check_cancelled) {
            assert(spec_pair_items(pairs@).len() == 0);
            if matched@.len() > 0 {
                assert(spec_refines_one_of(spec_pair_items(pairs@), matched@[0], condition));
            }
        }
    }
    let mut i: usize = 0;
    while i < matched.len()
        invariant
            0 <= i <= matched@.len(),
            results.well_formed(),
            results@ == spec_insert_all(matched@.take(i as int)),
            spec_only_cancels(check_cancelled) ==> matched@.len() == 0 && results@ == Map::<
                u64,
                FuzzySearchResultItem,
            >::empty(),
            forall|j: int|
                0 <= j < matched@.len() ==> spec_refines_one_of(
                    items@,
                    #[trigger] matched@[j],
                    condition,
                ),
            forall|address: u64| #[trigger]
                results@.dom().contains(address) ==> spec_refines_one_of(
                    items@,
                    results@[address],
                    condition,
                ),
        decreases matched@.len() - i,
    {
        let item = matched[i];
        proof {
            assert(spec_refines_one_of(items@, matched@[i as int], condition));
            assert(item.spec_fits());
            lemma_insert_all_push(matched@.take(i as int), item);
            assert(matched@.take(i as int).push(item) =~= matched@.take(i + 1));
        }
        results.insert(item);
        i = i + 1;
    }
    assert(matched@.take(i as int) =~= matched@);
    if total_items > 0 {
        update_progress(total_items, results.len());
    }
    Ok(results)
}

/// Two items of one type with values of that type are the same number only
/// if they hold the same bits.
pub proof fn lemma_same_value_same_bits(a: FuzzySearchResultItem, b: FuzzySearchResultItem)
    requires
        a.value_type == b.value_type,
        a.spec_fits(),
        b.spec_fits(),
        a.spec_value() == b.spec_value(),
    ensures
        a.value_bits == b.value_bits,
{
    crate::search::result_manager::lemma_pow256_values();
}

/// A pass that asks for unchanged values, over memory that has not
/// changed, keeps every item that could be read, as it is: where each item
/// is of an integer type and the bytes read for it are those of its value,
/// the pass returns the items in order.
pub proof fn lemma_unchanged_keeps_readable<M: Fn(FuzzySearchResultItem, u64, FuzzyCondition) -> bool>(
    pairs: Seq<(FuzzySearchResultItem, Vec<u8>)>,
    float_matches: M,
    decisions: Seq<bool>,
)
    requires
        spec_decisions_valid(pairs, FuzzyCondition::Unchanged, float_matches, decisions),
        forall|i: int|
            0 <= i < pairs.len() ==> {
                &&& !(#[trigger] pairs[i]).0.value_type.spec_is_float()
                &&& pairs[i].1@.len() >= pairs[i].0.value_type.spec_size()
                &&& spec_refined_item(pairs[i].0, pairs[i].1@) == pairs[i].0
            },
    ensures
        spec_selected(pairs, decisions) == pairs.map_values(
            |pair: (FuzzySearchResultItem, Vec<u8>)| pair.0,
        ),
{
    let kept = |entry: (bool, FuzzySearchResultItem)| entry.0;
    let item_of = |entry: (bool, FuzzySearchResultItem)| entry.1;
    let entries = Seq::new(
        pairs.len(),
        |i: int| (decisions[i], spec_refined_item(pairs[i].0, pairs[i].1@)),
    );
    assert forall|i: int| 0 <= i < entries.len() implies kept(#[trigger] entries[i]) by {
        let old = pairs[i].0;
        let read = pairs[i].1@.take(old.value_type.spec_size() as int);
        lemma_le_value_bound(read);
        crate::search::result_manager::lemma_pow256_values();
        assert(spec_le_value(read) == old.value_bits);
        assert(old.spec_matches_condition(pairs[i].1@, FuzzyCondition::Unchanged) == Some(true));
        assert(decisions[i]);
    }
    lemma_filter_keeps_all(entries, kept);
    assert(entries.map_values(item_of) =~= pairs.map_values(
        |pair: (FuzzySearchResultItem, Vec<u8>)| pair.0,
    ));
}

/// The items whose value could be read again, in order, given what the
/// reads handed back.
pub open spec fn spec_readable_items(
    items: Seq<FuzzySearchResultItem>,
    outcomes: Seq<Option<Vec<u8>>>,
) -> Seq<FuzzySearchResultItem> {
    Seq::new(outcomes.len(), |i: int| (items[i], outcomes[i])).filter(
        spec_usable_read(),
    ).map_values(|entry: (FuzzySearchResultItem, Option<Vec<u8>>)| entry.0)
}

/// Asking for unchanged values twice in a row, with no write between,
/// gives the items of the first answer that can still be read, as they
/// are. Stated of the second pass: where its items are of integer types,
/// and every read that succeeds hands back the bytes of the value that the
/// item holds, the pass selects exactly the items that could be read, and
/// its result is the set of those.
pub proof fn lemma_unchanged_pass_keeps_what_stays_readable<
    M: Fn(FuzzySearchResultItem, u64, FuzzyCondition) -> bool,
>(
    items: Seq<FuzzySearchResultItem>,
    outcomes: Seq<Option<Vec<u8>>>,
    float_matches: M,
    decisions: Seq<bool>,
)
    requires
        outcomes.len() <= items.len(),
        forall|i: int|
            0 <= i < outcomes.len() ==> !(#[trigger] items[i]).value_type.spec_is_float(),
        forall|i: int|
            0 <= i < outcomes.len() && (#[trigger] outcomes[i]) is Some
                && outcomes[i].unwrap()@.len() == items[i].value_type.spec_size()
                ==> spec_refined_item(items[i], outcomes[i].unwrap()@) == items[i],
        spec_decisions_valid(
            spec_readable_pairs(items, outcomes),
            FuzzyCondition::Unchanged,
            float_matches,
            decisions,
        ),
    ensures
        spec_selected(spec_readable_pairs(items, outcomes), decisions) == spec_readable_items(
            items,
            outcomes,
        ),
        spec_insert_all(spec_selected(spec_readable_pairs(items, outcomes), decisions))
            == spec_insert_all(spec_readable_items(items, outcomes)),
{
    let entries = Seq::new(outcomes.len(), |i: int| (items[i], outcomes[i]));
    let usable = spec_usable_read();
    let unchanged = |entry: (FuzzySearchResultItem, Option<Vec<u8>>)|
        !entry.0.value_type.spec_is_float() && (usable(entry) ==> spec_refined_item(
            entry.0,
            entry.1.unwrap()@,
        ) == entry.0);
    assert(entries.all(unchanged)) by {
        assert forall|i: int| 0 <= i < entries.len() implies #[trigger] unchanged(entries[i]) by {
            assert(entries[i] == (items[i], outcomes[i]));
        }
    }
    lemma_all_filter(entries, usable, unchanged);
    let readable = entries.filter(usable);
    let pairs = spec_readable_pairs(items, outcomes);
    assert(pairs == readable.map_values(spec_read_pair()));
    assert forall|k: int| 0 <= k < pairs.len() implies {
        &&& !(#[trigger] pairs[k]).0.value_type.spec_is_float()
        &&& pairs[k].1@.len() >= pairs[k].0.value_type.spec_size()
        &&& spec_refined_item(pairs[k].0, pairs[k].1@) == pairs[k].0
    } by {
        assert(unchanged(readable[k]));
        assert(usable(readable[k]));
        assert(pairs[k] == spec_read_pair()(readable[k]));
    }
    lemma_unchanged_keeps_readable(pairs, float_matches, decisions);
    assert(pairs.map_values(|pair: (FuzzySearchResultItem, Vec<u8>)| pair.0)
        =~= spec_readable_items(items, outcomes));
}

/// Filtering by what holds of every element changes nothing.
proof fn lemma_filter_keeps_all<A>(s: Seq<A>, pred: spec_fn(A) -> bool)
    requires
        forall|i: int| 0 <= i < s.len() ==> pred(#[trigger] s[i]),
    ensures
        s.filter(pred) == s,
    decreases s.len(),
{
    reveal(Seq::filter);
    if s.len() > 0 {
        lemma_filter_keeps_all(s.drop_last(), pred);
        assert(s.drop_last().push(s.last()) =~= s);
    }
}

} // verus!
