//! Phase one of the pointer scan: find every value in the target's readable
//! memory that points back into readable memory, and store the finds sorted
//! by value.

use crate::error::spec_always_cancels;
use crate::error::ErrorKind;
use crate::memory::MemoryRead;
use crate::page_bitmap::PageStatusBitmap;
use crate::pointer_scan::types::PointerScanConfig;
use crate::pointer_scan::storage::MmapQueue;
use crate::pointer_scan::types::spec_sorted_by_value;
use crate::pointer_scan::types::PointerData;
use itertools::Itertools;
use rayon::slice::ParallelSliceMut;
use vstd::bytes::spec_u64_from_le_bytes;
use vstd::bytes::u64_from_le_bytes;
use crate::seq_facts::lemma_filter_map_keeps;
use crate::seq_facts::lemma_flatten_contains;
use vstd::prelude::*;
use vstd::slice::slice_subrange;

verus! {

/// The low 48 bits of a value: the part that addresses memory.
pub const POINTER_MASK: u64 = 0x0000_FFFF_FFFF_FFFF;

/// A range of the target's memory to scan: `[start, end)`.
#[derive(Clone, Debug, PartialEq, Eq)]
pub struct ScanRegion {
    pub start: u64,
    pub end: u64,
    pub name: String,
}

impl ScanRegion {
    /// `addr` lies in `[start, end)`.
    pub open spec fn spec_contains(self, addr: u64) -> bool {
        self.start <= addr < self.end
    }

    pub fn new(start: u64, end: u64, name: String) -> (r: Self)
        ensures
            r == (ScanRegion { start, end, name }),
    {
        ScanRegion { start, end, name }
    }

    /// Number of bytes in the region; 0 where `end` lies below `start`.
    pub fn size(&self) -> (r: u64)
        ensures
            r == if self.end >= self.start {
                self.end - self.start
            } else {
                0
            },
    {
        self.end.saturating_sub(self.start)
    }
}

/// `x` lies in one of the regions.
pub open spec fn spec_in_some_region(regions: Seq<ScanRegion>, x: u64) -> bool {
    exists|j: int| 0 <= j < regions.len() && (#[trigger] regions[j]).spec_contains(x)
}

/// `x` lies in one of the ranges, each taken as `[first, second)`.
pub open spec fn spec_in_some_range(ranges: Seq<(u64, u64)>, x: u64) -> bool {
    exists|i: int| 0 <= i < ranges.len() && (#[trigger] ranges[i]).0 <= x < ranges[i].1
}

/// The ranges are in ascending order and do not overlap: none is inverted,
/// and each ends at or below the start of every later one. Two ranges may
/// touch.
pub open spec fn spec_ranges_ordered(ranges: Seq<(u64, u64)>) -> bool {
    &&& forall|i: int| 0 <= i < ranges.len() ==> (#[trigger] ranges[i]).0 <= ranges[i].1
    &&& forall|i: int, j: int|
        0 <= i < j < ranges.len() ==> (#[trigger] ranges[i]).1 <= (#[trigger] ranges[j]).0
}

/// The ranges are in ascending order with a gap between any two: none is
/// inverted, and each ends below the start of every later one.
pub open spec fn spec_ranges_separated(ranges: Seq<(u64, u64)>) -> bool {
    &&& forall|i: int| 0 <= i < ranges.len() ==> (#[trigger] ranges[i]).0 <= ranges[i].1
    &&& forall|i: int, j: int|
        0 <= i < j < ranges.len() ==> (#[trigger] ranges[i]).1 < (#[trigger] ranges[j]).0
}

/// A value counts as a pointer when its low 48 bits address one of the ranges.
pub open spec fn spec_is_valid_pointer(value: u64, ranges: Seq<(u64, u64)>) -> bool {
    spec_in_some_range(ranges, value & POINTER_MASK)
}

/// Whether `value`, cut to 48 bits, addresses one of `valid_ranges`.
pub fn is_valid_pointer(value: u64, valid_ranges: &[(u64, u64)]) -> (r: bool)
    requires
        spec_ranges_ordered(valid_ranges@),
    ensures
        r == spec_is_valid_pointer(value, valid_ranges@),
{
    let masked = value & POINTER_MASK;
    let n = valid_ranges.len();
    if n == 0 {
        return false;
    }
    let min_addr = valid_ranges[0].0;
    let max_addr = valid_ranges[n - 1].1;
    if masked < min_addr || masked >= max_addr {
        return false;
    }
    // Ranges below `low` end at or below `masked`; ranges from `high` on
    // start above it.
    let mut low: usize = 0;
    let mut high: usize = n;
    while low < high
        invariant
            0 <= low <= high <= n,
            n == valid_ranges@.len(),
            masked == value & POINTER_MASK,
            spec_ranges_ordered(valid_ranges@),
            forall|i: int| 0 <= i < low ==> (#[trigger] valid_ranges@[i]).1 <= masked,
            forall|i: int| high <= i < n ==> masked < (#[trigger] valid_ranges@[i]).0,
        decreases high - low,
    {
        let mid = low + (high - low) / 2;
        let (start, end) = valid_ranges[mid];
        if masked < start {
            high = mid;
        } else if masked >= end {
            low = mid + 1;
        } else {
            assert(valid_ranges@[mid as int].0 <= masked < valid_ranges@[mid as int].1);
            return true;
        }
    }
    false
}

/// Calls `sort_unstable_by_key` of std on the ranges, with the start of a
/// range as its key. Trusted: the ranges are the same, each as often as
/// before, and their starts ascend.
#[verifier::external_body]
fn sort_ranges_by_start(ranges: &mut Vec<(u64, u64)>)
    ensures
        final(ranges)@.to_multiset() == old(ranges)@.to_multiset(),
        forall|i: int, j: int|
            0 <= i <= j < final(ranges)@.len() ==> (#[trigger] final(ranges)@[i]).0 <= (
            #[trigger] final(ranges)@[j]).0,
{
    ranges.sort_unstable_by_key(|r| r.0);
}

/// `x` lies in one of the ranges from index `from` on.
pub open spec fn spec_in_later_range(ranges: Seq<(u64, u64)>, from: int, x: u64) -> bool {
    exists|i: int| from <= i < ranges.len() && (#[trigger] ranges[i]).0 <= x < ranges[i].1
}

proof fn lemma_cover_push(ranges: Seq<(u64, u64)>, last: (u64, u64), x: u64)
    ensures
        spec_in_some_range(ranges.push(last), x) <==> spec_in_some_range(ranges, x) || last.0 <= x
            < last.1,
{
    let longer = ranges.push(last);
    if spec_in_some_range(ranges, x) {
        let i = choose|i: int| 0 <= i < ranges.len() && (#[trigger] ranges[i]).0 <= x < ranges[i].1;
        assert(longer[i] == ranges[i]);
    }
    if last.0 <= x < last.1 {
        assert(longer[ranges.len() as int] == last);
    }
    if spec_in_some_range(longer, x) {
        let i = choose|i: int| 0 <= i < longer.len() && (#[trigger] longer[i]).0 <= x < longer[i].1;
        if i < ranges.len() {
            assert(ranges[i] == longer[i]);
        }
    }
}

proof fn lemma_cover_same_members(a: Seq<(u64, u64)>, b: Seq<(u64, u64)>, x: u64)
    requires
        a.to_multiset() == b.to_multiset(),
    ensures
        spec_in_some_range(a, x) ==> spec_in_some_range(b, x),
{
    if spec_in_some_range(a, x) {
        let i = choose|i: int| 0 <= i < a.len() && (#[trigger] a[i]).0 <= x < a[i].1;
        assert(a.contains(a[i]));
        vstd::seq_lib::to_multiset_contains(a, a[i]);
        vstd::seq_lib::to_multiset_contains(b, a[i]);
        assert(b.contains(a[i]));
        let j = choose|j: int| 0 <= j < b.len() && b[j] == a[i];
        assert(b[j].0 <= x < b[j].1);
    }
}

/// The ranges hold something each: none is empty or inverted.
pub open spec fn spec_ranges_nonempty(ranges: Seq<(u64, u64)>) -> bool {
    forall|i: int| 0 <= i < ranges.len() ==> (#[trigger] ranges[i]).0 < ranges[i].1
}

/// The ranges of the regions, sorted by start, with ranges that overlap or
/// touch joined into one. A region that holds no address adds nothing. The
/// result covers exactly the addresses that the regions cover, in as few
/// ranges as that can be done with.
pub fn merge_valid_ranges(regions: &[ScanRegion]) -> (r: Vec<(u64, u64)>)
    ensures
        spec_ranges_separated(r@),
        spec_ranges_nonempty(r@),
        forall|x: u64| spec_in_some_range(r@, x) == spec_in_some_region(regions@, x),
        r@.len() <= regions@.len(),
{
    let mut valid_ranges: Vec<(u64, u64)> = Vec::new();
    let mut c: usize = 0;
    while c < regions.len()
        invariant
            0 <= c <= regions@.len(),
            valid_ranges@.len() <= c,
            spec_ranges_nonempty(valid_ranges@),
            forall|x: u64|
                spec_in_some_range(valid_ranges@, x) <==> (exists|j: int|
                    0 <= j < c && (#[trigger] regions@[j]).spec_contains(x)),
        decreases regions@.len() - c,
    {
        let ghost before = valid_ranges@;
        let start = regions[c].start;
        let end = regions[c].end;
        if start < end {
            valid_ranges.push((start, end));
        }
        proof {
            assert forall|x: u64|
                spec_in_some_range(valid_ranges@, x) <==> (exists|j: int|
                    0 <= j < c + 1 && (#[trigger] regions@[j]).spec_contains(x)) by {
                if start < end {
                    lemma_cover_push(before, (start, end), x);
                }
                if regions@[c as int].spec_contains(x) {
                    assert(start < end);
                }
                if exists|j: int| 0 <= j < c + 1 && (#[trigger] regions@[j]).spec_contains(x) {
                    let j = choose|j: int|
                        0 <= j < c + 1 && (#[trigger] regions@[j]).spec_contains(x);
                    if j < c {
                        assert(spec_in_some_range(before, x));
                    }
                }
                if spec_in_some_range(before, x) {
                    let j = choose|j: int| 0 <= j < c && (#[trigger] regions@[j]).spec_contains(x);
                    assert(0 <= j < c + 1 && regions@[j].spec_contains(x));
                }
            }
        }
        c = c + 1;
    }
    let ghost unsorted = valid_ranges@;
    if valid_ranges.len() == 0 {
        return valid_ranges;
    }
    sort_ranges_by_start(&mut valid_ranges);
    let ghost sorted = valid_ranges@;
    proof {
        vstd::seq_lib::to_multiset_len(sorted);
        vstd::seq_lib::to_multiset_len(unsorted);
        assert(sorted.len() == unsorted.len());
        assert forall|i: int| 0 <= i < sorted.len() implies (#[trigger] sorted[i]).0
            < sorted[i].1 by {
            assert(sorted.contains(sorted[i]));
            vstd::seq_lib::to_multiset_contains(sorted, sorted[i]);
            vstd::seq_lib::to_multiset_contains(unsorted, sorted[i]);
            assert(unsorted.contains(sorted[i]));
            let j = choose|j: int| 0 <= j < unsorted.len() && unsorted[j] == sorted[i];
            assert(unsorted[j].0 < unsorted[j].1);
        }
    }
    let n = valid_ranges.len();
    let mut merged: Vec<(u64, u64)> = Vec::with_capacity(n);
    let mut current = valid_ranges[0];
    let mut k: usize = 1;
    while k < n
        invariant
            1 <= k <= n,
            n == sorted.len(),
            valid_ranges@ == sorted,
            merged@.len() < k,
            spec_ranges_separated(merged@),
            spec_ranges_nonempty(merged@),
            forall|i: int| 0 <= i < merged@.len() ==> (#[trigger] merged@[i]).1 < current.0,
            current.0 < current.1,
            forall|j: int| k <= j < n ==> current.0 <= (#[trigger] sorted[j]).0,
            forall|i: int| 0 <= i < n ==> (#[trigger] sorted[i]).0 < sorted[i].1,
            forall|i: int, j: int|
                0 <= i <= j < n ==> (#[trigger] sorted[i]).0 <= (#[trigger] sorted[j]).0,
            forall|x: u64|
                spec_in_some_range(sorted, x) <==> spec_in_some_range(merged@, x) || current.0 <= x
                    < current.1 || spec_in_later_range(sorted, k as int, x),
        decreases n - k,
    {
        let next = valid_ranges[k];
        let ghost before = current;
        let ghost merged_before = merged@;
        if next.0 <= current.1 {
            if next.1 > current.1 {
                current.1 = next.1;
            }
        } else {
            merged.push(current);
            current = next;
        }
        proof {
            assert forall|x: u64|
                spec_in_some_range(sorted, x) <==> spec_in_some_range(merged@, x) || current.0 <= x
                    < current.1 || spec_in_later_range(sorted, k + 1, x) by {
                lemma_cover_push(merged_before, before, x);
                if spec_in_later_range(sorted, k as int, x) {
                    let i = choose|i: int|
                        k <= i < sorted.len() && (#[trigger] sorted[i]).0 <= x < sorted[i].1;
                    if i > k {
                        assert(spec_in_later_range(sorted, k + 1, x));
                    }
                }
                if spec_in_later_range(sorted, k + 1, x) {
                    let i = choose|i: int|
                        k + 1 <= i < sorted.len() && (#[trigger] sorted[i]).0 <= x < sorted[i].1;
                    assert(spec_in_later_range(sorted, k as int, x));
                }
                if next.0 <= x < next.1 {
                    assert(sorted[k as int].0 <= x < sorted[k as int].1);
                    assert(spec_in_later_range(sorted, k as int, x));
                }
            }
        }
        k = k + 1;
    }
    let ghost merged_before = merged@;
    merged.push(current);
    proof {
        assert forall|x: u64| spec_in_some_range(merged@, x) == spec_in_some_region(
            regions@,
            x,
        ) by {
            lemma_cover_push(merged_before, current, x);
            lemma_cover_same_members(sorted, unsorted, x);
            lemma_cover_same_members(unsorted, sorted, x);
        }
    }
    merged
}

/// Offsets within a page slice of `len` bytes at which a pointer is looked
/// for: every `step`-th from 0 on that leaves eight bytes to read.
pub open spec fn spec_scan_offsets(len: int, step: int) -> Seq<int> {
    if len < 8 || step <= 0 {
        Seq::empty()
    } else {
        Seq::new(((len - 8) / step + 1) as nat, |k: int| k * step)
    }
}

/// The record found at position `pos` of the buffer, if the eight bytes
/// there hold a valid pointer.
pub open spec fn spec_hit_at(
    buffer: Seq<u8>,
    base_addr: u64,
    ranges: Seq<(u64, u64)>,
    pos: int,
) -> Option<PointerData> {
    let value = spec_u64_from_le_bytes(buffer.subrange(pos, pos + 8));
    if spec_is_valid_pointer(value, ranges) {
        Some(PointerData { address: (base_addr + pos) as u64, value })
    } else {
        None
    }
}

/// The records found in the page slice `[page_start, page_end)` of the
/// buffer, in ascending order of address.
pub open spec fn spec_page_hits(
    buffer: Seq<u8>,
    base_addr: u64,
    step: int,
    ranges: Seq<(u64, u64)>,
    page_start: int,
    page_end: int,
) -> Seq<PointerData> {
    spec_scan_offsets(page_end - page_start, step).filter_map(
        |off: int| spec_hit_at(buffer, base_addr, ranges, page_start + off),
    )
}

/// Where page `p` of the buffer ends: at the next page boundary, or at the
/// end of the buffer if that comes first.
pub open spec fn spec_page_end(p: int, page_size: int, len: int) -> int {
    if (p + 1) * page_size < len {
        (p + 1) * page_size
    } else {
        len
    }
}

/// The records found in page `p` of the buffer: none where the page was not
/// read or lies past the buffer's end.
pub open spec fn spec_hits_of_page(
    buffer: Seq<u8>,
    base_addr: u64,
    step: int,
    ranges: Seq<(u64, u64)>,
    pages: Seq<bool>,
    page_size: int,
    p: int,
) -> Seq<PointerData> {
    if pages[p] && p * page_size < buffer.len() {
        spec_page_hits(
            buffer,
            base_addr,
            step,
            ranges,
            p * page_size,
            spec_page_end(p, page_size, buffer.len() as int),
        )
    } else {
        Seq::empty()
    }
}

/// The records found in a buffer: those of its pages that were read, page
/// after page.
pub open spec fn spec_chunk_hits(
    buffer: Seq<u8>,
    base_addr: u64,
    step: int,
    ranges: Seq<(u64, u64)>,
    pages: Seq<bool>,
    page_size: int,
) -> Seq<PointerData> {
    Seq::new(
        pages.len(),
        |p: int| spec_hits_of_page(buffer, base_addr, step, ranges, pages, page_size, p),
    ).flatten()
}

/// What holds of every record found in a buffer: its value is a valid
/// pointer, its eight bytes lie inside the buffer, and its distance from the
/// start of its page is a multiple of the step.
pub open spec fn spec_hit_in_chunk(
    hit: PointerData,
    len: int,
    base_addr: u64,
    step: int,
    ranges: Seq<(u64, u64)>,
    page_size: int,
) -> bool {
    &&& spec_is_valid_pointer(hit.value, ranges)
    &&& base_addr <= hit.address
    &&& hit.address + 8 <= base_addr + len
    &&& ((hit.address - base_addr) % page_size) % step == 0
}

proof fn lemma_offset_in_reach(limit: int, step: int, k: int)
    requires
        step > 0,
        limit >= 0,
        k >= 0,
    ensures
        (k * step <= limit) <==> (k <= limit / step),
{
    vstd::arithmetic::div_mod::lemma_fundamental_div_mod(limit, step);
    let q = limit / step;
    let r = limit % step;
    assert(0 <= r < step);
    if k <= q {
        assert(k * step <= q * step) by (nonlinear_arith)
            requires
                k <= q,
                step > 0,
        ;
        assert(q * step == step * q) by (nonlinear_arith);
    } else {
        assert(k * step >= (q + 1) * step) by (nonlinear_arith)
            requires
                k >= q + 1,
                step > 0,
        ;
        assert((q + 1) * step == step * q + step) by (nonlinear_arith);
    }
}

proof fn lemma_offset_in_page(p: int, page_size: int, k: int, step: int)
    requires
        p >= 0,
        page_size > 0,
        step > 0,
        k >= 0,
        k * step < page_size,
    ensures
        ((p * page_size + k * step) % page_size) % step == 0,
{
    vstd::arithmetic::div_mod::lemma_fundamental_div_mod_converse(
        p * page_size + k * step,
        page_size,
        p,
        k * step,
    );
    vstd::arithmetic::div_mod::lemma_fundamental_div_mod_converse(k * step, step, k, 0);
}

/// Nothing is missed inside a page: where a page of the buffer was read, and
/// the eight bytes at the `k`-th scanned position of it lie inside the page
/// and hold a valid pointer, the scan of the buffer finds that pointer.
pub proof fn lemma_chunk_hit_found(
    buffer: Seq<u8>,
    base_addr: u64,
    step: int,
    ranges: Seq<(u64, u64)>,
    pages: Seq<bool>,
    page_size: int,
    p: int,
    k: int,
)
    requires
        step > 0,
        page_size > 0,
        0 <= p < pages.len(),
        pages[p],
        p * page_size < buffer.len(),
        k >= 0,
        p * page_size + k * step + 8 <= spec_page_end(p, page_size, buffer.len() as int),
        spec_hit_at(buffer, base_addr, ranges, p * page_size + k * step) is Some,
    ensures
        spec_chunk_hits(buffer, base_addr, step, ranges, pages, page_size).contains(
            spec_hit_at(buffer, base_addr, ranges, p * page_size + k * step).unwrap(),
        ),
{
    let page_start = p * page_size;
    let page_end = spec_page_end(p, page_size, buffer.len() as int);
    let offsets = spec_scan_offsets(page_end - page_start, step);
    let hit = |off: int| spec_hit_at(buffer, base_addr, ranges, page_start + off);
    assert(k * step >= 0) by (nonlinear_arith)
        requires
            k >= 0,
            step > 0,
    ;
    lemma_offset_in_reach(page_end - page_start - 8, step, k);
    assert(offsets[k] == k * step);
    lemma_filter_map_keeps(offsets, hit, k);
    let per_page = Seq::new(
        pages.len(),
        |q: int| spec_hits_of_page(buffer, base_addr, step, ranges, pages, page_size, q),
    );
    assert(per_page[p] == offsets.filter_map(hit));
    lemma_flatten_contains(per_page, p, hit(k * step).unwrap());
}

/// Scans one buffer that was read from `base_addr` on. Only pages that the
/// bitmap marks as read are looked at; in each, every `align`-th position
/// from the start of the page is tried, as far as eight bytes are left.
pub fn scan_chunk_for_pointers(
    buffer: &[u8],
    base_addr: u64,
    align: u32,
    valid_ranges: &[(u64, u64)],
    page_bitmap: &PageStatusBitmap,
    page_size: usize,
) -> (r: Vec<PointerData>)
    requires
        align >= 1,
        page_size >= 1,
        spec_ranges_ordered(valid_ranges@),
        base_addr + buffer@.len() <= 0x1_0000_0000_0000_0000,
    ensures
        r@ == spec_chunk_hits(
            buffer@,
            base_addr,
            align as int,
            valid_ranges@,
            page_bitmap@,
            page_size as int,
        ),
        forall|i: int|
            0 <= i < r@.len() ==> spec_hit_in_chunk(
                #[trigger] r@[i],
                buffer@.len() as int,
                base_addr,
                align as int,
                valid_ranges@,
                page_size as int,
            ),
{
    let mut results: Vec<PointerData> = Vec::new();
    let step = align as usize;
    let len = buffer.len();
    let num_pages = page_bitmap.num_pages();
    let ghost per_page = Seq::new(
        page_bitmap@.len(),
        |p: int|
            spec_hits_of_page(
                buffer@,
                base_addr,
                align as int,
                valid_ranges@,
                page_bitmap@,
                page_size as int,
                p,
            ),
    );
    assert(per_page.take(0) =~= Seq::<Seq<PointerData>>::empty());
    let mut page_idx: usize = 0;
    while page_idx < num_pages
        invariant
            0 <= page_idx <= num_pages,
            num_pages == page_bitmap@.len(),
            len == buffer@.len(),
            step == align,
            align >= 1,
            page_size >= 1,
            spec_ranges_ordered(valid_ranges@),
            base_addr + buffer@.len() <= 0x1_0000_0000_0000_0000,
            per_page == Seq::new(
                page_bitmap@.len(),
                |p: int|
                    spec_hits_of_page(
                        buffer@,
                        base_addr,
                        align as int,
                        valid_ranges@,
                        page_bitmap@,
                        page_size as int,
                        p,
                    ),
            ),
            results@ == per_page.take(page_idx as int).flatten(),
            forall|i: int|
                0 <= i < results@.len() ==> spec_hit_in_chunk(
                    #[trigger] results@[i],
                    buffer@.len() as int,
                    base_addr,
                    align as int,
                    valid_ranges@,
                    page_size as int,
                ),
        decreases num_pages - page_idx,
    {
        let ghost before = results@;
        let ghost p = page_idx as int;
        proof {
            assert(per_page.take(p + 1) =~= per_page.take(p).push(per_page[p]));
            per_page.take(p).lemma_flatten_push(per_page[p]);
        }
        let page_start = match page_idx.checked_mul(page_size) {
            Some(start) => start,
            None => len,
        };
        if page_bitmap.is_page_success(page_idx) && page_start < len {
            assert(page_start == p * page_size);
            let page_end = if len - page_start < page_size {
                len
            } else {
                page_start + page_size
            };
            assert(page_end == spec_page_end(p, page_size as int, len as int)) by {
                assert((p + 1) * page_size == p * page_size + page_size) by (nonlinear_arith);
            }
            let slice_len = page_end - page_start;
            let ghost offsets = spec_scan_offsets(slice_len as int, step as int);
            let ghost hit = |off: int|
                spec_hit_at(buffer@, base_addr, valid_ranges@, page_start + off);
            assert(per_page[p] == offsets.filter_map(hit));
            assert(offsets.take(0) =~= Seq::<int>::empty());
            if slice_len >= 8 {
                let scan_limit = slice_len - 8;
                let mut offset: usize = 0;
                let mut k: usize = 0;
                let mut in_reach = true;
                proof {
                    lemma_offset_in_reach(scan_limit as int, step as int, 0);
                }
                while in_reach
                    invariant
                        len == buffer@.len(),
                        step == align,
                        step >= 1,
                        page_size >= 1,
                        p >= 0,
                        page_start == p * page_size,
                        spec_ranges_ordered(valid_ranges@),
                        base_addr + buffer@.len() <= 0x1_0000_0000_0000_0000,
                        page_start + slice_len <= len,
                        slice_len <= page_size,
                        scan_limit == slice_len - 8,
                        offsets == spec_scan_offsets(slice_len as int, step as int),
                        hit == (|off: int|
                            spec_hit_at(buffer@, base_addr, valid_ranges@, page_start + off)),
                        0 <= k <= offsets.len(),
                        in_reach == (k < offsets.len()),
                        in_reach ==> offset == k * step && offset <= scan_limit,
                        results@ == before + offsets.take(k as int).filter_map(hit),
                        forall|i: int|
                            0 <= i < results@.len() ==> spec_hit_in_chunk(
                                #[trigger] results@[i],
                                buffer@.len() as int,
                                base_addr,
                                align as int,
                                valid_ranges@,
                                page_size as int,
                            ),
                    decreases offsets.len() - k + if in_reach { 1int } else { 0int },
                {
                    let pos = page_start + offset;
                    let value = u64_from_le_bytes(slice_subrange(buffer, pos, pos + 8));
                    proof {
                        offsets.lemma_filter_map_take_succ(hit, k as int);
                        assert(offsets[k as int] == offset);
                    }
                    if is_valid_pointer(value, valid_ranges) {
                        let ptr_address = base_addr + pos as u64;
                        proof {
                            lemma_offset_in_page(p, page_size as int, k as int, step as int);
                        }
                        results.push(PointerData::new(ptr_address, value));
                    }
                    proof {
                        lemma_offset_in_reach(scan_limit as int, step as int, k + 1);
                        assert((k + 1) * step == k * step + step) by (nonlinear_arith);
                    }
                    if scan_limit - offset < step {
                        in_reach = false;
                    } else {
                        offset = offset + step;
                    }
                    k = k + 1;
                }
                assert(offsets.take(k as int) =~= offsets);
            } else {
                assert(offsets.filter_map(hit) =~= Seq::<PointerData>::empty());
                assert(before + Seq::<PointerData>::empty() =~= before);
            }
        } else {
            assert(per_page[p] =~= Seq::<PointerData>::empty()) by {
                if page_idx.checked_mul(page_size) is None {
                    assert(p * page_size >= len);
                }
            }
            assert(before + Seq::<PointerData>::empty() =~= before);
        }
        page_idx = page_idx + 1;
    }
    assert(per_page.take(page_idx as int) =~= per_page);
    results
}

/// What holds of every record found in a region: its value addresses one
/// of the ranges, its eight bytes lie inside the region, and its distance
/// from the start of its page is a multiple of the alignment.
pub open spec fn spec_hit_in_region(
    hit: PointerData,
    region: ScanRegion,
    align: int,
    ranges: Seq<(u64, u64)>,
    page_size: int,
) -> bool {
    &&& spec_is_valid_pointer(hit.value, ranges)
    &&& region.start <= hit.address
    &&& hit.address + 8 <= region.end
    &&& (hit.address as int % page_size) % align == 0
}

proof fn lemma_page_offset_shift(cur: int, delta: int, page_size: int)
    requires
        page_size > 0,
        cur >= 0,
        delta >= 0,
        cur % page_size == 0,
    ensures
        (cur + delta) % page_size == delta % page_size,
{
    vstd::arithmetic::div_mod::lemma_add_mod_noop(cur, delta, page_size);
    vstd::arithmetic::div_mod::lemma_mod_twice(delta, page_size);
}

proof fn lemma_next_chunk_aligned(cur: int, chunk: int, page_size: int)
    requires
        page_size > 0,
        cur >= 0,
        chunk >= 0,
        cur % page_size == 0,
        chunk % page_size == 0,
    ensures
        (cur + chunk) % page_size == 0,
{
    vstd::arithmetic::div_mod::lemma_add_mod_noop(cur, chunk, page_size);
    vstd::arithmetic::div_mod::lemma_small_mod(0, page_size as nat);
}

/// Number of chunks that a region is read in.
pub open spec fn spec_chunk_count(region: ScanRegion, chunk_size: int) -> int {
    if region.end <= region.start {
        0
    } else {
        (region.end - region.start + chunk_size - 1) / chunk_size
    }
}

/// Address and size of chunk `k` of a region: chunks lie back to back from
/// the start of the region, and the last ends with the region.
pub open spec fn spec_chunk_request(region: ScanRegion, chunk_size: int, k: int) -> (u64, usize) {
    let address = region.start + k * chunk_size;
    let left = region.end - address;
    (
        address as u64,
        (if left < chunk_size {
            left
        } else {
            chunk_size
        }) as usize,
    )
}

/// The records found in one chunk, given what the read of it handed back:
/// none for a read that failed or gave a buffer of another size than asked
/// for.
pub open spec fn spec_chunk_found(
    request: (u64, usize),
    outcome: Option<MemoryRead>,
    align: int,
    ranges: Seq<(u64, u64)>,
    page_size: int,
) -> Seq<PointerData> {
    match outcome {
        Some(read) => if read.data@.len() == request.1 {
            spec_chunk_hits(read.data@, request.0, align, ranges, read.pages@, page_size)
        } else {
            Seq::empty()
        },
        None => Seq::empty(),
    }
}

/// The records found in a region, given what the read of each of its
/// chunks handed back: those of the chunks, chunk after chunk.
pub open spec fn spec_region_hits(
    region: ScanRegion,
    chunk_size: int,
    align: int,
    ranges: Seq<(u64, u64)>,
    page_size: int,
    outcomes: Seq<Option<MemoryRead>>,
) -> Seq<PointerData> {
    Seq::new(
        outcomes.len(),
        |k: int|
            spec_chunk_found(
                spec_chunk_request(region, chunk_size, k),
                outcomes[k],
                align,
                ranges,
                page_size,
            ),
    ).flatten()
}

/// `outcomes` is what the reads of a region's chunks handed back: one
/// outcome for each chunk, each a possible answer of `read_memory` to the
/// request for that chunk.
pub open spec fn spec_region_reads<R: Fn(u64, usize) -> Option<MemoryRead>>(
    region: ScanRegion,
    chunk_size: int,
    read_memory: R,
    outcomes: Seq<Option<MemoryRead>>,
) -> bool {
    &&& outcomes.len() == spec_chunk_count(region, chunk_size)
    &&& forall|k: int|
        0 <= k < outcomes.len() ==> call_ensures(
            read_memory,
            spec_chunk_request(region, chunk_size, k),
            #[trigger] outcomes[k],
        )
}

/// Chunk `k` starts inside a span exactly if `k` is below the number of
/// chunks that cover the span.
pub proof fn lemma_chunk_count(span: int, chunk: int, k: int)
    requires
        chunk > 0,
        span >= 0,
        k >= 0,
    ensures
        (k * chunk < span) <==> (k < (span + chunk - 1) / chunk),
{
    let padded = span + chunk - 1;
    vstd::arithmetic::div_mod::lemma_fundamental_div_mod(padded, chunk);
    let q = padded / chunk;
    if k < q {
        assert(k * chunk + chunk <= q * chunk) by (nonlinear_arith)
            requires
                k + 1 <= q,
                chunk > 0,
        ;
        assert(q * chunk == chunk * q) by (nonlinear_arith);
    } else {
        assert(k * chunk >= q * chunk) by (nonlinear_arith)
            requires
                k >= q,
                chunk > 0,
        ;
        assert(q * chunk == chunk * q) by (nonlinear_arith);
    }
}

/// Scans one region chunk by chunk. `read_memory` is asked for each chunk in
/// turn, by address and size; a chunk for which it gives `None`, or a buffer
/// of another size than asked for, is skipped. `check_cancelled` is asked
/// before each chunk, and the scan ends with `Cancelled` once it says yes.
///
/// A pointer that straddles two chunks is not found: each chunk is scanned
/// on its own.
pub fn scan_region_for_pointers<R, C>(
    region: &ScanRegion,
    chunk_size: usize,
    valid_ranges: &[(u64, u64)],
    config: &PointerScanConfig,
    page_size: usize,
    read_memory: &R,
    check_cancelled: &C,
) -> (r: Result<Vec<PointerData>, ErrorKind>) where
    R: Fn(u64, usize) -> Option<MemoryRead>,
    C: Fn() -> bool,

    requires
        page_size >= 1,
        chunk_size >= 1,
        region.start as int % page_size as int == 0,
        region.end as int % page_size as int == 0,
        chunk_size as int % page_size as int == 0,
        config.align >= 1,
        spec_ranges_ordered(valid_ranges@),
        forall|addr: u64, size: usize| call_requires(*read_memory, (addr, size)),
        call_requires(*check_cancelled, ()),
    ensures
        match r {
            Ok(hits) => {
                &&& exists|outcomes: Seq<Option<MemoryRead>>|
                    spec_region_reads(*region, chunk_size as int, *read_memory, outcomes) && hits@
                        == spec_region_hits(
                        *region,
                        chunk_size as int,
                        config.align as int,
                        valid_ranges@,
                        page_size as int,
                        outcomes,
                    )
                &&& forall|i: int|
                    0 <= i < hits@.len() ==> spec_hit_in_region(
                        #[trigger] hits@[i],
                        *region,
                        config.align as int,
                        valid_ranges@,
                        page_size as int,
                    )
            },
            Err(e) => e == ErrorKind::Cancelled && call_ensures(*check_cancelled, (), true),
        },
        spec_always_cancels(*check_cancelled) && region.start < region.end ==> (r matches Err(e)
            && e == ErrorKind::Cancelled),
{
    let mut region_pointers: Vec<PointerData> = Vec::new();
    let mut current_addr = region.start;
    let ghost mut outcomes: Seq<Option<MemoryRead>> = Seq::empty();
    let ghost mut per_chunk: Seq<Seq<PointerData>> = Seq::empty();
    let ghost span = if region.end <= region.start {
        0int
    } else {
        region.end - region.start
    };
    proof {
        lemma_chunk_count(span, chunk_size as int, 0);
    }
    while current_addr < region.end
        invariant
            page_size >= 1,
            chunk_size >= 1,
            region.start <= current_addr,
            current_addr as int % page_size as int == 0,
            region.end as int % page_size as int == 0,
            chunk_size as int % page_size as int == 0,
            config.align >= 1,
            spec_ranges_ordered(valid_ranges@),
            forall|addr: u64, size: usize| call_requires(*read_memory, (addr, size)),
            call_requires(*check_cancelled, ()),
            spec_always_cancels(*check_cancelled) ==> current_addr == region.start,
            span == (if region.end <= region.start {
                0int
            } else {
                region.end - region.start
            }),
            outcomes.len() == per_chunk.len(),
            current_addr < region.end ==> current_addr == region.start + outcomes.len()
                * chunk_size,
            (current_addr < region.end) <==> (outcomes.len() < spec_chunk_count(
                *region,
                chunk_size as int,
            )),
            outcomes.len() <= spec_chunk_count(*region, chunk_size as int),
            forall|k: int|
                0 <= k < outcomes.len() ==> call_ensures(
                    *read_memory,
                    spec_chunk_request(*region, chunk_size as int, k),
                    #[trigger] outcomes[k],
                ),
            forall|k: int|
                0 <= k < per_chunk.len() ==> #[trigger] per_chunk[k] == spec_chunk_found(
                    spec_chunk_request(*region, chunk_size as int, k),
                    outcomes[k],
                    config.align as int,
                    valid_ranges@,
                    page_size as int,
                ),
            region_pointers@ == per_chunk.flatten(),
            forall|i: int|
                0 <= i < region_pointers@.len() ==> spec_hit_in_region(
                    #[trigger] region_pointers@[i],
                    *region,
                    config.align as int,
                    valid_ranges@,
                    page_size as int,
                ),
        decreases region.end - current_addr,
    {
        if check_cancelled() {
            return Err(ErrorKind::Cancelled);
        }
        let left = region.end - current_addr;
        let read_size: usize = if left < chunk_size as u64 {
            left as usize
        } else {
            chunk_size
        };
        let ghost k = outcomes.len() as int;
        let ghost request = spec_chunk_request(*region, chunk_size as int, k);
        assert(request == (current_addr, read_size));
        let outcome = read_memory(current_addr, read_size);
        let ghost found = spec_chunk_found(
            request,
            outcome,
            config.align as int,
            valid_ranges@,
            page_size as int,
        );
        proof {
            per_chunk.lemma_flatten_push(found);
            outcomes = outcomes.push(outcome);
            per_chunk = per_chunk.push(found);
        }
        match outcome {
            Some(read) => {
                if read.data.len() == read_size {
                    let mut chunk_results = scan_chunk_for_pointers(
                        read.data.as_slice(),
                        current_addr,
                        config.align,
                        valid_ranges,
                        &read.pages,
                        page_size,
                    );
                    proof {
                        assert forall|i: int| 0 <= i < chunk_results@.len() implies spec_hit_in_region(
                            #[trigger] chunk_results@[i],
                            *region,
                            config.align as int,
                            valid_ranges@,
                            page_size as int,
                        ) by {
                            let hit = chunk_results@[i];
                            lemma_page_offset_shift(
                                current_addr as int,
                                hit.address - current_addr,
                                page_size as int,
                            );
                        }
                    }
                    region_pointers.append(&mut chunk_results);
                } else {
                    assert(region_pointers@ + found =~= region_pointers@);
                }
            },
            None => {
                assert(region_pointers@ + found =~= region_pointers@);
            },
        }
        proof {
            if left >= chunk_size {
                lemma_next_chunk_aligned(current_addr as int, chunk_size as int, page_size as int);
            }
            lemma_chunk_count(span, chunk_size as int, k + 1);
            assert((k + 1) * chunk_size == k * chunk_size + chunk_size) by (nonlinear_arith);
        }
        current_addr = current_addr + read_size as u64;
    }
    proof {
        assert(per_chunk =~= Seq::new(
            outcomes.len(),
            |k: int|
                spec_chunk_found(
                    spec_chunk_request(*region, chunk_size as int, k),
                    outcomes[k],
                    config.align as int,
                    valid_ranges@,
                    page_size as int,
                ),
        ));
        assert(spec_region_reads(*region, chunk_size as int, *read_memory, outcomes));
    }
    Ok(region_pointers)
}

/// Records that are collected before they are sorted into one run.
pub const BATCH_SIZE_THRESHOLD: usize = 10_000_000;

/// Bytes asked for in one read: 512 KiB.
pub const CHUNK_SIZE: usize = 524_288;

/// Records handed to the queue at a time while runs are merged.
pub const MERGE_BATCH_SIZE: usize = 20_000;

/// After how many regions progress is reported.
pub const PROGRESS_INTERVAL: usize = 50;

/// Every run is sorted by value.
pub open spec fn spec_runs_sorted(runs: Seq<Vec<PointerData>>) -> bool {
    forall|i: int| 0 <= i < runs.len() ==> spec_sorted_by_value((#[trigger] runs[i])@)
}

/// The records of all runs, run after run.
pub open spec fn spec_concat_runs(runs: Seq<Vec<PointerData>>) -> Seq<PointerData> {
    runs.map_values(|run: Vec<PointerData>| run@).flatten()
}

/// Whether `a` holds the smaller value.
pub fn value_before(a: &PointerData, b: &PointerData) -> (r: bool)
    ensures
        r == (a.value < b.value),
{
    a.value < b.value
}

/// Calls rayon's `par_sort_unstable_by_key` with the value of a record as
/// its key. Trusted: the records are the same, each as often as before, and
/// their values ascend.
#[verifier::external_body]
fn par_sort_by_value(records: &mut Vec<PointerData>)
    ensures
        final(records)@.to_multiset() == old(records)@.to_multiset(),
        spec_sorted_by_value(final(records)@),
{
    records.par_sort_unstable_by_key(|p| p.value);
}

/// Calls itertools' `kmerge_by` on the runs, with "holds the smaller value"
/// as the order, and collects what it yields. Trusted: every record of every
/// run comes out once, and where each run is sorted by value, so is the
/// result.
#[verifier::external_body]
fn kmerge_by_value(runs: &Vec<Vec<PointerData>>) -> (r: Vec<PointerData>)
    ensures
        r@.to_multiset() == spec_concat_runs(runs@).to_multiset(),
        spec_runs_sorted(runs@) ==> spec_sorted_by_value(r@),
{
    runs.iter().map(|run| run.iter()).kmerge_by(|a, b| value_before(a, b)).copied().collect()
}

/// Sorts the collected records by value and hands them out as one run,
/// leaving the buffer empty.
pub fn sort_and_take_run(buffer: &mut Vec<PointerData>) -> (run: Vec<PointerData>)
    ensures
        run@.to_multiset() == old(buffer)@.to_multiset(),
        spec_sorted_by_value(run@),
        final(buffer)@ == Seq::<PointerData>::empty(),
{
    par_sort_by_value(buffer);
    let mut run: Vec<PointerData> = Vec::new();
    core::mem::swap(buffer, &mut run);
    run
}

/// Merges sorted runs into one queue, sorted by value. The queue is filled
/// [`MERGE_BATCH_SIZE`] records at a time. `IoFailure` if the queue cannot be
/// made or cannot grow.
pub fn merge_runs_kway(runs: &Vec<Vec<PointerData>>) -> (r: Result<MmapQueue, ErrorKind>)
    requires
        spec_runs_sorted(runs@),
    ensures
        match r {
            Ok(queue) => {
                &&& queue.well_formed()
                &&& spec_sorted_by_value(queue@)
                &&& queue@.to_multiset() == spec_concat_runs(runs@).to_multiset()
            },
            Err(e) => e == ErrorKind::IoFailure,
        },
{
    let merged = kmerge_by_value(runs);
    let mut queue = match MmapQueue::new() {
        Ok(q) => q,
        Err(e) => {
            return Err(e);
        },
    };
    let total = merged.len();
    let mut done: usize = 0;
    assert(merged@.subrange(0, 0) =~= Seq::<PointerData>::empty());
    while done < total
        invariant
            0 <= done <= total,
            total == merged@.len(),
            queue.well_formed(),
            queue@ == merged@.subrange(0, done as int),
        decreases total - done,
    {
        let end = if total - done < MERGE_BATCH_SIZE {
            total
        } else {
            done + MERGE_BATCH_SIZE
        };
        let batch = slice_subrange(merged.as_slice(), done, end);
        match queue.push_batch(batch) {
            Ok(()) => {},
            Err(e) => {
                return Err(e);
            },
        }
        assert(merged@.subrange(0, done as int) + merged@.subrange(done as int, end as int)
            =~= merged@.subrange(0, end as int));
        done = end;
    }
    assert(merged@.subrange(0, total as int) =~= merged@);
    Ok(queue)
}

/// The eight bytes from `address` on lie in one of the regions.
pub open spec fn spec_fits_some_region(regions: Seq<ScanRegion>, address: u64) -> bool {
    exists|j: int|
        0 <= j < regions.len() && (#[trigger] regions[j]).start <= address && address + 8
            <= regions[j].end
}

/// What holds of every record of a finished scan: its value, cut to 48
/// bits, lies in one of the scanned regions; the eight bytes it was read
/// from lie in one of them; and its distance from the start of its page is
/// a multiple of the alignment.
pub open spec fn spec_scan_record_ok(
    rec: PointerData,
    regions: Seq<ScanRegion>,
    align: int,
    page_size: int,
) -> bool {
    &&& spec_in_some_region(regions, rec.value & POINTER_MASK)
    &&& spec_fits_some_region(regions, rec.address)
    &&& (rec.address as int % page_size) % align == 0
}

/// Every record satisfies the scan's promise.
pub open spec fn spec_all_records_ok(
    records: Seq<PointerData>,
    regions: Seq<ScanRegion>,
    align: int,
    page_size: int,
) -> bool {
    forall|i: int|
        0 <= i < records.len() ==> spec_scan_record_ok(
            #[trigger] records[i],
            regions,
            align,
            page_size,
        )
}

/// Where the alignment divides the page size, every record of a finished
/// scan sits at a multiple of the alignment.
pub proof fn lemma_scan_records_aligned(
    rec: PointerData,
    regions: Seq<ScanRegion>,
    align: int,
    page_size: int,
)
    requires
        align > 0,
        page_size > 0,
        page_size % align == 0,
        spec_scan_record_ok(rec, regions, align, page_size),
    ensures
        rec.address as int % align == 0,
{
    let address = rec.address as int;
    vstd::arithmetic::div_mod::lemma_fundamental_div_mod(address, page_size);
    let q = address / page_size;
    let r = address % page_size;
    vstd::arithmetic::div_mod::lemma_fundamental_div_mod(page_size, align);
    let m = page_size / align;
    vstd::arithmetic::div_mod::lemma_fundamental_div_mod(r, align);
    let k = r / align;
    assert(address == align * (m * q + k)) by (nonlinear_arith)
        requires
            address == page_size * q + r,
            page_size == align * m,
            r == align * k,
    ;
    vstd::arithmetic::div_mod::lemma_fundamental_div_mod_converse(address, align, m * q + k, 0);
}

proof fn lemma_same_members_all_ok(
    a: Seq<PointerData>,
    b: Seq<PointerData>,
    regions: Seq<ScanRegion>,
    align: int,
    page_size: int,
)
    requires
        a.to_multiset() == b.to_multiset(),
        spec_all_records_ok(a, regions, align, page_size),
    ensures
        spec_all_records_ok(b, regions, align, page_size),
{
    assert forall|j: int| 0 <= j < b.len() implies spec_scan_record_ok(
        #[trigger] b[j],
        regions,
        align,
        page_size,
    ) by {
        assert(b.contains(b[j]));
        vstd::seq_lib::to_multiset_contains(b, b[j]);
        vstd::seq_lib::to_multiset_contains(a, b[j]);
        let i = choose|i: int| 0 <= i < a.len() && a[i] == b[j];
        assert(spec_scan_record_ok(a[i], regions, align, page_size));
    }
}

proof fn lemma_concat_runs_all_ok(
    runs: Seq<Vec<PointerData>>,
    regions: Seq<ScanRegion>,
    align: int,
    page_size: int,
)
    requires
        forall|i: int|
            0 <= i < runs.len() ==> spec_all_records_ok(
                (#[trigger] runs[i])@,
                regions,
                align,
                page_size,
            ),
    ensures
        spec_all_records_ok(spec_concat_runs(runs), regions, align, page_size),
    decreases runs.len(),
{
    let view_of = |run: Vec<PointerData>| run@;
    if runs.len() == 0 {
        assert(runs.map_values(view_of) =~= Seq::<Seq<PointerData>>::empty());
    } else {
        let front = runs.drop_last();
        lemma_concat_runs_all_ok(front, regions, align, page_size);
        assert(runs.map_values(view_of) =~= front.map_values(view_of).push(runs.last()@));
        front.map_values(view_of).lemma_flatten_push(runs.last()@);
        let head = spec_concat_runs(front);
        assert(spec_concat_runs(runs) =~= head + runs.last()@);
        assert forall|j: int| 0 <= j < spec_concat_runs(runs).len() implies spec_scan_record_ok(
            #[trigger] spec_concat_runs(runs)[j],
            regions,
            align,
            page_size,
        ) by {
            if j < head.len() {
                assert(spec_concat_runs(runs)[j] == head[j]);
            } else {
                assert(spec_concat_runs(runs)[j] == runs.last()@[j - head.len()]);
            }
        }
    }
}

/// The ranges stand for the regions: they are separated, and cover exactly
/// the addresses that the regions cover.
pub open spec fn spec_ranges_cover(ranges: Seq<(u64, u64)>, regions: Seq<ScanRegion>) -> bool {
    &&& spec_ranges_separated(ranges)
    &&& forall|x: u64| spec_in_some_range(ranges, x) == spec_in_some_region(regions, x)
}

/// `outcomes` is what the reads of a scan handed back: for each region, an
/// outcome for each of its chunks of [`CHUNK_SIZE`] bytes.
pub open spec fn spec_scan_reads<R: Fn(u64, usize) -> Option<MemoryRead>>(
    regions: Seq<ScanRegion>,
    read_memory: R,
    outcomes: Seq<Seq<Option<MemoryRead>>>,
) -> bool {
    &&& outcomes.len() == regions.len()
    &&& forall|j: int|
        0 <= j < outcomes.len() ==> spec_region_reads(
            regions[j],
            CHUNK_SIZE as int,
            read_memory,
            #[trigger] outcomes[j],
        )
}

/// The records found in all regions, given what the reads handed back:
/// those of the regions, region after region.
pub open spec fn spec_all_hits(
    regions: Seq<ScanRegion>,
    align: int,
    ranges: Seq<(u64, u64)>,
    page_size: int,
    outcomes: Seq<Seq<Option<MemoryRead>>>,
) -> Seq<PointerData> {
    Seq::new(
        outcomes.len(),
        |j: int|
            spec_region_hits(regions[j], CHUNK_SIZE as int, align, ranges, page_size, outcomes[j]),
    ).flatten()
}

/// Nothing is lost on the way to the queue: what the scan of one chunk
/// found is in the queue of the whole scan.
pub proof fn lemma_found_record_is_in_queue(
    queue: Seq<PointerData>,
    regions: Seq<ScanRegion>,
    align: int,
    ranges: Seq<(u64, u64)>,
    page_size: int,
    outcomes: Seq<Seq<Option<MemoryRead>>>,
    j: int,
    k: int,
    record: PointerData,
)
    requires
        queue.to_multiset() == spec_all_hits(
            regions,
            align,
            ranges,
            page_size,
            outcomes,
        ).to_multiset(),
        0 <= j < outcomes.len(),
        0 <= k < outcomes[j].len(),
        spec_chunk_found(
            spec_chunk_request(regions[j], CHUNK_SIZE as int, k),
            outcomes[j][k],
            align,
            ranges,
            page_size,
        ).contains(record),
    ensures
        queue.contains(record),
{
    let per_chunk = Seq::new(
        outcomes[j].len(),
        |c: int|
            spec_chunk_found(
                spec_chunk_request(regions[j], CHUNK_SIZE as int, c),
                outcomes[j][c],
                align,
                ranges,
                page_size,
            ),
    );
    lemma_flatten_contains(per_chunk, k, record);
    let per_region = Seq::new(
        outcomes.len(),
        |r: int|
            spec_region_hits(regions[r], CHUNK_SIZE as int, align, ranges, page_size, outcomes[r]),
    );
    assert(per_region[j] == per_chunk.flatten());
    lemma_flatten_contains(per_region, j, record);
    let all = spec_all_hits(regions, align, ranges, page_size, outcomes);
    vstd::seq_lib::to_multiset_contains(all, record);
    vstd::seq_lib::to_multiset_contains(queue, record);
}

proof fn lemma_concat_runs_push(runs: Seq<Vec<PointerData>>, run: Vec<PointerData>)
    ensures
        spec_concat_runs(runs.push(run)) == spec_concat_runs(runs) + run@,
{
    let view_of = |r: Vec<PointerData>| r@;
    assert(runs.push(run).map_values(view_of) =~= runs.map_values(view_of).push(run@));
    runs.map_values(view_of).lemma_flatten_push(run@);
}

/// Scans every region for pointers and stores the finds in a queue, sorted
/// by value.
///
/// The regions are scanned in order, each in chunks of [`CHUNK_SIZE`] bytes
/// that `read_memory` is asked for. Finds are collected, sorted into runs of
/// [`BATCH_SIZE_THRESHOLD`] records or more, and the runs merged at the end.
/// `progress_callback` is told the regions done, the regions in all and the
/// pointers found, after every [`PROGRESS_INTERVAL`] regions.
/// `check_cancelled` is asked before every region and every chunk, and once
/// more before the merge; once it says yes the scan ends with `Cancelled`
/// and nothing is kept. `IoFailure` where the queue cannot be made or
/// cannot grow.
pub fn scan_all_pointers<R, F, C>(
    regions: &[ScanRegion],
    config: &PointerScanConfig,
    page_size: usize,
    read_memory: R,
    progress_callback: F,
    check_cancelled: C,
) -> (r: Result<MmapQueue, ErrorKind>) where
    R: Fn(u64, usize) -> Option<MemoryRead>,
    F: Fn(usize, usize, i64),
    C: Fn() -> bool,

    requires
        page_size >= 1,
        CHUNK_SIZE as int % page_size as int == 0,
        config.align >= 1,
        forall|j: int|
            0 <= j < regions@.len() ==> (#[trigger] regions@[j]).start as int % page_size as int
                == 0 && regions@[j].end as int % page_size as int == 0,
        forall|addr: u64, size: usize| call_requires(read_memory, (addr, size)),
        forall|done: usize, total: usize, found: i64|
            call_requires(progress_callback, (done, total, found)),
        call_requires(check_cancelled, ()),
    ensures
        match r {
            Ok(queue) => {
                &&& queue.well_formed()
                &&& spec_sorted_by_value(queue@)
                &&& exists|ranges: Seq<(u64, u64)>, outcomes: Seq<Seq<Option<MemoryRead>>>|
                    spec_ranges_cover(ranges, regions@) && spec_scan_reads(
                        regions@,
                        read_memory,
                        outcomes,
                    ) && queue@.to_multiset() == spec_all_hits(
                        regions@,
                        config.align as int,
                        ranges,
                        page_size as int,
                        outcomes,
                    ).to_multiset()
                &&& spec_all_records_ok(
                    queue@,
                    regions@,
                    config.align as int,
                    page_size as int,
                )
            },
            Err(e) => (e == ErrorKind::Cancelled && call_ensures(check_cancelled, (), true)) || e
                == ErrorKind::IoFailure,
        },
        spec_always_cancels(check_cancelled) ==> (r matches Err(e) && e == ErrorKind::Cancelled),
{
    let valid_ranges = merge_valid_ranges(regions);
    let total_regions = regions.len();
    let mut buffer: Vec<PointerData> = Vec::new();
    let mut runs: Vec<Vec<PointerData>> = Vec::new();
    let mut total_found: usize = 0;
    let mut completed: usize = 0;
    let ghost mut outcomes: Seq<Seq<Option<MemoryRead>>> = Seq::empty();
    let ghost mut per_region: Seq<Seq<PointerData>> = Seq::empty();
    proof {
        assert(spec_concat_runs(runs@) =~= Seq::<PointerData>::empty()) by {
            assert(runs@.map_values(|r: Vec<PointerData>| r@) =~= Seq::<Seq<PointerData>>::empty());
        }
        assert(spec_concat_runs(runs@) + buffer@ =~= per_region.flatten());
    }
    while completed < total_regions
        invariant
            0 <= completed <= total_regions,
            total_regions == regions@.len(),
            page_size >= 1,
            CHUNK_SIZE as int % page_size as int == 0,
            config.align >= 1,
            spec_ranges_cover(valid_ranges@, regions@),
            forall|j: int|
                0 <= j < regions@.len() ==> (#[trigger] regions@[j]).start as int
                    % page_size as int == 0 && regions@[j].end as int % page_size as int == 0,
            forall|addr: u64, size: usize| call_requires(read_memory, (addr, size)),
            forall|done: usize, total: usize, found: i64|
                call_requires(progress_callback, (done, total, found)),
            call_requires(check_cancelled, ()),
            spec_runs_sorted(runs@),
            forall|i: int|
                0 <= i < runs@.len() ==> spec_all_records_ok(
                    (#[trigger] runs@[i])@,
                    regions@,
                    config.align as int,
                    page_size as int,
                ),
            spec_all_records_ok(buffer@, regions@, config.align as int, page_size as int),
            outcomes.len() == completed,
            per_region.len() == completed,
            forall|j: int|
                0 <= j < completed ==> spec_region_reads(
                    regions@[j],
                    CHUNK_SIZE as int,
                    read_memory,
                    #[trigger] outcomes[j],
                ),
            forall|j: int|
                0 <= j < completed ==> #[trigger] per_region[j] == spec_region_hits(
                    regions@[j],
                    CHUNK_SIZE as int,
                    config.align as int,
                    valid_ranges@,
                    page_size as int,
                    outcomes[j],
                ),
            (spec_concat_runs(runs@) + buffer@).to_multiset() == per_region.flatten().to_multiset(),
        decreases total_regions - completed,
    {
        if check_cancelled() {
            return Err(ErrorKind::Cancelled);
        }
        let region = &regions[completed];
        let mut pointers = match scan_region_for_pointers(
            region,
            CHUNK_SIZE,
            valid_ranges.as_slice(),
            config,
            page_size,
            &read_memory,
            &check_cancelled,
        ) {
            Ok(found) => found,
            Err(e) => {
                return Err(e);
            },
        };
        proof {
            assert forall|i: int| 0 <= i < pointers@.len() implies spec_scan_record_ok(
                #[trigger] pointers@[i],
                regions@,
                config.align as int,
                page_size as int,
            ) by {
                let hit = pointers@[i];
                assert(spec_hit_in_region(
                    hit,
                    *region,
                    config.align as int,
                    valid_ranges@,
                    page_size as int,
                ));
                assert(regions@[completed as int].start <= hit.address && hit.address + 8
                    <= regions@[completed as int].end);
            }
            let region_outcomes = choose|o: Seq<Option<MemoryRead>>|
                spec_region_reads(*region, CHUNK_SIZE as int, read_memory, o) && pointers@
                    == spec_region_hits(
                    *region,
                    CHUNK_SIZE as int,
                    config.align as int,
                    valid_ranges@,
                    page_size as int,
                    o,
                );
            let stored = spec_concat_runs(runs@);
            vstd::seq_lib::lemma_multiset_commutative(stored + buffer@, pointers@);
            vstd::seq_lib::lemma_multiset_commutative(per_region.flatten(), pointers@);
            assert(stored + (buffer@ + pointers@) =~= (stored + buffer@) + pointers@);
            per_region.lemma_flatten_push(pointers@);
            outcomes = outcomes.push(region_outcomes);
            per_region = per_region.push(pointers@);
        }
        total_found = total_found.saturating_add(pointers.len());
        buffer.append(&mut pointers);
        if buffer.len() >= BATCH_SIZE_THRESHOLD {
            let ghost collected = buffer@;
            let ghost stored = spec_concat_runs(runs@);
            let run = sort_and_take_run(&mut buffer);
            proof {
                lemma_same_members_all_ok(
                    collected,
                    run@,
                    regions@,
                    config.align as int,
                    page_size as int,
                );
                lemma_concat_runs_push(runs@, run);
                vstd::seq_lib::lemma_multiset_commutative(stored, collected);
                vstd::seq_lib::lemma_multiset_commutative(stored, run@);
                assert(stored + run@ + Seq::<PointerData>::empty() =~= stored + run@);
            }
            runs.push(run);
        }
        completed = completed + 1;
        if completed % PROGRESS_INTERVAL == 0 {
            progress_callback(
                completed,
                total_regions,
                #[verifier::truncate]
                (total_found as i64),
            );
        }
    }
    if buffer.len() > 0 {
        let ghost collected = buffer@;
        let ghost stored = spec_concat_runs(runs@);
        let run = sort_and_take_run(&mut buffer);
        proof {
            lemma_same_members_all_ok(
                collected,
                run@,
                regions@,
                config.align as int,
                page_size as int,
            );
            lemma_concat_runs_push(runs@, run);
            vstd::seq_lib::lemma_multiset_commutative(stored, collected);
            vstd::seq_lib::lemma_multiset_commutative(stored, run@);
            assert(stored + run@ + Seq::<PointerData>::empty() =~= stored + run@);
        }
        runs.push(run);
    }
    proof {
        assert(spec_concat_runs(runs@) + buffer@ =~= spec_concat_runs(runs@));
        assert(per_region =~= Seq::new(
            outcomes.len(),
            |j: int|
                spec_region_hits(
                    regions@[j],
                    CHUNK_SIZE as int,
                    config.align as int,
                    valid_ranges@,
                    page_size as int,
                    outcomes[j],
                ),
        ));
        assert(spec_scan_reads(regions@, read_memory, outcomes));
    }
    let ghost all_hits = spec_all_hits(
        regions@,
        config.align as int,
        valid_ranges@,
        page_size as int,
        outcomes,
    );
    assert(all_hits == per_region.flatten());
    if check_cancelled() {
        return Err(ErrorKind::Cancelled);
    }
    if runs.len() == 0 {
        return match MmapQueue::new() {
            Ok(queue) => {
                proof {
                    assert(spec_concat_runs(runs@) =~= Seq::<PointerData>::empty()) by {
                        assert(runs@.map_values(|r: Vec<PointerData>| r@) =~= Seq::<
                            Seq<PointerData>,
                        >::empty());
                    }
                    assert(queue@.to_multiset() == all_hits.to_multiset());
                }
                Ok(queue)
            },
            Err(e) => Err(e),
        };
    }
    match merge_runs_kway(&runs) {
        Ok(queue) => {
            proof {
                lemma_concat_runs_all_ok(runs@, regions@, config.align as int, page_size as int);
                lemma_same_members_all_ok(
                    spec_concat_runs(runs@),
                    queue@,
                    regions@,
                    config.align as int,
                    page_size as int,
                );
                assert(queue@.to_multiset() == all_hits.to_multiset());
            }
            Ok(queue)
        },
        Err(e) => Err(e),
    }
}

} // verus!
