//! Per-page outcome of one read of the target's memory.

use vstd::prelude::*;

verus! {

/// Number of pages that the `size` bytes from `base_addr` on touch.
pub open spec fn spec_pages_spanned(size: int, base_addr: int, page_size: int) -> int {
    if size <= 0 {
        0
    } else {
        (base_addr % page_size + size + page_size - 1) / page_size
    }
}

/// One flag per page of a read buffer: whether that page was read.
///
/// The caller builds it before a read with every page marked as failed; the
/// reader marks the pages it delivered.
#[derive(Debug)]
pub struct PageStatusBitmap {
    base_addr: usize,
    pages: Vec<bool>,
}

impl View for PageStatusBitmap {
    type V = Seq<bool>;

    /// The flags, page by page.
    closed spec fn view(&self) -> Seq<bool> {
        self.pages@
    }
}

impl PageStatusBitmap {
    /// Address of the first byte of the buffer.
    pub closed spec fn spec_base_addr(self) -> usize {
        self.base_addr
    }

    /// Number of pages that are marked as read.
    pub open spec fn spec_success_count(self) -> nat {
        self@.filter(|b: bool| b).len()
    }

    /// A bitmap for a buffer of `size` bytes that starts at `base_addr`,
    /// with no page marked as read.
    pub fn new(size: usize, base_addr: usize, page_size: usize) -> (r: Self)
        requires
            page_size > 0,
        ensures
            r.spec_base_addr() == base_addr,
            r@.len() == spec_pages_spanned(size as int, base_addr as int, page_size as int),
            forall|i: int| 0 <= i < r@.len() ==> !r@[i],
    {
        let num_pages: usize = if size == 0 {
            0
        } else {
            let lead = base_addr % page_size;
            // (lead + size + page_size - 1) / page_size without overflow:
            // whole pages of `size`, plus what the two remainders add.
            let whole = size / page_size;
            let rest = size % page_size;
            let extra: usize = if rest == 0 {
                if lead == 0 {
                    0
                } else {
                    1
                }
            } else if lead > page_size - rest {
                2
            } else {
                1
            };
            proof {
                lemma_pages_spanned(size as int, lead as int, page_size as int);
                assert(base_addr as int % page_size as int == lead as int);
                lemma_whole_pages_bound(size as int, page_size as int);
            }
            whole + extra
        };
        let pages = vec![false; num_pages];
        PageStatusBitmap { base_addr, pages }
    }

    /// Address of the first byte of the buffer.
    pub fn base_addr(&self) -> (r: usize)
        ensures
            r == self.spec_base_addr(),
    {
        self.base_addr
    }

    /// Number of pages that the buffer touches.
    pub fn num_pages(&self) -> (r: usize)
        ensures
            r == self@.len(),
    {
        self.pages.len()
    }

    /// Whether page `index` was read. False for a page past the last.
    pub fn is_page_success(&self, index: usize) -> (r: bool)
        ensures
            r == (index < self@.len() && self@[index as int]),
    {
        index < self.pages.len() && self.pages[index]
    }

    /// Records the outcome of page `index`. A page past the last is ignored.
    pub fn set_page_status(&mut self, index: usize, success: bool)
        ensures
            final(self).spec_base_addr() == old(self).spec_base_addr(),
            final(self)@ == if index < old(self)@.len() {
                old(self)@.update(index as int, success)
            } else {
                old(self)@
            },
    {
        if index < self.pages.len() {
            self.pages[index] = success;
        }
    }

    /// Marks every page as read.
    pub fn mark_all_success(&mut self)
        ensures
            final(self).spec_base_addr() == old(self).spec_base_addr(),
            final(self)@.len() == old(self)@.len(),
            forall|i: int| 0 <= i < final(self)@.len() ==> final(self)@[i],
    {
        let n = self.pages.len();
        let mut i: usize = 0;
        while i < n
            invariant
                0 <= i <= n,
                n == self.pages@.len(),
                self.base_addr == old(self).base_addr,
                forall|j: int| 0 <= j < i ==> self.pages@[j],
            decreases n - i,
        {
            self.pages[i] = true;
            i = i + 1;
        }
    }

    /// Number of pages that were read.
    pub fn success_count(&self) -> (r: usize)
        ensures
            r == self.spec_success_count(),
    {
        let mut count: usize = 0;
        let mut i: usize = 0;
        let ghost is_set = |b: bool| b;
        assert(self@.take(0) =~= Seq::<bool>::empty());
        while i < self.pages.len()
            invariant
                0 <= i <= self.pages@.len(),
                is_set == (|b: bool| b),
                count == self@.take(i as int).filter(is_set).len(),
                count <= i,
            decreases self.pages@.len() - i,
        {
            proof {
                let prefix = self@.take(i as int);
                assert(self@.take(i + 1) =~= prefix.push(self@[i as int]));
                prefix.lemma_filter_push(self@[i as int], is_set);
            }
            if self.pages[i] {
                count = count + 1;
            }
            i = i + 1;
        }
        assert(self@.take(i as int) =~= self@);
        count
    }
}

/// Splits the page count of a buffer into the whole pages of its size and
/// what the remainders at its two ends add.
proof fn lemma_pages_spanned(size: int, lead: int, page_size: int)
    requires
        size > 0,
        page_size > 0,
        0 <= lead < page_size,
    ensures
        (lead + size + page_size - 1) / page_size == size / page_size + if size % page_size == 0 {
            if lead == 0 {
                0int
            } else {
                1int
            }
        } else if lead > page_size - size % page_size {
            2int
        } else {
            1int
        },
{
    let q = size / page_size;
    let r = size % page_size;
    assert(size == page_size * q + r) by {
        vstd::arithmetic::div_mod::lemma_fundamental_div_mod(size, page_size);
    }
    let e = lead + r + page_size - 1;
    assert(lead + size + page_size - 1 == page_size * q + e);
    assert((page_size * q + e) / page_size == q + e / page_size) by {
        vstd::arithmetic::div_mod::lemma_div_multiples_vanish_fancy(q, 0, page_size);
        vstd::arithmetic::div_mod::lemma_hoist_over_denominator(e, q, page_size as nat);
        assert(page_size * q + e == e + q * page_size) by (nonlinear_arith);
    }
    if e < page_size {
        assert(e / page_size == 0) by {
            vstd::arithmetic::div_mod::lemma_fundamental_div_mod_converse(e, page_size, 0, e);
        }
    } else if e < 2 * page_size {
        assert(e / page_size == 1) by {
            vstd::arithmetic::div_mod::lemma_fundamental_div_mod_converse(e, page_size, 1, e - page_size);
        }
    } else {
        assert(e < 3 * page_size);
        assert(e / page_size == 2) by {
            vstd::arithmetic::div_mod::lemma_fundamental_div_mod_converse(
                e,
                page_size,
                2,
                e - 2 * page_size,
            );
        }
    }
}

/// A size has no more whole pages than it has bytes, and at most half as
/// many where a page has two bytes or more.
proof fn lemma_whole_pages_bound(size: int, page_size: int)
    requires
        size > 0,
        page_size > 0,
    ensures
        size / page_size <= size,
        page_size >= 2 ==> 2 * (size / page_size) <= size,
{
    vstd::arithmetic::div_mod::lemma_fundamental_div_mod(size, page_size);
    let q = size / page_size;
    let r = size % page_size;
    assert(q >= 0) by {
        vstd::arithmetic::div_mod::lemma_div_pos_is_pos(size, page_size);
    }
    assert(page_size * q >= q) by (nonlinear_arith)
        requires
            page_size >= 1,
            q >= 0,
    ;
    if page_size >= 2 {
        assert(page_size * q >= 2 * q) by (nonlinear_arith)
            requires
                page_size >= 2,
                q >= 0,
        ;
    }
}

} // verus!
