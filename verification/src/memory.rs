//! What a read of the target's memory hands back.

use crate::page_bitmap::PageStatusBitmap;
use vstd::prelude::*;

verus! {

/// The outcome of one read that did not fail outright: the buffer, and which
/// of its pages were delivered. Bytes of a page that was not delivered mean
/// nothing.
#[derive(Debug)]
pub struct MemoryRead {
    pub data: Vec<u8>,
    pub pages: PageStatusBitmap,
}

impl MemoryRead {
    pub fn new(data: Vec<u8>, pages: PageStatusBitmap) -> (r: Self)
        ensures
            r.data == data,
            r.pages == pages,
    {
        MemoryRead { data, pages }
    }
}

} // verus!
