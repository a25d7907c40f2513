//! Conversions of what the driver reports.

use crate::search::result_manager::le_value;
use crate::search::result_manager::spec_le_value;
use vstd::prelude::*;
use vstd::slice::slice_subrange;
use vstd::slice::slice_to_vec;
use vstd::utf8::decode_utf8;
use vstd::utf8::valid_utf8;

verus! {

/// `end` is where the C string in `bytes` ends: at its first zero byte, or
/// at the end of `bytes` if there is none.
pub open spec fn spec_is_cstring_end(bytes: Seq<u8>, end: int) -> bool {
    &&& 0 <= end <= bytes.len()
    &&& forall|i: int| 0 <= i < end ==> bytes[i] != 0
    &&& end < bytes.len() ==> bytes[end] == 0
}

/// The bytes before the first zero byte; all of them if none is zero.
pub open spec fn spec_cstring_bytes(bytes: Seq<u8>) -> Seq<u8> {
    bytes.subrange(0, choose|end: int| spec_is_cstring_end(bytes, end))
}

/// The text of the C string in `bytes`: its bytes decoded as UTF-8, or
/// nothing where they are not valid UTF-8.
pub open spec fn spec_extract_cstring(bytes: Seq<u8>) -> Seq<char> {
    let text = spec_cstring_bytes(bytes);
    if valid_utf8(text) {
        decode_utf8(text)
    } else {
        Seq::empty()
    }
}

/// Calls `String::from_utf8` of std. Trusted: it gives the decoded text
/// exactly where the bytes are valid UTF-8, and nothing otherwise.
#[verifier::external_body]
fn string_from_utf8(bytes: Vec<u8>) -> (r: Option<String>)
    ensures
        match r {
            Some(text) => valid_utf8(bytes@) && text@ == decode_utf8(bytes@),
            None => !valid_utf8(bytes@),
        },
{
    String::from_utf8(bytes).ok()
}

/// Index of the first zero byte, or the length where none is zero.
pub fn cstring_len(bytes: &[u8]) -> (end: usize)
    ensures
        spec_is_cstring_end(bytes@, end as int),
{
    let mut end: usize = 0;
    while end < bytes.len() && bytes[end] != 0
        invariant
            0 <= end <= bytes@.len(),
            forall|i: int| 0 <= i < end ==> bytes@[i] != 0,
        decreases bytes@.len() - end,
    {
        end = end + 1;
    }
    end
}

/// The text of a zero-terminated, fixed-size name field. Text that is not
/// valid UTF-8 becomes the empty string.
pub fn extract_cstring(bytes: &[u8]) -> (r: String)
    ensures
        r@ == spec_extract_cstring(bytes@),
{
    let end = cstring_len(bytes);
    proof {
        let chosen = choose|e: int| spec_is_cstring_end(bytes@, e);
        assert(spec_is_cstring_end(bytes@, chosen));
        assert(chosen == end) by {
            if chosen < end {
                assert(bytes@[chosen] != 0);
            }
            if end < chosen {
                assert(bytes@[end as int] != 0);
            }
        }
    }
    let text = slice_to_vec(slice_subrange(bytes, 0, end));
    match string_from_utf8(text) {
        Some(s) => s,
        None => String::new(),
    }
}

/// `needle` occurs in `hay` as a run of consecutive bytes.
pub open spec fn spec_contains_bytes(hay: Seq<u8>, needle: Seq<u8>) -> bool {
    exists|i: int|
        0 <= i && i + needle.len() <= hay.len() && #[trigger] hay.subrange(i, i + needle.len())
            == needle
}

/// Whether `needle` occurs in `hay`.
pub fn contains_bytes(hay: &[u8], needle: &[u8]) -> (r: bool)
    ensures
        r == spec_contains_bytes(hay@, needle@),
{
    let n = needle.len();
    let h = hay.len();
    if n > h {
        return false;
    }
    let mut i: usize = 0;
    while i <= h - n
        invariant
            n == needle@.len(),
            h == hay@.len(),
            n <= h,
            0 <= i <= h - n + 1,
            forall|k: int| 0 <= k < i ==> #[trigger] hay@.subrange(k, k + n) != needle@,
        decreases h - n + 1 - i,
    {
        let mut j: usize = 0;
        while j < n && hay[i + j] == needle[j]
            invariant
                n == needle@.len(),
                h == hay@.len(),
                i + n <= h,
                0 <= j <= n,
                forall|k: int| 0 <= k < j ==> hay@[i + k] == needle@[k],
            decreases n - j,
        {
            j = j + 1;
        }
        if j == n {
            assert(hay@.subrange(i as int, i + n) =~= needle@);
            return true;
        }
        assert(hay@.subrange(i as int, i + n)[j as int] != needle@[j as int]);
        i = i + 1;
    }
    false
}

/// The bytes that the name of this program's own process must contain for
/// the driver to be taken into use: the ASCII letters of `fuqiuluo`.
pub open spec fn spec_expected_name_part() -> Seq<u8> {
    seq![0x66u8, 0x75u8, 0x71u8, 0x69u8, 0x75u8, 0x6cu8, 0x75u8, 0x6fu8]
}

/// Whether a process name, as the driver reports it, passes the self-check.
pub open spec fn spec_process_name_accepted(name: Seq<u8>) -> bool {
    valid_utf8(spec_cstring_bytes(name)) && spec_contains_bytes(
        spec_cstring_bytes(name),
        spec_expected_name_part(),
    )
}

/// The self-check that is made when the driver is taken into use: the name
/// of this program's own process, a zero-terminated field, must be valid
/// UTF-8 and contain the expected part.
pub fn check_process_name(name: &[u8]) -> (r: bool)
    ensures
        r == spec_process_name_accepted(name@),
{
    let end = cstring_len(name);
    proof {
        let chosen = choose|e: int| spec_is_cstring_end(name@, e);
        assert(spec_is_cstring_end(name@, chosen));
        assert(chosen == end) by {
            if chosen < end {
                assert(name@[chosen] != 0);
            }
            if end < chosen {
                assert(name@[end as int] != 0);
            }
        }
    }
    let text = slice_subrange(name, 0, end);
    let expected: [u8; 8] = [0x66, 0x75, 0x71, 0x69, 0x75, 0x6c, 0x75, 0x6f];
    assert(expected@ =~= spec_expected_name_part());
    match string_from_utf8(slice_to_vec(text)) {
        Some(_) => contains_bytes(text, expected.as_slice()),
        None => false,
    }
}

/// One entry of the list of memory regions that the driver writes.
#[derive(Clone, Debug, PartialEq, Eq)]
pub struct MemRegionEntry {
    pub start: u64,
    pub end: u64,
    pub region_type: u32,
    pub name: String,
}

/// Bytes of an entry before its name: start, end and type.
pub const MEM_REGION_HEADER_SIZE: usize = 20;

/// Bytes from one entry to the next: the header and a name field of
/// `name_len` bytes, rounded up to a multiple of eight.
pub open spec fn spec_mem_region_stride(name_len: int) -> int {
    (MEM_REGION_HEADER_SIZE + name_len + 7) / 8 * 8
}

/// The entry that lies at `offset` in the buffer: start and end as eight
/// little-endian bytes each, the type as four, then the name field.
pub open spec fn spec_mem_region_at(buffer: Seq<u8>, offset: int, name_len: int) -> (
    u64,
    u64,
    u32,
    Seq<char>,
) {
    (
        spec_le_value(buffer.subrange(offset, offset + 8)) as u64,
        spec_le_value(buffer.subrange(offset + 8, offset + 16)) as u64,
        spec_le_value(buffer.subrange(offset + 16, offset + 20)) as u32,
        spec_extract_cstring(buffer.subrange(offset + 20, offset + 20 + name_len)),
    )
}

/// Reads the list of memory regions that the driver wrote: `entry_count`
/// entries laid out back to back from the start of the buffer, each with a
/// name field of `name_len` bytes. `None` where the buffer is too short to
/// hold them.
pub fn decode_mem_regions(buffer: &[u8], entry_count: usize, name_len: usize) -> (r: Option<
    Vec<MemRegionEntry>,
>)
    requires
        name_len + MEM_REGION_HEADER_SIZE + 7 <= usize::MAX,
    ensures
        r is Some <==> entry_count * spec_mem_region_stride(name_len as int) <= buffer@.len(),
        r matches Some(entries) ==> {
            &&& entries@.len() == entry_count
            &&& forall|i: int|
                0 <= i < entry_count ==> {
                    let entry = #[trigger] entries@[i];
                    (entry.start, entry.end, entry.region_type, entry.name@) == spec_mem_region_at(
                        buffer@,
                        i * spec_mem_region_stride(name_len as int),
                        name_len as int,
                    )
                }
        },
{
    let stride = (MEM_REGION_HEADER_SIZE + name_len + 7) / 8 * 8;
    let len = buffer.len();
    let mut entries: Vec<MemRegionEntry> = Vec::new();
    let mut i: usize = 0;
    let mut offset: usize = 0;
    while i < entry_count
        invariant
            0 <= i <= entry_count,
            len == buffer@.len(),
            name_len + MEM_REGION_HEADER_SIZE + 7 <= usize::MAX,
            stride == spec_mem_region_stride(name_len as int),
            stride >= MEM_REGION_HEADER_SIZE + name_len,
            offset == i * stride,
            offset <= len,
            entries@.len() == i,
            forall|k: int|
                0 <= k < i ==> {
                    let entry = #[trigger] entries@[k];
                    (entry.start, entry.end, entry.region_type, entry.name@) == spec_mem_region_at(
                        buffer@,
                        k * stride,
                        name_len as int,
                    )
                },
        decreases entry_count - i,
    {
        if len - offset < stride {
            proof {
                assert((i + 1) * stride == i * stride + stride) by (nonlinear_arith);
                assert(entry_count * stride >= (i + 1) * stride) by (nonlinear_arith)
                    requires
                        entry_count >= i + 1,
                        stride >= 0,
                ;
            }
            return None;
        }
        proof {
            crate::search::result_manager::lemma_le_value_bound(buffer@.subrange(offset as int, offset + 8));
            crate::search::result_manager::lemma_le_value_bound(
                buffer@.subrange(offset + 8, offset + 16),
            );
            crate::search::result_manager::lemma_le_value_bound(
                buffer@.subrange(offset + 16, offset + 20),
            );
            crate::search::result_manager::lemma_pow256_values();
        }
        let start = le_value(slice_subrange(buffer, offset, offset + 8));
        let end = le_value(slice_subrange(buffer, offset + 8, offset + 16));
        let region_type = le_value(slice_subrange(buffer, offset + 16, offset + 20)) as u32;
        let name = extract_cstring(slice_subrange(buffer, offset + 20, offset + 20 + name_len));
        entries.push(MemRegionEntry { start, end, region_type, name });
        proof {
            assert((i + 1) * stride == i * stride + stride) by (nonlinear_arith);
        }
        offset = offset + stride;
        i = i + 1;
    }
    Some(entries)
}

} // verus!
