//! One entry of a fuzzy search's result set.

use crate::search::types::condition_holds;
use crate::search::types::spec_condition_holds;
use crate::search::types::FuzzyCondition;
use crate::search::types::ValueType;
use vstd::prelude::*;

verus! {

/// The number that little-endian bytes stand for.
pub open spec fn spec_le_value(bytes: Seq<u8>) -> nat
    decreases bytes.len(),
{
    if bytes.len() == 0 {
        0
    } else {
        bytes[0] as nat + 256 * spec_le_value(bytes.drop_first())
    }
}

/// 256 to the power `n`.
pub open spec fn spec_pow256(n: nat) -> nat
    decreases n,
{
    if n == 0 {
        1
    } else {
        256 * spec_pow256((n - 1) as nat)
    }
}

/// The integer that `bits` stands for under a type of `size` bytes: `bits`
/// itself where the type is unsigned, its two's complement reading where
/// the type is signed.
pub open spec fn spec_typed_value(value_type: ValueType, bits: nat) -> int {
    let span = spec_pow256(value_type.spec_size());
    if value_type.spec_is_signed() && 2 * bits >= span {
        bits - span
    } else {
        bits as int
    }
}

/// An address with the value that was last read there.
#[derive(Clone, Copy, Debug, PartialEq, Eq, Structural)]
pub struct FuzzySearchResultItem {
    pub address: u64,
    pub value_type: ValueType,
    /// The bytes of the value, read as a little-endian number.
    pub value_bits: u64,
}

/// Little-endian bytes stand for a number below 256 to the power of their
/// count.
pub proof fn lemma_le_value_bound(bytes: Seq<u8>)
    ensures
        spec_le_value(bytes) < spec_pow256(bytes.len()),
    decreases bytes.len(),
{
    if bytes.len() > 0 {
        lemma_le_value_bound(bytes.drop_first());
    }
}

/// Bytes that are all zero stand for zero.
pub proof fn lemma_le_value_of_zeroes(bytes: Seq<u8>)
    requires
        forall|i: int| 0 <= i < bytes.len() ==> bytes[i] == 0,
    ensures
        spec_le_value(bytes) == 0,
    decreases bytes.len(),
{
    if bytes.len() > 0 {
        let rest = bytes.drop_first();
        assert forall|i: int| 0 <= i < rest.len() implies rest[i] == 0 by {
            assert(rest[i] == bytes[i + 1]);
        }
        lemma_le_value_of_zeroes(rest);
    }
}

/// The powers of 256 up to the eighth.
pub proof fn lemma_pow256_values()
    ensures
        spec_pow256(0) == 1,
        spec_pow256(1) == 0x100,
        spec_pow256(2) == 0x1_0000,
        spec_pow256(3) == 0x100_0000,
        spec_pow256(4) == 0x1_0000_0000,
        spec_pow256(5) == 0x100_0000_0000,
        spec_pow256(6) == 0x1_0000_0000_0000,
        spec_pow256(7) == 0x100_0000_0000_0000,
        spec_pow256(8) == 0x1_0000_0000_0000_0000,
{
    reveal_with_fuel(spec_pow256, 10);
}

proof fn lemma_le_value_push(bytes: Seq<u8>, last: u8)
    ensures
        spec_le_value(bytes.push(last)) == spec_le_value(bytes) + last * spec_pow256(bytes.len()),
    decreases bytes.len(),
{
    let longer = bytes.push(last);
    if bytes.len() == 0 {
        assert(longer.drop_first() =~= Seq::<u8>::empty());
        assert(spec_le_value(longer) == last as nat + 256 * spec_le_value(longer.drop_first()));
        assert(spec_le_value(longer.drop_first()) == 0);
        assert(spec_pow256(0) == 1);
        assert(last * spec_pow256(0) == last) by (nonlinear_arith)
            requires
                spec_pow256(0) == 1,
        ;
    } else {
        let rest = bytes.drop_first();
        lemma_le_value_push(rest, last);
        assert(longer.drop_first() =~= rest.push(last));
        assert(longer[0] == bytes[0]);
        assert(spec_le_value(longer) == bytes[0] as nat + 256 * spec_le_value(rest.push(last)));
        assert(spec_le_value(bytes) == bytes[0] as nat + 256 * spec_le_value(rest));
        let p = spec_pow256(rest.len());
        assert(spec_pow256(bytes.len()) == 256 * p);
        assert(256 * (spec_le_value(rest) + last * p) == 256 * spec_le_value(rest) + last * (256
            * p)) by (nonlinear_arith);
    }
}

/// Reads up to eight little-endian bytes as a number.
pub fn le_value(bytes: &[u8]) -> (r: u64)
    requires
        bytes@.len() <= 8,
    ensures
        r == spec_le_value(bytes@),
{
    let n = bytes.len();
    let mut value: u64 = 0;
    let mut scale: u64 = 1;
    let mut i: usize = 0;
    proof {
        lemma_pow256_values();
        assert(bytes@.take(0) =~= Seq::<u8>::empty());
    }
    while i < n
        invariant
            0 <= i <= n <= 8,
            n == bytes@.len(),
            value == spec_le_value(bytes@.take(i as int)),
            i < 8 ==> scale == spec_pow256(i as nat),
        decreases n - i,
    {
        proof {
            lemma_pow256_values();
            let seen = bytes@.take(i as int);
            lemma_le_value_bound(seen);
            lemma_le_value_push(seen, bytes@[i as int]);
            assert(bytes@.take(i + 1) =~= seen.push(bytes@[i as int]));
            lemma_le_value_bound(bytes@.take(i + 1));
            assert(bytes@[i as int] * spec_pow256(i as nat) <= 255 * spec_pow256(i as nat))
                by (nonlinear_arith)
                requires
                    bytes@[i as int] <= 255,
            ;
        }
        value = value + (bytes[i] as u64) * scale;
        if i < 7 {
            scale = scale * 256;
        }
        i = i + 1;
    }
    assert(bytes@.take(n as int) =~= bytes@);
    value
}

impl FuzzySearchResultItem {
    /// The value as an integer under the item's type.
    pub open spec fn spec_value(self) -> int {
        spec_typed_value(self.value_type, self.value_bits as nat)
    }

    /// The item's bits are those of a value of its type.
    pub open spec fn spec_fits(self) -> bool {
        self.value_bits < spec_pow256(self.value_type.spec_size())
    }

    /// An item for the value whose bytes start `bytes`. The bytes of one
    /// value of the type are taken; any further ones are ignored.
    pub fn from_bytes(address: u64, bytes: &[u8], value_type: ValueType) -> (r: Self)
        requires
            bytes@.len() >= value_type.spec_size(),
        ensures
            r.address == address,
            r.value_type == value_type,
            r.value_bits == spec_le_value(bytes@.take(value_type.spec_size() as int)),
            r.spec_fits(),
    {
        let size = value_type.size();
        let head = vstd::slice::slice_subrange(bytes, 0, size);
        proof {
            assert(head@ =~= bytes@.take(size as int));
            lemma_le_value_bound(head@);
        }
        FuzzySearchResultItem { address, value_type, value_bits: le_value(head) }
    }

    /// The bytes of the value, as many as its type has, lowest first.
    pub fn value_bytes(&self) -> (r: Vec<u8>)
        requires
            self.spec_fits(),
        ensures
            r@.len() == self.value_type.spec_size(),
            spec_le_value(r@) == self.value_bits,
    {
        let size = self.value_type.size();
        let mut out: Vec<u8> = Vec::with_capacity(size);
        let mut rest = self.value_bits;
        let mut i: usize = 0;
        proof {
            lemma_pow256_values();
            assert(rest * spec_pow256(0) == rest) by (nonlinear_arith)
                requires
                    spec_pow256(0) == 1,
            ;
        }
        while i < size
            invariant
                0 <= i <= size <= 8,
                size == self.value_type.spec_size(),
                out@.len() == i,
                self.value_bits == spec_le_value(out@) + rest * spec_pow256(i as nat),
            decreases size - i,
        {
            let low = (rest % 256) as u8;
            proof {
                lemma_le_value_push(out@, low);
                let p = spec_pow256(i as nat);
                assert(spec_pow256((i + 1) as nat) == 256 * p);
                assert(rest * p == low * p + (rest / 256) * (256 * p)) by (nonlinear_arith)
                    requires
                        rest == 256 * (rest / 256) + low,
                ;
            }
            out.push(low);
            rest = rest / 256;
            i = i + 1;
        }
        proof {
            lemma_le_value_bound(out@);
            let p = spec_pow256(size as nat);
            assert(rest == 0) by (nonlinear_arith)
                requires
                    self.value_bits == spec_le_value(out@) + rest * p,
                    self.value_bits < p,
                    rest >= 0,
                    p > 0,
            ;
        }
        out
    }

    /// The value as an integer under the item's type.
    pub fn value(&self) -> (r: i128)
        requires
            self.spec_fits(),
        ensures
            r == self.spec_value(),
            -0x8000_0000_0000_0000 <= r < 0x1_0000_0000_0000_0000,
    {
        proof {
            lemma_pow256_values();
        }
        let bits = self.value_bits as i128;
        let span: i128 = match self.value_type.size() {
            1 => 0x100,
            2 => 0x1_0000,
            4 => 0x1_0000_0000,
            _ => 0x1_0000_0000_0000_0000,
        };
        if self.value_type.is_signed() && 2 * bits >= span {
            bits - span
        } else {
            bits
        }
    }

    /// Whether the value that `new_bytes` hold meets the condition, given
    /// the value that the item holds. `None` for a floating-point type: an
    /// integer comparison does not decide it.
    pub fn matches_condition(&self, new_bytes: &[u8], condition: FuzzyCondition) -> (r: Option<
        bool,
    >)
        requires
            self.spec_fits(),
            new_bytes@.len() >= self.value_type.spec_size(),
        ensures
            r == self.spec_matches_condition(new_bytes@, condition),
    {
        if self.value_type.is_float() {
            return None;
        }
        let current = FuzzySearchResultItem::from_bytes(self.address, new_bytes, self.value_type);
        Some(condition_holds(condition, self.value(), current.value()))
    }

    /// Whether the value that `new_bytes` hold meets the condition; `None`
    /// for a floating-point type.
    pub open spec fn spec_matches_condition(
        self,
        new_bytes: Seq<u8>,
        condition: FuzzyCondition,
    ) -> Option<bool> {
        if self.value_type.spec_is_float() {
            None
        } else {
            Some(
                spec_condition_holds(
                    condition,
                    self.spec_value(),
                    spec_typed_value(
                        self.value_type,
                        spec_le_value(new_bytes.take(self.value_type.spec_size() as int)),
                    ),
                ),
            )
        }
    }
}

} // verus!
