//! The kinds of value that can be searched for, and the conditions that a
//! refinement pass can ask of them.

use vstd::prelude::*;

verus! {

/// How the bytes at an address are read.
#[derive(Clone, Copy, Debug, PartialEq, Eq, Structural)]
pub enum ValueType {
    I8,
    U8,
    I16,
    U16,
    I32,
    U32,
    I64,
    U64,
    F32,
    F64,
}

impl ValueType {
    /// Number of bytes of a value.
    pub open spec fn spec_size(self) -> nat {
        match self {
            ValueType::I8 | ValueType::U8 => 1,
            ValueType::I16 | ValueType::U16 => 2,
            ValueType::I32 | ValueType::U32 | ValueType::F32 => 4,
            ValueType::I64 | ValueType::U64 | ValueType::F64 => 8,
        }
    }

    /// The type is a signed integer.
    pub open spec fn spec_is_signed(self) -> bool {
        self is I8 || self is I16 || self is I32 || self is I64
    }

    /// The type is a floating-point number.
    pub open spec fn spec_is_float(self) -> bool {
        self is F32 || self is F64
    }

    /// Small number that stands for the type where one is stored.
    pub open spec fn spec_tag(self) -> u8 {
        match self {
            ValueType::I8 => 0,
            ValueType::U8 => 1,
            ValueType::I16 => 2,
            ValueType::U16 => 3,
            ValueType::I32 => 4,
            ValueType::U32 => 5,
            ValueType::I64 => 6,
            ValueType::U64 => 7,
            ValueType::F32 => 8,
            ValueType::F64 => 9,
        }
    }

    /// The type that a tag stands for; `None` for a number that is no tag.
    pub open spec fn spec_from_tag(tag: u8) -> Option<ValueType> {
        if tag == 0 {
            Some(ValueType::I8)
        } else if tag == 1 {
            Some(ValueType::U8)
        } else if tag == 2 {
            Some(ValueType::I16)
        } else if tag == 3 {
            Some(ValueType::U16)
        } else if tag == 4 {
            Some(ValueType::I32)
        } else if tag == 5 {
            Some(ValueType::U32)
        } else if tag == 6 {
            Some(ValueType::I64)
        } else if tag == 7 {
            Some(ValueType::U64)
        } else if tag == 8 {
            Some(ValueType::F32)
        } else if tag == 9 {
            Some(ValueType::F64)
        } else {
            None
        }
    }

    /// Number of bytes of a value.
    pub fn size(&self) -> (r: usize)
        ensures
            r == self.spec_size(),
            1 <= r <= 8,
    {
        match self {
            ValueType::I8 | ValueType::U8 => 1,
            ValueType::I16 | ValueType::U16 => 2,
            ValueType::I32 | ValueType::U32 | ValueType::F32 => 4,
            ValueType::I64 | ValueType::U64 | ValueType::F64 => 8,
        }
    }

    /// Whether the type is a signed integer.
    pub fn is_signed(&self) -> (r: bool)
        ensures
            r == self.spec_is_signed(),
    {
        match self {
            ValueType::I8 | ValueType::I16 | ValueType::I32 | ValueType::I64 => true,
            _ => false,
        }
    }

    /// Whether the type is a floating-point number.
    pub fn is_float(&self) -> (r: bool)
        ensures
            r == self.spec_is_float(),
    {
        match self {
            ValueType::F32 | ValueType::F64 => true,
            _ => false,
        }
    }

    /// The tag of the type.
    pub fn tag(&self) -> (r: u8)
        ensures
            r == self.spec_tag(),
            Self::spec_from_tag(r) == Some(*self),
    {
        match self {
            ValueType::I8 => 0,
            ValueType::U8 => 1,
            ValueType::I16 => 2,
            ValueType::U16 => 3,
            ValueType::I32 => 4,
            ValueType::U32 => 5,
            ValueType::I64 => 6,
            ValueType::U64 => 7,
            ValueType::F32 => 8,
            ValueType::F64 => 9,
        }
    }

    /// The type that `tag` stands for.
    pub fn from_tag(tag: u8) -> (r: Option<ValueType>)
        ensures
            r == Self::spec_from_tag(tag),
    {
        if tag == 0 {
            Some(ValueType::I8)
        } else if tag == 1 {
            Some(ValueType::U8)
        } else if tag == 2 {
            Some(ValueType::I16)
        } else if tag == 3 {
            Some(ValueType::U16)
        } else if tag == 4 {
            Some(ValueType::I32)
        } else if tag == 5 {
            Some(ValueType::U32)
        } else if tag == 6 {
            Some(ValueType::I64)
        } else if tag == 7 {
            Some(ValueType::U64)
        } else if tag == 8 {
            Some(ValueType::F32)
        } else if tag == 9 {
            Some(ValueType::F64)
        } else {
            None
        }
    }
}

/// What a refinement pass asks of a value, given the value it had before.
/// The numbers are integers; they apply to the integer types.
#[derive(Clone, Copy, Debug, PartialEq, Eq, Structural)]
pub enum FuzzyCondition {
    /// The value is what it was.
    Unchanged,
    /// The value is not what it was.
    Changed,
    /// The value is greater than it was.
    Increased,
    /// The value is smaller than it was.
    Decreased,
    /// The value is greater than it was by exactly this much.
    IncreasedBy(i64),
    /// The value is smaller than it was by exactly this much.
    DecreasedBy(i64),
    /// The value is this.
    Equal(i64),
    /// The value is greater than this.
    GreaterThan(i64),
    /// The value is smaller than this.
    LessThan(i64),
    /// The value lies between these two, both included.
    InRange(i64, i64),
}

/// Whether a value that was `old` and is now `new` meets the condition.
pub open spec fn spec_condition_holds(condition: FuzzyCondition, old: int, new: int) -> bool {
    match condition {
        FuzzyCondition::Unchanged => old == new,
        FuzzyCondition::Changed => old != new,
        FuzzyCondition::Increased => new > old,
        FuzzyCondition::Decreased => new < old,
        FuzzyCondition::IncreasedBy(n) => new - old == n,
        FuzzyCondition::DecreasedBy(n) => old - new == n,
        FuzzyCondition::Equal(v) => new == v,
        FuzzyCondition::GreaterThan(v) => new > v,
        FuzzyCondition::LessThan(v) => new < v,
        FuzzyCondition::InRange(lo, hi) => lo <= new <= hi,
    }
}

/// Decides a condition for a value that was `old` and is now `new`.
pub fn condition_holds(condition: FuzzyCondition, old: i128, new: i128) -> (r: bool)
    requires
        -0x8000_0000_0000_0000 <= old < 0x1_0000_0000_0000_0000,
        -0x8000_0000_0000_0000 <= new < 0x1_0000_0000_0000_0000,
    ensures
        r == spec_condition_holds(condition, old as int, new as int),
{
    match condition {
        FuzzyCondition::Unchanged => old == new,
        FuzzyCondition::Changed => old != new,
        FuzzyCondition::Increased => new > old,
        FuzzyCondition::Decreased => new < old,
        FuzzyCondition::IncreasedBy(n) => new - old == n as i128,
        FuzzyCondition::DecreasedBy(n) => old - new == n as i128,
        FuzzyCondition::Equal(v) => new == v as i128,
        FuzzyCondition::GreaterThan(v) => new > v as i128,
        FuzzyCondition::LessThan(v) => new < v as i128,
        FuzzyCondition::InRange(lo, hi) => lo as i128 <= new && new <= hi as i128,
    }
}

} // verus!
