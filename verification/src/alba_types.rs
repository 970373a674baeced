//! The typed values of a row, as far as the index and the cursor need them.

use vstd::prelude::*;

verus! {

/// A typed value. A value also stands for its type: the declared type of a
/// column is a value of that type, whatever it holds.
///
/// A floating-point number is held as its 64 bits in the format of IEEE 754.
#[derive(Debug, Clone)]
pub enum AlbaTypes {
    Text(String),
    Int(i32),
    Bigint(i64),
    Float(u64),
    Bool(bool),
    Char(char),
    NanoString(String),
    SmallString(String),
    MediumString(String),
    BigString(String),
    LargeString(String),
    NanoBytes(Vec<u8>),
    SmallBytes(Vec<u8>),
    MediumBytes(Vec<u8>),
    BigSBytes(Vec<u8>),
    LargeBytes(Vec<u8>),
    NONE,
}

/// A typed value as a mathematical value: texts are sequences of characters,
/// byte strings are sequences of bytes.
pub enum AlbaValue {
    Text(Seq<char>),
    Int(i32),
    Bigint(i64),
    Float(u64),
    Bool(bool),
    Char(char),
    NanoString(Seq<char>),
    SmallString(Seq<char>),
    MediumString(Seq<char>),
    BigString(Seq<char>),
    LargeString(Seq<char>),
    NanoBytes(Seq<u8>),
    SmallBytes(Seq<u8>),
    MediumBytes(Seq<u8>),
    BigSBytes(Seq<u8>),
    LargeBytes(Seq<u8>),
    NONE,
}

/// The exponent field of the bits of a floating-point number.
pub open spec fn float_exponent(bits: u64) -> u64 {
    bits / 0x10_0000_0000_0000 % 2048
}

/// The fraction field of the bits of a floating-point number.
pub open spec fn float_fraction(bits: u64) -> u64 {
    bits % 0x10_0000_0000_0000
}

/// Whether the bits are those of a NaN.
pub open spec fn float_is_nan(bits: u64) -> bool {
    float_exponent(bits) == 2047 && float_fraction(bits) != 0
}

/// Whether the bits are those of zero, of either sign.
pub open spec fn float_is_zero(bits: u64) -> bool {
    bits % 0x8000_0000_0000_0000 == 0
}

/// Whether two floating-point numbers are equal as numbers: a NaN equals
/// nothing, and the two zeros equal each other.
pub open spec fn float_equal(a: u64, b: u64) -> bool {
    !float_is_nan(a) && !float_is_nan(b) && (a == b || (float_is_zero(a) && float_is_zero(b)))
}

impl AlbaValue {
    /// The number of the value's type.
    pub open spec fn id(self) -> u8 {
        match self {
            AlbaValue::NONE => 0,
            AlbaValue::Char(_) => 1,
            AlbaValue::Int(_) => 2,
            AlbaValue::Bigint(_) => 3,
            AlbaValue::Bool(_) => 4,
            AlbaValue::Float(_) => 5,
            AlbaValue::Text(_) => 6,
            AlbaValue::NanoString(_) => 7,
            AlbaValue::SmallString(_) => 8,
            AlbaValue::MediumString(_) => 9,
            AlbaValue::BigString(_) => 10,
            AlbaValue::LargeString(_) => 11,
            AlbaValue::NanoBytes(_) => 12,
            AlbaValue::SmallBytes(_) => 13,
            AlbaValue::MediumBytes(_) => 14,
            AlbaValue::BigSBytes(_) => 15,
            AlbaValue::LargeBytes(_) => 16,
        }
    }

    /// The empty value of the type with the given number: zero, `false`, the
    /// character of code 0, the empty text or the empty byte string.
    pub open spec fn blank(code: u8) -> AlbaValue {
        if code == 1 {
            AlbaValue::Char('\0')
        } else if code == 2 {
            AlbaValue::Int(0)
        } else if code == 3 {
            AlbaValue::Bigint(0)
        } else if code == 4 {
            AlbaValue::Bool(false)
        } else if code == 5 {
            AlbaValue::Float(0)
        } else if code == 6 {
            AlbaValue::Text(Seq::empty())
        } else if code == 7 {
            AlbaValue::NanoString(Seq::empty())
        } else if code == 8 {
            AlbaValue::SmallString(Seq::empty())
        } else if code == 9 {
            AlbaValue::MediumString(Seq::empty())
        } else if code == 10 {
            AlbaValue::BigString(Seq::empty())
        } else if code == 11 {
            AlbaValue::LargeString(Seq::empty())
        } else if code == 12 {
            AlbaValue::NanoBytes(Seq::empty())
        } else if code == 13 {
            AlbaValue::SmallBytes(Seq::empty())
        } else if code == 14 {
            AlbaValue::MediumBytes(Seq::empty())
        } else if code == 15 {
            AlbaValue::BigSBytes(Seq::empty())
        } else if code == 16 {
            AlbaValue::LargeBytes(Seq::empty())
        } else {
            AlbaValue::NONE
        }
    }

    /// Whether two values are equal: they are of one type and hold the same,
    /// floating-point numbers being compared as numbers.
    pub open spec fn agrees(self, other: AlbaValue) -> bool {
        match (self, other) {
            (AlbaValue::Float(a), AlbaValue::Float(b)) => float_equal(a, b),
            _ => self == other,
        }
    }
}

/// The empty value of a type bears the number of the type.
pub proof fn law_blank_has_its_id(code: u8)
    requires
        code <= 16,
    ensures
        AlbaValue::blank(code).id() == code,
{
}

/// Whether two sequences of values are equal, value by value.
pub open spec fn all_agree(a: Seq<AlbaValue>, b: Seq<AlbaValue>) -> bool {
    a.len() == b.len() && forall|i: int| 0 <= i < a.len() ==> (#[trigger] a[i]).agrees(b[i])
}

impl DeepView for AlbaTypes {
    type V = AlbaValue;

    open spec fn deep_view(&self) -> AlbaValue {
        match *self {
            AlbaTypes::Text(s) => AlbaValue::Text(s@),
            AlbaTypes::Int(n) => AlbaValue::Int(n),
            AlbaTypes::Bigint(n) => AlbaValue::Bigint(n),
            AlbaTypes::Float(bits) => AlbaValue::Float(bits),
            AlbaTypes::Bool(b) => AlbaValue::Bool(b),
            AlbaTypes::Char(c) => AlbaValue::Char(c),
            AlbaTypes::NanoString(s) => AlbaValue::NanoString(s@),
            AlbaTypes::SmallString(s) => AlbaValue::SmallString(s@),
            AlbaTypes::MediumString(s) => AlbaValue::MediumString(s@),
            AlbaTypes::BigString(s) => AlbaValue::BigString(s@),
            AlbaTypes::LargeString(s) => AlbaValue::LargeString(s@),
            AlbaTypes::NanoBytes(b) => AlbaValue::NanoBytes(b@),
            AlbaTypes::SmallBytes(b) => AlbaValue::SmallBytes(b@),
            AlbaTypes::MediumBytes(b) => AlbaValue::MediumBytes(b@),
            AlbaTypes::BigSBytes(b) => AlbaValue::BigSBytes(b@),
            AlbaTypes::LargeBytes(b) => AlbaValue::LargeBytes(b@),
            AlbaTypes::NONE => AlbaValue::NONE,
        }
    }
}

impl View for AlbaTypes {
    type V = AlbaValue;

    open spec fn view(&self) -> AlbaValue {
        self.deep_view()
    }
}

/// Tests whether two floating-point numbers, given by their bits, are equal
/// as numbers.
pub fn float_bits_equal(a: u64, b: u64) -> (equal: bool)
    ensures
        equal == float_equal(a, b),
{
    let a_nan = a / 0x10_0000_0000_0000 % 2048 == 2047 && a % 0x10_0000_0000_0000 != 0;
    let b_nan = b / 0x10_0000_0000_0000 % 2048 == 2047 && b % 0x10_0000_0000_0000 != 0;
    !a_nan && !b_nan && (a == b || (a % 0x8000_0000_0000_0000 == 0 && b % 0x8000_0000_0000_0000
        == 0))
}

/// A copy of a byte string.
pub fn copy_bytes(bytes: &Vec<u8>) -> (copy: Vec<u8>)
    ensures
        copy@ == bytes@,
{
    let mut copy: Vec<u8> = Vec::new();
    let mut i: usize = 0;
    while i < bytes.len()
        invariant
            i <= bytes.len(),
            copy@ == bytes@.take(i as int),
        decreases bytes.len() - i,
    {
        copy.push(bytes[i]);
        i = i + 1;
        assert(copy@ =~= bytes@.take(i as int));
    }
    assert(bytes@.take(bytes.len() as int) =~= bytes@);
    copy
}

/// Tests whether two byte strings hold the same bytes.
pub fn same_bytes(a: &Vec<u8>, b: &Vec<u8>) -> (same: bool)
    ensures
        same == (a@ == b@),
{
    if a.len() != b.len() {
        return false;
    }
    let mut i: usize = 0;
    while i < a.len()
        invariant
            i <= a.len(),
            a.len() == b.len(),
            forall|k: int| 0 <= k < i ==> a@[k] == b@[k],
        decreases a.len() - i,
    {
        if a[i] != b[i] {
            return false;
        }
        i = i + 1;
    }
    assert(a@ =~= b@);
    true
}

impl AlbaTypes {
    /// The empty value of the type with the given number, or `None` where no
    /// type has that number.
    pub fn from_id(code: u8) -> (made: Option<AlbaTypes>)
        ensures
            match made {
                Some(value) => code <= 16 && value@ == AlbaValue::blank(code),
                None => code > 16,
            },
    {
        match code {
            0 => Some(AlbaTypes::NONE),
            1 => Some(AlbaTypes::Char('\0')),
            2 => Some(AlbaTypes::Int(0)),
            3 => Some(AlbaTypes::Bigint(0)),
            4 => Some(AlbaTypes::Bool(false)),
            5 => Some(AlbaTypes::Float(0)),
            6 => Some(AlbaTypes::Text(String::new())),
            7 => Some(AlbaTypes::NanoString(String::new())),
            8 => Some(AlbaTypes::SmallString(String::new())),
            9 => Some(AlbaTypes::MediumString(String::new())),
            10 => Some(AlbaTypes::BigString(String::new())),
            11 => Some(AlbaTypes::LargeString(String::new())),
            12 => Some(AlbaTypes::NanoBytes(Vec::new())),
            13 => Some(AlbaTypes::SmallBytes(Vec::new())),
            14 => Some(AlbaTypes::MediumBytes(Vec::new())),
            15 => Some(AlbaTypes::BigSBytes(Vec::new())),
            16 => Some(AlbaTypes::LargeBytes(Vec::new())),
            _ => None,
        }
    }

    /// The number of the value's type.
    pub fn get_id(&self) -> (id: u8)
        ensures
            id == self@.id(),
    {
        match self {
            AlbaTypes::NONE => 0,
            AlbaTypes::Char(_) => 1,
            AlbaTypes::Int(_) => 2,
            AlbaTypes::Bigint(_) => 3,
            AlbaTypes::Bool(_) => 4,
            AlbaTypes::Float(_) => 5,
            AlbaTypes::Text(_) => 6,
            AlbaTypes::NanoString(_) => 7,
            AlbaTypes::SmallString(_) => 8,
            AlbaTypes::MediumString(_) => 9,
            AlbaTypes::BigString(_) => 10,
            AlbaTypes::LargeString(_) => 11,
            AlbaTypes::NanoBytes(_) => 12,
            AlbaTypes::SmallBytes(_) => 13,
            AlbaTypes::MediumBytes(_) => 14,
            AlbaTypes::BigSBytes(_) => 15,
            AlbaTypes::LargeBytes(_) => 16,
        }
    }

    /// A copy of the value.
    pub fn duplicate(&self) -> (copy: AlbaTypes)
        ensures
            copy@ == self@,
    {
        match self {
            AlbaTypes::Text(s) => AlbaTypes::Text(s.clone()),
            AlbaTypes::Int(n) => AlbaTypes::Int(*n),
            AlbaTypes::Bigint(n) => AlbaTypes::Bigint(*n),
            AlbaTypes::Float(bits) => AlbaTypes::Float(*bits),
            AlbaTypes::Bool(b) => AlbaTypes::Bool(*b),
            AlbaTypes::Char(c) => AlbaTypes::Char(*c),
            AlbaTypes::NanoString(s) => AlbaTypes::NanoString(s.clone()),
            AlbaTypes::SmallString(s) => AlbaTypes::SmallString(s.clone()),
            AlbaTypes::MediumString(s) => AlbaTypes::MediumString(s.clone()),
            AlbaTypes::BigString(s) => AlbaTypes::BigString(s.clone()),
            AlbaTypes::LargeString(s) => AlbaTypes::LargeString(s.clone()),
            AlbaTypes::NanoBytes(b) => AlbaTypes::NanoBytes(copy_bytes(b)),
            AlbaTypes::SmallBytes(b) => AlbaTypes::SmallBytes(copy_bytes(b)),
            AlbaTypes::MediumBytes(b) => AlbaTypes::MediumBytes(copy_bytes(b)),
            AlbaTypes::BigSBytes(b) => AlbaTypes::BigSBytes(copy_bytes(b)),
            AlbaTypes::LargeBytes(b) => AlbaTypes::LargeBytes(copy_bytes(b)),
            AlbaTypes::NONE => AlbaTypes::NONE,
        }
    }

    /// Tests whether two values are equal.
    pub fn same_as(&self, other: &AlbaTypes) -> (same: bool)
        ensures
            same == self@.agrees(other@),
    {
        match (self, other) {
            (AlbaTypes::Text(a), AlbaTypes::Text(b)) => *a == *b,
            (AlbaTypes::Int(a), AlbaTypes::Int(b)) => *a == *b,
            (AlbaTypes::Bigint(a), AlbaTypes::Bigint(b)) => *a == *b,
            (AlbaTypes::Float(a), AlbaTypes::Float(b)) => float_bits_equal(*a, *b),
            (AlbaTypes::Bool(a), AlbaTypes::Bool(b)) => *a == *b,
            (AlbaTypes::Char(a), AlbaTypes::Char(b)) => *a == *b,
            (AlbaTypes::NanoString(a), AlbaTypes::NanoString(b)) => *a == *b,
            (AlbaTypes::SmallString(a), AlbaTypes::SmallString(b)) => *a == *b,
            (AlbaTypes::MediumString(a), AlbaTypes::MediumString(b)) => *a == *b,
            (AlbaTypes::BigString(a), AlbaTypes::BigString(b)) => *a == *b,
            (AlbaTypes::LargeString(a), AlbaTypes::LargeString(b)) => *a == *b,
            (AlbaTypes::NanoBytes(a), AlbaTypes::NanoBytes(b)) => same_bytes(a, b),
            (AlbaTypes::SmallBytes(a), AlbaTypes::SmallBytes(b)) => same_bytes(a, b),
            (AlbaTypes::MediumBytes(a), AlbaTypes::MediumBytes(b)) => same_bytes(a, b),
            (AlbaTypes::BigSBytes(a), AlbaTypes::BigSBytes(b)) => same_bytes(a, b),
            (AlbaTypes::LargeBytes(a), AlbaTypes::LargeBytes(b)) => same_bytes(a, b),
            (AlbaTypes::NONE, AlbaTypes::NONE) => true,
            _ => false,
        }
    }
}

} // verus!
