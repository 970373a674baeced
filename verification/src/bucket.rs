//! The bucketing function: from a value to the key under which the index
//! holds it. Numbers go by their magnitude, texts and byte strings by a hash
//! of their content; 4096 neighbouring magnitudes share one key.

use crate::alba_types::{float_exponent, float_fraction, AlbaTypes, AlbaValue};
use crate::layout::KEY_SPAN;
use std::hash::{BuildHasher, BuildHasherDefault, DefaultHasher};
use vstd::prelude::*;

verus! {

/// The key of a magnitude.
pub open spec fn bucket(magnitude: u64) -> u64 {
    magnitude / KEY_SPAN
}

/// The magnitude of a number.
pub open spec fn magnitude(x: int) -> nat {
    if x < 0 {
        (-x) as nat
    } else {
        x as nat
    }
}

/// What of a magnitude the 64 bits of a key can hold: its value modulo 2^64.
pub open spec fn low_bits(m: nat) -> u64 {
    (m % 0x1_0000_0000_0000_0000) as u64
}

/// The hash of a text: what std's default hasher, in the state that
/// `DefaultHasher::default` gives it, returns after the text was fed to it.
pub uninterp spec fn text_hash(text: Seq<char>) -> u64;

/// The hash of a byte string: what std's default hasher, in the state that
/// `DefaultHasher::default` gives it, returns after the byte string was fed to
/// it.
pub uninterp spec fn bytes_hash(bytes: Seq<u8>) -> u64;

/// `BuildHasher::hash_one` of std, on a builder of default hashers and a
/// text. The hasher starts from a fixed state, so the result depends on the
/// characters of the text alone; which number it is, std does not say.
#[verifier::external_body]
fn hash_text(text: &String) -> (hash: u64)
    ensures
        hash == text_hash(text@),
{
    BuildHasherDefault::<DefaultHasher>::default().hash_one(text)
}

/// `BuildHasher::hash_one` of std, on a builder of default hashers and a
/// byte string. The hasher starts from a fixed state, so the result depends
/// on the bytes alone; which number it is, std does not say.
#[verifier::external_body]
fn hash_bytes(bytes: &Vec<u8>) -> (hash: u64)
    ensures
        hash == bytes_hash(bytes@),
{
    BuildHasherDefault::<DefaultHasher>::default().hash_one(bytes)
}

/// The whole part of the magnitude of a floating-point number, given by its
/// bits: 0 for a NaN and for a magnitude below 1, the largest `u64` for an
/// infinity and for a magnitude that no `u64` holds.
pub open spec fn float_magnitude(bits: u64) -> u64 {
    let e = float_exponent(bits);
    let m = (float_fraction(bits) + 0x10_0000_0000_0000) as u64;
    if e == 2047 {
        if float_fraction(bits) != 0 {
            0
        } else {
            u64::MAX
        }
    } else if e < 1023 {
        0
    } else if e <= 1075 {
        m >> ((1075 - e) as u64)
    } else if e < 1087 {
        m << ((e - 1075) as u64)
    } else {
        u64::MAX
    }
}

/// The key of a floating-point number, given by its bits.
pub fn float_index(bits: u64) -> (key: u64)
    ensures
        key == bucket(float_magnitude(bits)),
{
    let e: u64 = bits / 0x10_0000_0000_0000 % 2048;
    let fraction: u64 = bits % 0x10_0000_0000_0000;
    let m: u64 = fraction + 0x10_0000_0000_0000;
    let whole: u64 = if e == 2047 {
        if fraction != 0 {
            0
        } else {
            u64::MAX
        }
    } else if e < 1023 {
        0
    } else if e <= 1075 {
        m >> (1075 - e)
    } else if e < 1087 {
        m << (e - 1075)
    } else {
        u64::MAX
    };
    whole / KEY_SPAN
}

/// Values that the index can hold: each has a key.
pub trait GetIndex {
    /// The key of the value.
    spec fn index_key(&self) -> u64;

    /// Computes the key of the value.
    fn get_index(&self) -> (key: u64)
        ensures
            key == self.index_key(),
    ;
}

impl GetIndex for i32 {
    open spec fn index_key(&self) -> u64 {
        bucket(magnitude(*self as int) as u64)
    }

    fn get_index(&self) -> (key: u64) {
        let wide: i64 = *self as i64;
        let m: u64 = if wide < 0 {
            (-wide) as u64
        } else {
            wide as u64
        };
        m / KEY_SPAN
    }
}

impl GetIndex for i64 {
    open spec fn index_key(&self) -> u64 {
        bucket(magnitude(*self as int) as u64)
    }

    fn get_index(&self) -> (key: u64) {
        let wide: i128 = *self as i128;
        let m: u64 = if wide < 0 {
            (-wide) as u64
        } else {
            wide as u64
        };
        m / KEY_SPAN
    }
}

impl GetIndex for i16 {
    open spec fn index_key(&self) -> u64 {
        bucket(magnitude(*self as int) as u64)
    }

    fn get_index(&self) -> (key: u64) {
        let wide: i64 = *self as i64;
        let m: u64 = if wide < 0 {
            (-wide) as u64
        } else {
            wide as u64
        };
        m / KEY_SPAN
    }
}

impl GetIndex for i128 {
    open spec fn index_key(&self) -> u64 {
        bucket(low_bits(magnitude(*self as int)))
    }

    fn get_index(&self) -> (key: u64) {
        let m: u128 = if *self == i128::MIN {
            0x8000_0000_0000_0000_0000_0000_0000_0000u128
        } else if *self < 0 {
            (-*self) as u128
        } else {
            *self as u128
        };
        ((m % 0x1_0000_0000_0000_0000u128) as u64) / KEY_SPAN
    }
}

impl GetIndex for u128 {
    open spec fn index_key(&self) -> u64 {
        bucket(low_bits(*self as nat))
    }

    fn get_index(&self) -> (key: u64) {
        ((*self % 0x1_0000_0000_0000_0000u128) as u64) / KEY_SPAN
    }
}

impl GetIndex for u64 {
    open spec fn index_key(&self) -> u64 {
        bucket(*self)
    }

    fn get_index(&self) -> (key: u64) {
        *self / KEY_SPAN
    }
}

impl GetIndex for u32 {
    open spec fn index_key(&self) -> u64 {
        bucket(*self as u64)
    }

    fn get_index(&self) -> (key: u64) {
        *self as u64 / KEY_SPAN
    }
}

impl GetIndex for u16 {
    open spec fn index_key(&self) -> u64 {
        bucket(*self as u64)
    }

    fn get_index(&self) -> (key: u64) {
        *self as u64 / KEY_SPAN
    }
}

impl GetIndex for u8 {
    open spec fn index_key(&self) -> u64 {
        bucket(*self as u64)
    }

    fn get_index(&self) -> (key: u64) {
        *self as u64 / KEY_SPAN
    }
}

impl GetIndex for bool {
    open spec fn index_key(&self) -> u64 {
        if *self {
            1
        } else {
            0
        }
    }

    fn get_index(&self) -> (key: u64) {
        if *self {
            return 1;
        }
        0
    }
}

impl GetIndex for String {
    open spec fn index_key(&self) -> u64 {
        bucket(text_hash(self@))
    }

    fn get_index(&self) -> (key: u64) {
        hash_text(self) / KEY_SPAN
    }
}

/// The key of a typed value.
pub open spec fn value_key(v: AlbaValue) -> u64 {
    match v {
        AlbaValue::Text(s) => bucket(text_hash(s)),
        AlbaValue::Int(n) => bucket(magnitude(n as int) as u64),
        AlbaValue::Bigint(n) => bucket(magnitude(n as int) as u64),
        AlbaValue::Float(bits) => bucket(float_magnitude(bits)),
        AlbaValue::Bool(b) => if b {
            1
        } else {
            0
        },
        AlbaValue::Char(c) => bucket(c as u64),
        AlbaValue::NanoString(s) => bucket(text_hash(s)),
        AlbaValue::SmallString(s) => bucket(text_hash(s)),
        AlbaValue::MediumString(s) => bucket(text_hash(s)),
        AlbaValue::BigString(s) => bucket(text_hash(s)),
        AlbaValue::LargeString(s) => bucket(text_hash(s)),
        AlbaValue::NanoBytes(b) => bucket(bytes_hash(b)),
        AlbaValue::SmallBytes(b) => bucket(bytes_hash(b)),
        AlbaValue::MediumBytes(b) => bucket(bytes_hash(b)),
        AlbaValue::BigSBytes(b) => bucket(bytes_hash(b)),
        AlbaValue::LargeBytes(b) => bucket(bytes_hash(b)),
        AlbaValue::NONE => 0,
    }
}

impl GetIndex for AlbaTypes {
    open spec fn index_key(&self) -> u64 {
        value_key(self@)
    }

    fn get_index(&self) -> (key: u64) {
        match self {
            AlbaTypes::Text(s) => s.get_index(),
            AlbaTypes::Int(i) => i.get_index(),
            AlbaTypes::Bigint(i) => i.get_index(),
            AlbaTypes::Float(bits) => float_index(*bits),
            AlbaTypes::Bool(b) => b.get_index(),
            AlbaTypes::Char(c) => (*c as u64).get_index(),
            AlbaTypes::NanoString(s) => s.get_index(),
            AlbaTypes::SmallString(s) => s.get_index(),
            AlbaTypes::MediumString(s) => s.get_index(),
            AlbaTypes::BigString(s) => s.get_index(),
            AlbaTypes::LargeString(s) => s.get_index(),
            AlbaTypes::NanoBytes(bytes) => hash_bytes(bytes) / KEY_SPAN,
            AlbaTypes::SmallBytes(bytes) => hash_bytes(bytes) / KEY_SPAN,
            AlbaTypes::MediumBytes(bytes) => hash_bytes(bytes) / KEY_SPAN,
            AlbaTypes::BigSBytes(bytes) => hash_bytes(bytes) / KEY_SPAN,
            AlbaTypes::LargeBytes(bytes) => hash_bytes(bytes) / KEY_SPAN,
            AlbaTypes::NONE => 0,
        }
    }
}

} // verus!
