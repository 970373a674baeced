//! The on-disk format of the index: sizes, big-endian numbers, entry slots and
//! metadata records.

use vstd::prelude::*;

verus! {

/// Number of entry slots in one chunk of the index file.
pub const CHUNK_SLOTS: usize = 4096;

/// Bytes of one entry slot: a key and an offset, eight bytes each.
pub const SLOT_BYTES: usize = 16;

/// Bytes of one chunk of the index file.
pub const CHUNK_BYTES: usize = 65536;

/// Bytes of one record of the metadata file.
pub const META_BYTES: usize = 18;

/// Divisor of the bucketing function, and number of keys in the range that a
/// fresh chunk accepts.
pub const KEY_SPAN: u64 = 4096;

/// The number whose big-endian digits are the bytes of `b`.
pub open spec fn be_nat(b: Seq<u8>) -> nat
    decreases b.len(),
{
    if b.len() == 0 {
        0
    } else {
        be_nat(b.drop_last()) * 256 + b.last() as nat
    }
}

/// The last `n` big-endian digits of `x`.
pub open spec fn nat_be(x: nat, n: nat) -> Seq<u8>
    decreases n,
{
    if n == 0 {
        Seq::empty()
    } else {
        nat_be(x / 256, (n - 1) as nat).push((x % 256) as u8)
    }
}

/// 256 to the power `n`.
pub open spec fn radix(n: nat) -> nat
    decreases n,
{
    if n == 0 {
        1
    } else {
        256 * radix((n - 1) as nat)
    }
}

/// `n` digits are written for any number, and they give back what of it fits
/// in `n` digits.
pub proof fn lemma_nat_be(x: nat, n: nat)
    ensures
        nat_be(x, n).len() == n,
        be_nat(nat_be(x, n)) == x % radix(n),
    decreases n,
{
    if n > 0 {
        lemma_nat_be(x / 256, (n - 1) as nat);
        let head = nat_be(x / 256, (n - 1) as nat);
        assert(nat_be(x, n).drop_last() =~= head);
        let r = radix((n - 1) as nat);
        lemma_radix_positive((n - 1) as nat);
        vstd::arithmetic::div_mod::lemma_mod_breakdown(x as int, 256, r as int);
    }
}

/// A power of 256 is positive.
pub proof fn lemma_radix_positive(n: nat)
    ensures
        radix(n) > 0,
    decreases n,
{
    if n > 0 {
        lemma_radix_positive((n - 1) as nat);
    }
}

/// The digits of a byte string name a number below the power of its length,
/// and writing that number gives the bytes back.
pub proof fn lemma_be_nat(b: Seq<u8>)
    ensures
        be_nat(b) < radix(b.len()),
        nat_be(be_nat(b), b.len()) == b,
    decreases b.len(),
{
    if b.len() > 0 {
        lemma_be_nat(b.drop_last());
        let v = be_nat(b);
        assert(v / 256 == be_nat(b.drop_last()));
        assert(v % 256 == b.last() as nat);
        assert(nat_be(v, b.len()) =~= b);
    }
}

/// The eight bytes of `x`, most significant first.
pub open spec fn u64_be(x: u64) -> Seq<u8> {
    nat_be(x as nat, 8)
}

/// The number whose big-endian digits are the first eight bytes of `b`.
pub open spec fn be_u64(b: Seq<u8>) -> u64
    recommends
        b.len() >= 8,
{
    be_nat(b.take(8)) as u64
}

/// The two bytes of `x`, most significant first.
pub open spec fn u16_be(x: u16) -> Seq<u8> {
    nat_be(x as nat, 2)
}

/// The number whose big-endian digits are the first two bytes of `b`.
pub open spec fn be_u16(b: Seq<u8>) -> u16
    recommends
        b.len() >= 2,
{
    be_nat(b.take(2)) as u16
}

/// Eight digits hold exactly the 64-bit numbers, two digits the 16-bit ones.
pub proof fn lemma_radix_values()
    ensures
        radix(2) == 0x1_0000,
        radix(8) == 0x1_0000_0000_0000_0000,
{
    reveal_with_fuel(radix, 9);
}

/// Decoding undoes encoding, and encoding undoes decoding of eight bytes.
pub proof fn lemma_u64_be_roundtrip(x: u64, b: Seq<u8>)
    ensures
        u64_be(x).len() == 8,
        be_u64(u64_be(x)) == x,
        b.len() == 8 ==> u64_be(be_u64(b)) == b,
{
    lemma_radix_values();
    lemma_nat_be(x as nat, 8);
    assert(u64_be(x).take(8) =~= u64_be(x));
    if b.len() == 8 {
        lemma_be_nat(b);
        assert(b.take(8) =~= b);
    }
}

/// Decoding undoes encoding, and encoding undoes decoding of two bytes.
pub proof fn lemma_u16_be_roundtrip(x: u16, b: Seq<u8>)
    ensures
        u16_be(x).len() == 2,
        be_u16(u16_be(x)) == x,
        b.len() == 2 ==> u16_be(be_u16(b)) == b,
{
    lemma_radix_values();
    lemma_nat_be(x as nat, 2);
    assert(u16_be(x).take(2) =~= u16_be(x));
    if b.len() == 2 {
        lemma_be_nat(b);
        assert(b.take(2) =~= b);
    }
}

/// Appends the last `n` big-endian digits of `x` to `out`.
fn put_digits(out: &mut Vec<u8>, x: u64, n: usize)
    ensures
        final(out)@ == old(out)@ + nat_be(x as nat, n as nat),
    decreases n,
{
    if n == 0 {
        assert(out@ =~= old(out)@ + nat_be(x as nat, 0));
    } else {
        put_digits(out, x / 256, n - 1);
        out.push((x % 256) as u8);
        assert(out@ =~= old(out)@ + nat_be(x as nat, n as nat));
    }
}

/// Appends the big-endian bytes of `x` to `out`.
pub fn put_u64(out: &mut Vec<u8>, x: u64)
    ensures
        final(out)@ == old(out)@ + u64_be(x),
{
    put_digits(out, x, 8);
}

/// Appends the big-endian bytes of `x` to `out`.
pub fn put_u16(out: &mut Vec<u8>, x: u16)
    ensures
        final(out)@ == old(out)@ + u16_be(x),
{
    put_digits(out, x as u64, 2);
}

/// Reads the big-endian number in the eight bytes of `bytes` that start at `at`.
pub fn get_u64(bytes: &Vec<u8>, at: usize) -> (x: u64)
    requires
        at + 8 <= bytes.len(),
    ensures
        x == be_u64(bytes@.subrange(at as int, at + 8)),
{
    let ghost b = bytes@.subrange(at as int, at + 8);
    let mut x: u64 = 0;
    let mut i: usize = 0;
    while i < 8
        invariant
            i <= 8,
            at + 8 <= bytes.len(),
            b == bytes@.subrange(at as int, at + 8),
            x == be_nat(b.take(i as int)),
            x < radix(i as nat),
        decreases 8 - i,
    {
        proof {
            lemma_radix_values();
            lemma_be_nat(b.take(i + 1));
            assert(b.take(i + 1).drop_last() =~= b.take(i as int));
            lemma_radix_le((i + 1) as nat, 8);
        }
        x = x * 256 + bytes[at + i] as u64;
        i = i + 1;
    }
    assert(b.take(8) =~= b);
    x
}

/// Reads the big-endian number in the two bytes of `bytes` that start at `at`.
pub fn get_u16(bytes: &Vec<u8>, at: usize) -> (x: u16)
    requires
        at + 2 <= bytes.len(),
    ensures
        x == be_u16(bytes@.subrange(at as int, at + 2)),
{
    let ghost b = bytes@.subrange(at as int, at + 2);
    proof {
        reveal_with_fuel(be_nat, 3);
        assert(b.take(2) =~= b);
        assert(b.drop_last().drop_last() =~= Seq::<u8>::empty());
    }
    let x: u16 = bytes[at] as u16 * 256 + bytes[at + 1] as u16;
    x
}

/// Powers of 256 grow with the exponent.
pub proof fn lemma_radix_le(m: nat, n: nat)
    requires
        m <= n,
    ensures
        radix(m) <= radix(n),
    decreases n,
{
    if m < n {
        lemma_radix_le(m, (n - 1) as nat);
        lemma_radix_positive((n - 1) as nat);
    }
}

} // verus!
