//! A 64-bit bloom filter: each item sets the bits of its 64-bit digest.
use vstd::prelude::*;

use vstd::arithmetic::power2::pow2;

use bit_vec::BitVec;

use crate::hashing::digest;
use crate::hashing::digest_of;

verus! {

#[verifier::external_type_specification]
#[verifier::external_body]
#[verifier::reject_recursive_types(B)]
pub struct ExBitVec<B>(BitVec<B>);

/// The bits held by a bit vector, in order.
pub uninterp spec fn bits_of(b: BitVec) -> Seq<bool>;

/// Bit `k` of `b`, counting from the least significant.
pub open spec fn byte_bit(b: u8, k: nat) -> bool {
    (b as nat / pow2(k)) % 2 == 1
}

/// The bits of `bytes`: eight per byte, most significant first.
pub open spec fn byte_bits(bytes: Seq<u8>) -> Seq<bool> {
    Seq::new(8 * bytes.len(), |i: int| byte_bit(bytes[i / 8], (7 - i % 8) as nat))
}

/// The last `n` base-256 digits of `x`, most significant first.
pub open spec fn be_digits(x: nat, n: nat) -> Seq<u8>
    decreases n,
{
    if n == 0 {
        Seq::empty()
    } else {
        be_digits(x / 256, (n - 1) as nat).push((x % 256) as u8)
    }
}

/// The bits that the item `value` sets: its digest's eight big-endian bytes.
pub open spec fn item_bits(value: u64) -> Seq<bool> {
    byte_bits(be_digits(digest_of(seq![value]) as nat, 8))
}

/// Relies on `BitVec::from_elem`: `len` bits, each equal to `bit`.
#[verifier::external_body]
fn bits_filled(len: usize, bit: bool) -> (r: BitVec)
    ensures
        bits_of(r) == Seq::new(len as nat, |_i: int| bit),
{
    BitVec::from_elem(len, bit)
}

/// Relies on `BitVec::from_bytes`: eight bits per byte, most significant
/// first; it panics when the bit count overflows `usize`.
#[verifier::external_body]
fn bits_from_bytes(bytes: &[u8]) -> (r: BitVec)
    requires
        8 * bytes@.len() <= usize::MAX,
    ensures
        bits_of(r) == byte_bits(bytes@),
{
    BitVec::from_bytes(bytes)
}

/// Relies on `BitVec::or`: each bit of `a` becomes the or of the two bits,
/// and the result says whether any bit of `a` changed; it panics when the
/// lengths differ.
#[verifier::external_body]
fn bits_or(a: &mut BitVec, b: &BitVec) -> (changed: bool)
    requires
        bits_of(*old(a)).len() == bits_of(*b).len(),
    ensures
        bits_of(*final(a)) == Seq::new(bits_of(*old(a)).len(), |i: int| bits_of(*old(a))[i] || bits_of(*b)[i]),
        changed == (bits_of(*final(a)) != bits_of(*old(a))),
{
    a.or(b)
}

/// Relies on `Clone for BitVec`: the copy holds the same bits.
#[verifier::external_body]
fn bits_copy(b: &BitVec) -> (r: BitVec)
    ensures
        bits_of(r) == bits_of(*b),
{
    b.clone()
}

/// The last `n` base-256 digits of `x`, most significant first.
fn to_be_digits(x: u64, n: usize) -> (r: Vec<u8>)
    ensures
        r@ == be_digits(x as nat, n as nat),
    decreases n,
{
    if n == 0 {
        Vec::new()
    } else {
        let mut r = to_be_digits(x / 256, n - 1);
        r.push((x % 256) as u8);
        r
    }
}

/// The bit vector of the item `value`.
fn item_mask(value: u64) -> (r: BitVec)
    ensures
        bits_of(r) == item_bits(value),
{
    let words: Vec<u64> = vec![value];
    let h = digest(words.as_slice());
    assert(words@ =~= seq![value]);
    assert(h == digest_of(seq![value]));
    let bytes = to_be_digits(h, 8);
    assert(be_digits(h as nat, 8).len() == 8) by {
        reveal_with_fuel(be_digits, 9);
    }
    let slice = bytes.as_slice();
    assert(slice@ == bytes@);
    bits_from_bytes(slice)
}

/// A bloom filter of 64 bits.
pub struct BloomFilter {
    bits: BitVec,
}

impl View for BloomFilter {
    type V = Seq<bool>;

    closed spec fn view(&self) -> Seq<bool> {
        bits_of(self.bits)
    }
}

impl BloomFilter {
    /// The filter holds 64 bits.
    pub closed spec fn wf(&self) -> bool {
        bits_of(self.bits).len() == 64
    }

    /// An empty filter: all 64 bits clear.
    pub fn new() -> (r: Self)
        ensures
            r.wf(),
            r@ == Seq::new(64, |_i: int| false),
    {
        BloomFilter { bits: bits_filled(64, false) }
    }

    /// Records `elm`: sets every bit of its digest.
    pub fn add(&mut self, elm: &u64)
        requires
            old(self).wf(),
        ensures
            final(self).wf(),
            final(self)@ == Seq::new(64, |i: int| old(self)@[i] || item_bits(*elm)[i]),
    {
        let mask = item_mask(*elm);
        reveal_with_fuel(be_digits, 9);
        bits_or(&mut self.bits, &mask);
    }

    /// Whether `elm` may have been recorded: every bit of its digest is set.
    pub fn check(&self, elm: &u64) -> (r: bool)
        requires
            self.wf(),
        ensures
            r == (forall|i: int| 0 <= i < 64 && #[trigger] item_bits(*elm)[i] ==> self@[i]),
    {
        let mask = item_mask(*elm);
        reveal_with_fuel(be_digits, 9);
        let mut res = bits_copy(&self.bits);
        let changed = bits_or(&mut res, &mask);
        proof {
            let before = bits_of(self.bits);
            let after = bits_of(res);
            if forall|i: int| 0 <= i < 64 && #[trigger] item_bits(*elm)[i] ==> before[i] {
                assert(after =~= before);
            } else {
                let i = choose|i: int| 0 <= i < 64 && #[trigger] item_bits(*elm)[i] && !before[i];
                assert(after[i] != before[i]);
            }
        }
        !changed
    }
}

} // verus!
