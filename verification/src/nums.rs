//! Fixed-width numeric types of the chain model: 256-bit difficulty words,
//! 256-bit hashes and 160-bit account addresses, with their byte encodings.

use vstd::prelude::*;

verus! {

/// An unsigned 256-bit integer stored as four 64-bit limbs, least
/// significant limb first. Difficulties and storage values use it.
#[derive(Clone, Copy, PartialEq, Eq, Structural, Debug, Hash)]
pub struct W256 {
    pub l0: u64,
    pub l1: u64,
    pub l2: u64,
    pub l3: u64,
}

/// A 256-bit hash stored as four 64-bit big-endian chunks: `c0` holds the
/// first eight bytes of the hash, `c3` the last eight.
#[derive(Clone, Copy, PartialEq, Eq, Structural, Debug, Hash)]
pub struct B256 {
    pub c0: u64,
    pub c1: u64,
    pub c2: u64,
    pub c3: u64,
}

/// A 160-bit account address: `a0` holds the first eight bytes, `a1` the
/// next eight, `a2` the last four.
#[derive(Clone, Copy, PartialEq, Eq, Structural, Debug, Hash)]
pub struct AddressV {
    pub a0: u64,
    pub a1: u64,
    pub a2: u32,
}

pub open spec fn pow2_64() -> int {
    0x1_0000_0000_0000_0000
}

pub open spec fn pow2_128() -> int {
    pow2_64() * pow2_64()
}

pub open spec fn pow2_192() -> int {
    pow2_128() * pow2_64()
}

pub open spec fn pow2_256() -> int {
    pow2_128() * pow2_128()
}

impl W256 {
    /// The mathematical value of the word.
    pub open spec fn value(self) -> int {
        self.l0 + self.l1 * pow2_64() + self.l2 * pow2_128() + self.l3 * pow2_192()
    }

    pub fn zero() -> (r: W256)
        ensures
            r.value() == 0,
    {
        W256 { l0: 0, l1: 0, l2: 0, l3: 0 }
    }

    pub fn from_u64(x: u64) -> (r: W256)
        ensures
            r.value() == x,
    {
        W256 { l0: x, l1: 0, l2: 0, l3: 0 }
    }

    pub fn is_zero(&self) -> (r: bool)
        ensures
            r == (self.value() == 0),
    {
        proof {
            if self.l0 == 0 && self.l1 == 0 && self.l2 == 0 && self.l3 == 0 {
                assert(self.value() == 0);
            } else {
                assert(self.value() > 0) by (nonlinear_arith)
                    requires
                        self.l0 >= 0 && self.l1 >= 0 && self.l2 >= 0 && self.l3 >= 0,
                        self.l0 > 0 || self.l1 > 0 || self.l2 > 0 || self.l3 > 0,
                ;
            }
        }
        self.l0 == 0 && self.l1 == 0 && self.l2 == 0 && self.l3 == 0
    }

    /// Sum of two words, or `None` when the sum does not fit in 256 bits.
    pub fn checked_add(self, other: W256) -> (r: Option<W256>)
        ensures
            self.value() + other.value() < pow2_256() ==> (r matches Some(s) && s.value()
                == self.value() + other.value()),
            self.value() + other.value() >= pow2_256() ==> r is None,
    {
        let (d0, c0) = split_limb(self.l0 as u128 + other.l0 as u128);
        let (d1, c1) = split_limb(self.l1 as u128 + other.l1 as u128 + c0 as u128);
        let (d2, c2) = split_limb(self.l2 as u128 + other.l2 as u128 + c1 as u128);
        let (d3, c3) = split_limb(self.l3 as u128 + other.l3 as u128 + c2 as u128);
        proof {
            assert(self.value() + other.value() == d0 + d1 * pow2_64() + d2 * pow2_128() + d3
                * pow2_192() + c3 * pow2_256()) by (nonlinear_arith)
                requires
                    self.l0 + other.l0 == d0 + c0 * pow2_64(),
                    self.l1 + other.l1 + c0 == d1 + c1 * pow2_64(),
                    self.l2 + other.l2 + c1 == d2 + c2 * pow2_64(),
                    self.l3 + other.l3 + c2 == d3 + c3 * pow2_64(),
                    pow2_128() == pow2_64() * pow2_64(),
                    pow2_192() == pow2_128() * pow2_64(),
                    pow2_256() == pow2_128() * pow2_128(),
                    self.value() == self.l0 + self.l1 * pow2_64() + self.l2 * pow2_128() + self.l3
                        * pow2_192(),
                    other.value() == other.l0 + other.l1 * pow2_64() + other.l2 * pow2_128()
                        + other.l3 * pow2_192(),
            ;
            assert(d0 + d1 * pow2_64() + d2 * pow2_128() + d3 * pow2_192() < pow2_256())
                by (nonlinear_arith)
                requires
                    0 <= d0 < pow2_64(),
                    0 <= d1 < pow2_64(),
                    0 <= d2 < pow2_64(),
                    0 <= d3 < pow2_64(),
                    pow2_128() == pow2_64() * pow2_64(),
                    pow2_192() == pow2_128() * pow2_64(),
                    pow2_256() == pow2_128() * pow2_128(),
            ;
        }
        if c3 == 0 {
            Some(W256 { l0: d0, l1: d1, l2: d2, l3: d3 })
        } else {
            proof {
                assert(c3 * pow2_256() >= pow2_256()) by (nonlinear_arith)
                    requires
                        c3 >= 1,
                ;
            }
            None
        }
    }
}

/// Splits a limb sum into its low 64 bits and its carry.
fn split_limb(s: u128) -> (r: (u64, u64))
    requires
        s < 3 * pow2_64(),
    ensures
        s == r.0 + r.1 * pow2_64(),
        r.1 <= 2,
{
    let base: u128 = 0x1_0000_0000_0000_0000;
    let lo: u128 = s % base;
    let hi: u128 = s / base;
    proof {
        assert(s == base * (s / base) + s % base) by {
            vstd::arithmetic::div_mod::lemma_fundamental_div_mod(s as int, base as int);
        }
        assert(0 <= s % base < base) by {
            vstd::arithmetic::div_mod::lemma_mod_bound(s as int, base as int);
        }
        assert(s / base <= 2) by (nonlinear_arith)
            requires
                s < 3 * base,
                base > 0,
        ;
    }
    (lo as u64, hi as u64)
}

impl B256 {
    pub fn zero() -> (r: B256)
        ensures
            r == (B256 { c0: 0, c1: 0, c2: 0, c3: 0 }),
    {
        B256 { c0: 0, c1: 0, c2: 0, c3: 0 }
    }
}

/// The hash whose chunks spell the big-endian bytes of a 256-bit word: the
/// storage tables key slots by the byte image of the slot's numeric key.
pub open spec fn b256_of_w256(w: W256) -> B256 {
    B256 { c0: w.l3, c1: w.l2, c2: w.l1, c3: w.l0 }
}

pub fn w256_to_b256(w: W256) -> (r: B256)
    ensures
        r == b256_of_w256(w),
{
    B256 { c0: w.l3, c1: w.l2, c2: w.l1, c3: w.l0 }
}

/// Big-endian byte sequence of a 64-bit integer.
pub open spec fn u64_be(x: u64) -> Seq<u8> {
    seq![
        ((x / 0x100_0000_0000_0000) % 0x100) as u8,
        ((x / 0x1_0000_0000_0000) % 0x100) as u8,
        ((x / 0x100_0000_0000) % 0x100) as u8,
        ((x / 0x1_0000_0000) % 0x100) as u8,
        ((x / 0x100_0000) % 0x100) as u8,
        ((x / 0x1_0000) % 0x100) as u8,
        ((x / 0x100) % 0x100) as u8,
        (x % 0x100) as u8,
    ]
}

/// Big-endian byte sequence of a hash.
pub open spec fn b256_be(b: B256) -> Seq<u8> {
    u64_be(b.c0) + u64_be(b.c1) + u64_be(b.c2) + u64_be(b.c3)
}

/// Big-endian byte sequence of a 256-bit word.
pub open spec fn w256_be(w: W256) -> Seq<u8> {
    u64_be(w.l3) + u64_be(w.l2) + u64_be(w.l1) + u64_be(w.l0)
}

pub fn push_u64_be(out: &mut Vec<u8>, x: u64)
    ensures
        final(out)@ == old(out)@ + u64_be(x),
{
    out.push(((x / 0x100_0000_0000_0000) % 0x100) as u8);
    out.push(((x / 0x1_0000_0000_0000) % 0x100) as u8);
    out.push(((x / 0x100_0000_0000) % 0x100) as u8);
    out.push(((x / 0x1_0000_0000) % 0x100) as u8);
    out.push(((x / 0x100_0000) % 0x100) as u8);
    out.push(((x / 0x1_0000) % 0x100) as u8);
    out.push(((x / 0x100) % 0x100) as u8);
    out.push((x % 0x100) as u8);
    proof {
        assert(final(out)@ =~= old(out)@ + u64_be(x));
    }
}

pub fn push_b256_be(out: &mut Vec<u8>, b: &B256)
    ensures
        final(out)@ == old(out)@ + b256_be(*b),
{
    push_u64_be(out, b.c0);
    push_u64_be(out, b.c1);
    push_u64_be(out, b.c2);
    push_u64_be(out, b.c3);
    proof {
        assert(final(out)@ =~= old(out)@ + b256_be(*b));
    }
}

pub fn push_w256_be(out: &mut Vec<u8>, w: &W256)
    ensures
        final(out)@ == old(out)@ + w256_be(*w),
{
    push_u64_be(out, w.l3);
    push_u64_be(out, w.l2);
    push_u64_be(out, w.l1);
    push_u64_be(out, w.l0);
    proof {
        assert(final(out)@ =~= old(out)@ + w256_be(*w));
    }
}

} // verus!
