//! IP prefixes as plain values: an address, a version flag and a length.
//!
//! A prefix stores its address bits in the low 32 bits (v4) or all 128 bits
//! (v6) of `addr`. Only the leading `len` bits of the address space are
//! network bits; covering is decided on those alone.

use vstd::prelude::*;

verus! {

/// An IPv4 or IPv6 prefix.
#[derive(Debug, Clone, Copy, PartialEq, Eq, Structural, Hash)]
pub struct Prefix {
    /// True for an IPv6 prefix, false for IPv4.
    pub v6: bool,
    /// Address bits; an IPv4 address occupies the low 32 bits.
    pub addr: u128,
    /// Number of leading network bits.
    pub len: u8,
}

impl Prefix {
    /// Width in bits of the address space this prefix lives in.
    pub open spec fn spec_width(self) -> u8 {
        if self.v6 {
            128
        } else {
            32
        }
    }

    /// A prefix is well formed when its length fits the address space and,
    /// for IPv4, the address fits in 32 bits.
    pub open spec fn wf(self) -> bool {
        &&& self.len <= self.spec_width()
        &&& (!self.v6 ==> self.addr < 0x1_0000_0000)
    }

    /// The value of the leading `bits` network bits of `addr`, with the
    /// trailing host bits shifted away.
    pub open spec fn spec_net_value(addr: u128, width: u8, bits: u8) -> u128
        recommends
            bits <= width,
            width <= 128,
    {
        if bits == 0 {
            0
        } else {
            addr >> ((width - bits) as u128)
        }
    }

    /// Whether the first prefix covers the second: same address family, no
    /// longer than it, and agreeing on all of the first prefix's network bits.
    pub open spec fn spec_covers(cover: Prefix, covered: Prefix) -> bool {
        &&& cover.v6 == covered.v6
        &&& cover.len <= covered.len
        &&& Self::spec_net_value(cover.addr, cover.spec_width(), cover.len) == Self::spec_net_value(
            covered.addr,
            covered.spec_width(),
            cover.len,
        )
    }

    pub fn width(&self) -> (r: u8)
        ensures
            r == self.spec_width(),
    {
        if self.v6 {
            128
        } else {
            32
        }
    }

    /// An IPv4 prefix from its four address octets and a length.
    pub fn v4(a: u8, b: u8, c: u8, d: u8, len: u8) -> (r: Prefix)
        requires
            len <= 32,
        ensures
            r.wf(),
            !r.v6,
            r.len == len,
            r.addr == a * 0x100_0000 + b * 0x1_0000 + c * 0x100 + d,
    {
        let addr: u128 = (a as u128) * 0x100_0000 + (b as u128) * 0x1_0000 + (c as u128) * 0x100
            + (d as u128);
        Prefix { v6: false, addr, len }
    }

    /// An IPv6 prefix from its eight 16-bit segments and a length.
    pub fn v6(s0: u16, s1: u16, s2: u16, s3: u16, s4: u16, s5: u16, s6: u16, s7: u16, len: u8) -> (r:
        Prefix)
        requires
            len <= 128,
        ensures
            r.wf(),
            r.v6,
            r.len == len,
            r.addr == s0 * 0x1_0000_0000_0000_0000_0000_0000_0000 + s1
                * 0x1_0000_0000_0000_0000_0000_0000 + s2 * 0x1_0000_0000_0000_0000_0000 + s3
                * 0x1_0000_0000_0000_0000 + s4 * 0x1_0000_0000_0000 + s5 * 0x1_0000_0000 + s6
                * 0x1_0000 + s7,
    {
        let addr: u128 = (s0 as u128) * 0x1_0000_0000_0000_0000_0000_0000_0000 + (s1 as u128)
            * 0x1_0000_0000_0000_0000_0000_0000 + (s2 as u128) * 0x1_0000_0000_0000_0000_0000 + (
        s3 as u128) * 0x1_0000_0000_0000_0000 + (s4 as u128) * 0x1_0000_0000_0000 + (s5 as u128)
            * 0x1_0000_0000 + (s6 as u128) * 0x1_0000 + (s7 as u128);
        Prefix { v6: true, addr, len }
    }

    /// Whether this prefix covers the other.
    pub fn covers(&self, other: &Prefix) -> (r: bool)
        requires
            self.wf(),
            other.wf(),
        ensures
            r == Self::spec_covers(*self, *other),
    {
        if self.v6 != other.v6 {
            return false;
        }
        if self.len > other.len {
            return false;
        }
        let width = self.width();
        if self.len == 0 {
            true
        } else {
            let shift: u8 = width - self.len;
            (self.addr >> (shift as u128)) == (other.addr >> (shift as u128))
        }
    }
}

} // verus!
