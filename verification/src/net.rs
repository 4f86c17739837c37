//! Network addresses and ranges of them.

use vstd::arithmetic::power2::pow2;
use vstd::prelude::*;

verus! {

/// The address of a client: a number of 32 bits, or of 128.
#[derive(Clone, Copy, Debug, PartialEq, Eq, Structural)]
pub struct Address {
    pub v6: bool,
    pub bits: u128,
}

/// The addresses that share their first bits with `addr`.
#[derive(Clone, Copy, Debug, PartialEq, Eq, Structural)]
pub struct Cidr {
    pub v6: bool,
    pub addr: u128,
    pub prefix_len: u8,
}

/// How many bits an address has.
pub open spec fn width(v6: bool) -> nat {
    if v6 {
        128
    } else {
        32
    }
}

impl Cidr {
    pub open spec fn wf(self) -> bool {
        self.prefix_len <= width(self.v6) && (!self.v6 ==> self.addr <= u32::MAX)
    }

    /// Both are of one kind, and their first bits agree.
    pub open spec fn covers(self, ip: Address) -> bool {
        let rest = pow2((width(self.v6) - self.prefix_len) as nat) as int;
        self.v6 == ip.v6 && self.addr as int / rest == ip.bits as int / rest
    }

    pub fn contains(&self, ip: Address) -> (r: bool)
        requires
            self.wf(),
            !ip.v6 ==> ip.bits <= u32::MAX,
        ensures
            r == self.covers(ip),
    {
        if self.v6 != ip.v6 {
            return false;
        }
        let bits: u8 = if self.v6 {
            128
        } else {
            32
        };
        let shift: u32 = (bits - self.prefix_len) as u32;
        if shift == 128 {
            proof {
                vstd::arithmetic::power2::lemma_pow2_adds(64, 64);
                vstd::arithmetic::power2::lemma2_to64();
                assert(pow2(128) == 0x1_0000_0000_0000_0000 * 0x1_0000_0000_0000_0000);
            }
            return true;
        }
        let shift: u128 = shift as u128;
        proof {
            vstd::bits::lemma_u128_shr_is_div(self.addr, shift);
            vstd::bits::lemma_u128_shr_is_div(ip.bits, shift);
        }
        (self.addr >> shift) == (ip.bits >> shift)
    }
}

/// What a text says as a range of addresses, such as `10.0.0.0/8`: whether its
/// addresses have 128 bits, the address, and how many bits are shared.
pub uninterp spec fn parsed_net(s: Seq<char>) -> Option<(bool, u128, u8)>;

/// The parts of a range, if there is one.
pub open spec fn parts_of(c: Option<Cidr>) -> Option<(bool, u128, u8)> {
    match c {
        None => None,
        Some(c) => Some((c.v6, c.addr, c.prefix_len)),
    }
}

/// A range, if there is one, has no more shared bits than its addresses have bits.
pub open spec fn shares_fit(c: Option<Cidr>) -> bool {
    c matches Some(c) ==> c.wf()
}

/// Reads a range of addresses with `ipnet::IpNet::from_str`. Its result has a
/// name. The range has no more shared bits than its addresses have bits.
#[verifier::external_body]
pub(crate) fn parse_net(s: &str) -> (r: Option<Cidr>)
    ensures
        parts_of(r) == parsed_net(s@),
        shares_fit(r),
{
    match s.parse::<ipnet::IpNet>() {
        Ok(ipnet::IpNet::V4(n)) => Some(
            Cidr { v6: false, addr: u32::from(n.addr()) as u128, prefix_len: n.prefix_len() },
        ),
        Ok(ipnet::IpNet::V6(n)) => Some(Cidr { v6: true, addr: u128::from(n.addr()), prefix_len: n.prefix_len() }),
        Err(_) => None,
    }
}

/// A range covers its own address. One that fixes no bit covers all addresses of its
/// kind, one that fixes all bits no other; and none covers an address of the other kind.
pub proof fn law_ranges_cover_their_addresses(c: Cidr, ip: Address)
    requires
        c.wf(),
        !ip.v6 ==> ip.bits <= u32::MAX,
    ensures
        c.covers(Address { v6: c.v6, bits: c.addr }),
        c.v6 != ip.v6 ==> !c.covers(ip),
        c.prefix_len == 0 && c.v6 == ip.v6 ==> c.covers(ip),
        c.prefix_len == (if c.v6 {
            128int
        } else {
            32int
        }) && c.v6 == ip.v6 ==> (c.covers(ip) <==> c.addr == ip.bits),
{
    vstd::arithmetic::power2::lemma2_to64();
    vstd::arithmetic::power2::lemma_pow2_adds(64, 64);
    assert(pow2(128) == 0x1_0000_0000_0000_0000_0000_0000_0000_0000) by {
        assert(pow2(64) * pow2(64) == 0x1_0000_0000_0000_0000 * 0x1_0000_0000_0000_0000);
    }
    if c.prefix_len == 0 && c.v6 == ip.v6 {
        let rest = pow2(width(c.v6)) as int;
        vstd::arithmetic::div_mod::lemma_basic_div(c.addr as int, rest);
        vstd::arithmetic::div_mod::lemma_basic_div(ip.bits as int, rest);
    }
    assert(pow2(0) == 1);
    assert(c.addr as int / 1 == c.addr && ip.bits as int / 1 == ip.bits);
}

/// The more bits a range fixes, the fewer addresses it covers.
pub proof fn law_longer_prefixes_cover_less(c: Cidr, wider: Cidr, ip: Address)
    requires
        c.wf(),
        wider.v6 == c.v6 && wider.addr == c.addr && wider.prefix_len <= c.prefix_len,
        c.covers(ip),
    ensures
        wider.covers(ip),
{
    let a = (width(c.v6) - c.prefix_len) as nat;
    let b = (c.prefix_len - wider.prefix_len) as nat;
    vstd::arithmetic::power2::lemma_pow2_adds(a, b);
    vstd::arithmetic::power2::lemma_pow2_pos(a);
    vstd::arithmetic::power2::lemma_pow2_pos(b);
    vstd::arithmetic::div_mod::lemma_div_denominator(c.addr as int, pow2(a) as int, pow2(b) as int);
    vstd::arithmetic::div_mod::lemma_div_denominator(ip.bits as int, pow2(a) as int, pow2(b) as int);
    assert(a + b == width(c.v6) - wider.prefix_len);
}

} // verus!
