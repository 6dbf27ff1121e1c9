//! IPv4 address arithmetic: dotted-quad / integer conversion, prefix masks,
//! network and broadcast addresses.

use vstd::prelude::*;
use vstd::arithmetic::power2::*;
use vstd::arithmetic::div_mod::*;
use vstd::bits::*;

verus! {

/// An IPv4 address as four octets, most significant first.
#[derive(Clone, Copy, Debug, PartialEq, Eq)]
pub struct Address {
    pub o0: u8,
    pub o1: u8,
    pub o2: u8,
    pub o3: u8,
}

impl Address {
    /// The 32-bit value of the address, most significant octet first.
    pub open spec fn value(self) -> int {
        self.o0 * 0x100_0000 + self.o1 * 0x1_0000 + self.o2 * 0x100 + self.o3
    }
}

/// The address whose 32-bit value is `n` (octets are base-256 digits of `n`).
pub open spec fn addr_from(n: int) -> Address {
    Address {
        o0: ((n / 0x100_0000) % 0x100) as u8,
        o1: ((n / 0x1_0000) % 0x100) as u8,
        o2: ((n / 0x100) % 0x100) as u8,
        o3: (n % 0x100) as u8,
    }
}

/// Byte-order-preserving conversion of an address to its 32-bit value.
pub fn to_integer(a: Address) -> (r: u32)
    ensures
        r == a.value(),
{
    (a.o0 as u32) * 0x100_0000 + (a.o1 as u32) * 0x1_0000 + (a.o2 as u32) * 0x100 + (a.o3 as u32)
}

/// Inverse of `to_integer`: the dotted-quad form of a 32-bit value.
pub fn to_address(n: u32) -> (r: Address)
    ensures
        r == addr_from(n as int),
        r.value() == n,
{
    let r = Address {
        o0: (n / 0x100_0000) as u8,
        o1: ((n / 0x1_0000) % 0x100) as u8,
        o2: ((n / 0x100) % 0x100) as u8,
        o3: (n % 0x100) as u8,
    };
    proof {
        lemma_addr_from_value(n as int);
        assert((n / 0x100_0000) % 0x100 == n / 0x100_0000);
    }
    r
}

/// The dotted-quad form of a 32-bit value has that value.
pub proof fn lemma_addr_from_value(n: int)
    requires
        0 <= n < 0x1_0000_0000,
    ensures
        addr_from(n).value() == n,
{
}

/// Round-trip: converting an address to its 32-bit value and back yields
/// the same address.
pub proof fn lemma_address_round_trip(a: Address)
    ensures
        addr_from(a.value()) == a,
{
    let n = a.value();
    let x0 = a.o0 as int;
    let x1 = a.o1 as int;
    let x2 = a.o2 as int;
    let x3 = a.o3 as int;
    vstd::arithmetic::div_mod::lemma_fundamental_div_mod_converse(
        n,
        0x100,
        x0 * 0x1_0000 + x1 * 0x100 + x2,
        x3,
    );
    vstd::arithmetic::div_mod::lemma_fundamental_div_mod_converse(
        n,
        0x1_0000,
        x0 * 0x100 + x1,
        x2 * 0x100 + x3,
    );
    vstd::arithmetic::div_mod::lemma_fundamental_div_mod_converse(
        n,
        0x100_0000,
        x0,
        x1 * 0x1_0000 + x2 * 0x100 + x3,
    );
    vstd::arithmetic::div_mod::lemma_fundamental_div_mod_converse(
        x0 * 0x1_0000 + x1 * 0x100 + x2,
        0x100,
        x0 * 0x100 + x1,
        x2,
    );
    vstd::arithmetic::div_mod::lemma_fundamental_div_mod_converse(x0 * 0x100 + x1, 0x100, x0, x1);
    assert(addr_from(n).o0 == a.o0);
    assert(addr_from(n).o1 == a.o1);
    assert(addr_from(n).o2 == a.o2);
    assert(addr_from(n).o3 == a.o3);
}

/// The subnet mask for a prefix length: the top `p` of 32 bits set.
/// Prefix 0 is an explicit branch, since a shift by 32 bit positions on a
/// 32-bit operand is not defined.
pub open spec fn mask_spec(p: int) -> u32
    recommends
        0 <= p <= 32,
{
    if p == 0 {
        0u32
    } else {
        (!0u32) << ((32 - p) as u32)
    }
}

/// The number of addresses in a block with prefix length `p`.
pub open spec fn block_size(p: int) -> int
    recommends
        0 <= p <= 32,
{
    pow2((32 - p) as nat) as int
}

/// The network address of `ip` under prefix `p`: `ip` aligned down to a
/// multiple of the block size.
pub open spec fn spec_network(ip: int, p: int) -> int
    recommends
        0 <= ip < 0x1_0000_0000,
        0 <= p <= 32,
{
    ip - ip % block_size(p)
}

/// The broadcast address of the block that contains `ip` under prefix `p`:
/// the last address of that block.
pub open spec fn spec_broadcast(ip: int, p: int) -> int
    recommends
        0 <= ip < 0x1_0000_0000,
        0 <= p <= 32,
{
    spec_network(ip, p) + block_size(p) - 1
}

/// The mask as an integer: the block size subtracted from the whole
/// 32-bit space; its complement is the block size less one.
pub proof fn lemma_mask_value(p: int)
    requires
        0 <= p <= 32,
    ensures
        mask_spec(p) as int == 0x1_0000_0000 - block_size(p),
        (!mask_spec(p)) as int == block_size(p) - 1,
{
    lemma2_to64();
    if p == 0 {
        assert((!0u32) as int == 0xFFFF_FFFF) by (bit_vector);
    } else {
        let s = (32 - p) as u32;
        lemma_u32_pow2_no_overflow(s as nat);
        lemma_u32_shl_is_mul(1u32, s);
        assert(((!0u32) << s) as int == 0x1_0000_0000 - (1u32 << s)) by (bit_vector)
            requires
                s < 32,
        ;
        assert((!((!0u32) << s)) as int == (1u32 << s) - 1) by (bit_vector)
            requires
                s < 32,
        ;
    }
}

/// Bitwise AND with a prefix mask aligns an address down to its block
/// boundary: the result is the network address, a multiple of the block size.
pub proof fn lemma_network_align(x: u32, p: int)
    requires
        0 <= p <= 32,
    ensures
        (x & mask_spec(p)) as int == spec_network(x as int, p),
        spec_network(x as int, p) % block_size(p) == 0,
        0 <= spec_network(x as int, p) <= x,
{
    lemma2_to64();
    lemma_pow2_pos((32 - p) as nat);
    let d = block_size(p);
    if p == 0 {
        assert(x & 0u32 == 0u32) by (bit_vector);
        lemma_small_mod(x as nat, pow2(32));
    } else {
        let s = (32 - p) as u32;
        let m = mask_spec(p);
        lemma_mask_value(p);
        lemma_u32_pow2_no_overflow(s as nat);
        lemma_u32_low_bits_mask_is_mod(x, s as nat);
        assert((low_bits_mask(s as nat) as u32) == !m);
        assert((x & m) + (x & (!m)) == x) by (bit_vector);
        assert((x & m) as int == x as int - x as int % d);
    }
    lemma_fundamental_div_mod(x as int, d);
    lemma_mod_multiples_basic(x as int / d, d);
    assert((x as int / d) * d == d * (x as int / d)) by (nonlinear_arith);
    lemma_mod_bound(x as int, d);
}

/// Bitwise OR of an aligned network address with the complement of its mask
/// yields the last address of the block, and that address fits in 32 bits.
pub proof fn lemma_broadcast_or(n: u32, p: int)
    requires
        0 <= p <= 32,
        (n as int) % block_size(p) == 0,
    ensures
        (n | !mask_spec(p)) as int == n + block_size(p) - 1,
        n + block_size(p) - 1 < 0x1_0000_0000,
{
    lemma2_to64();
    lemma_pow2_pos((32 - p) as nat);
    lemma_mask_value(p);
    if p == 0 {
        lemma_small_mod(n as nat, pow2(32));
        assert(n == 0);
        assert(0u32 | !0u32 == !0u32) by (bit_vector);
        assert((!0u32) as int == 0xFFFF_FFFF) by (bit_vector);
    } else {
        let s = (32 - p) as u32;
        let q = !mask_spec(p);
        lemma_u32_pow2_no_overflow(s as nat);
        lemma_u32_low_bits_mask_is_mod(n, s as nat);
        assert((low_bits_mask(s as nat) as u32) == q);
        assert(n & q == 0);
        assert((n & q == 0u32) ==> ((n | q) == n + q)) by (bit_vector);
    }
}

/// The mask for prefix `p` has its `p` highest bits set and its `32 - p`
/// lowest bits clear: bit `i` (counting from the least significant) is one
/// exactly when `i >= 32 - p`.
pub proof fn lemma_mask_bit_structure(p: u32, i: u32)
    requires
        p <= 32,
        i < 32,
    ensures
        (mask_spec(p as int) >> i) & 1u32 == (if i >= 32 - p {
            1u32
        } else {
            0u32
        }),
{
    if p == 0 {
        assert((0u32 >> i) & 1u32 == 0u32) by (bit_vector);
    } else {
        let s: u32 = (32 - p) as u32;
        assert((((!0u32) << s) >> i) & 1u32 == (if i >= s {
            1u32
        } else {
            0u32
        })) by (bit_vector)
            requires
                s < 32,
                i < 32,
        ;
    }
}

/// The broadcast address of a block is never below its network address,
/// and equals it exactly for prefix 32 (a single-address block).
pub proof fn lemma_broadcast_network_order(ip: u32, p: u8)
    requires
        p <= 32,
    ensures
        spec_broadcast(ip as int, p as int) >= spec_network(ip as int, p as int),
        spec_broadcast(ip as int, p as int) == spec_network(ip as int, p as int) <==> p == 32,
{
    lemma_pow2_pos((32 - p) as nat);
    if p < 32 {
        lemma_pow2_strictly_increases(0, (32 - p) as nat);
    }
    assert(pow2(0) == 1) by {
        lemma2_to64();
    }
}

/// Computes the subnet mask for a prefix length.
pub fn mask_for_prefix(p: u8) -> (m: u32)
    requires
        p <= 32,
    ensures
        m == mask_spec(p as int),
{
    if p == 0 {
        0
    } else {
        (!0u32) << ((32 - p) as u32)
    }
}

/// The network address: bitwise AND of an address with its mask.
pub fn network_address(addr: u32, mask: u32) -> (r: u32)
    ensures
        r == (addr & mask),
{
    addr & mask
}

/// The broadcast address: bitwise OR of a network address with the
/// complement of its mask.
pub fn broadcast_address(network: u32, mask: u32) -> (r: u32)
    ensures
        r == (network | !mask),
{
    network | !mask
}

} // verus!
