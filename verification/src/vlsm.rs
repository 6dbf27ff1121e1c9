//! VLSM allocation: sizing blocks for host-count demands, ordering demands,
//! and packing sub-networks into a base network.

use vstd::prelude::*;
use vstd::arithmetic::power2::*;
use vstd::arithmetic::div_mod::{lemma_mod_bound, lemma_small_mod};
use crate::addr::{Address, addr_from, block_size, mask_spec, spec_network, spec_broadcast,
    to_integer, to_address, mask_for_prefix, network_address, broadcast_address,
    lemma_addr_from_value, lemma_network_align, lemma_broadcast_or};

verus! {

/// The ceiling of the base-2 logarithm: the smallest `b` with `2^b >= n`
/// (0 for `n <= 1`).
pub open spec fn clog2(n: nat) -> nat
    decreases n,
{
    if n <= 1 {
        0
    } else {
        1 + clog2((n + 1) / 2)
    }
}

/// `clog2(n)` is an upper base-2 logarithm of `n`, and a tight one:
/// `2^clog2(n) >= n`, while for `n > 1` the next smaller power falls short.
pub proof fn lemma_clog2_bounds(n: nat)
    requires
        n >= 1,
    ensures
        pow2(clog2(n)) >= n,
        n > 1 ==> pow2((clog2(n) - 1) as nat) < n,
    decreases n,
{
    lemma2_to64();
    if n > 1 {
        let m = (n + 1) / 2;
        assert(1 <= m < n);
        lemma_clog2_bounds(m);
        let c = clog2(m);
        assert(clog2(n) == c + 1);
        lemma_pow2_unfold((c + 1) as nat);
        assert(pow2((c + 1) as nat) == 2 * pow2(c));
        assert(2 * m >= n);
        assert(pow2((c + 1) as nat) >= n);
        if m == 1 {
            assert(pow2(0) == 1);
            assert(pow2(c) < n);
        } else {
            assert(pow2((c - 1) as nat) < m);
            lemma_pow2_unfold(c);
            assert(pow2(c) == 2 * pow2((c - 1) as nat));
            assert(pow2(c) < 2 * m);
            if 2 * m == n + 1 {
                // n is odd here, while any power of two above 1 is even.
                if pow2(c) == n {
                    assert(c >= 1);
                    assert(n % 2 == 0);
                    assert(n == 2 * m - 1);
                    assert(false);
                }
            }
            assert(pow2(c) < n);
        }
    }
}

/// `clog2(n)` is the only exponent that is both high enough and tight.
pub proof fn lemma_clog2_unique(n: nat, b: nat)
    requires
        n >= 1,
        pow2(b) >= n,
        b == 0 || pow2((b - 1) as nat) < n,
    ensures
        clog2(n) == b,
{
    lemma_clog2_bounds(n);
    let c = clog2(n);
    if c < b {
        if c < b - 1 {
            lemma_pow2_strictly_increases(c, (b - 1) as nat);
        }
        assert(pow2(c) <= pow2((b - 1) as nat));
        assert(false);
    } else if b < c {
        assert(n > 1);
        if b < c - 1 {
            lemma_pow2_strictly_increases(b, (c - 1) as nat);
        }
        assert(pow2(b) <= pow2((c - 1) as nat));
        assert(false);
    }
}

/// `clog2` is monotone.
pub proof fn lemma_clog2_mono(a: nat, b: nat)
    requires
        1 <= a <= b,
    ensures
        clog2(a) <= clog2(b),
{
    lemma_clog2_bounds(a);
    lemma_clog2_bounds(b);
    if clog2(b) < clog2(a) {
        assert(a > 1);
        if clog2(b) < clog2(a) - 1 {
            lemma_pow2_strictly_increases(clog2(b), (clog2(a) - 1) as nat);
        }
        assert(pow2(clog2(b)) <= pow2((clog2(a) - 1) as nat));
        assert(false);
    }
}

/// The prefix length of the smallest block that holds `h` usable hosts plus
/// the network and broadcast addresses; -1 when not even the whole 32-bit
/// space suffices.
pub open spec fn required_prefix_spec(h: int) -> int
    recommends
        h >= 1,
{
    32 - clog2((h + 2) as nat)
}

/// Computes the minimal prefix length for a demand of `host_count` usable
/// hosts. A demand so large that no prefix suffices yields -1, which every
/// caller's base prefix exceeds.
pub fn required_prefix(host_count: u32) -> (r: i8)
    requires
        host_count >= 1,
    ensures
        r as int == required_prefix_spec(host_count as int),
        -1 <= r <= 30,
{
    let needed: u64 = host_count as u64 + 2;
    let mut bits: u8 = 0;
    let mut cap: u64 = 1;
    proof {
        lemma2_to64();
    }
    while cap < needed
        invariant
            3 <= needed <= 0x1_0000_0001,
            cap as nat == pow2(bits as nat),
            bits == 0 || pow2((bits - 1) as nat) < needed,
            bits <= 33,
        decreases 34 - bits,
    {
        proof {
            lemma2_to64();
            lemma2_to64_rest();
            assert(bits < 33) by {
                if bits == 33 {
                    assert(cap as nat == pow2(33));
                }
            }
            lemma_pow2_unfold((bits + 1) as nat);
            assert(pow2((bits + 1) as nat) <= pow2(34)) by {
                if bits + 1 < 34 {
                    lemma_pow2_strictly_increases((bits + 1) as nat, 34);
                }
            }
        }
        cap = cap * 2;
        bits = bits + 1;
    }
    proof {
        lemma2_to64();
        assert(bits >= 2) by {
            if bits <= 1 {
                lemma_pow2_strictly_increases(bits as nat, 2);
                assert(pow2(2) == 4);
            }
        }
        lemma_clog2_unique(needed as nat, bits as nat);
    }
    32i8 - (bits as i8)
}

/// `required_prefix` names the minimal block: for a demand of `h >= 1` hosts
/// that any block can hold, the block of the returned prefix has room for
/// `h` usable hosts beside its network and broadcast addresses, and every
/// numerically greater prefix (a smaller block) has not.
pub proof fn lemma_required_prefix_minimal(h: int)
    requires
        1 <= h,
    ensures
        h <= 0xFFFF_FFFE ==> 0 <= required_prefix_spec(h) <= 30 && block_size(required_prefix_spec(h))
            - 2 >= h,
        forall|p: int|
            required_prefix_spec(h) < p <= 32 ==> #[trigger] block_size(p) - 2 < h,
{
    lemma2_to64();
    let c = clog2((h + 2) as nat);
    lemma_clog2_bounds((h + 2) as nat);
    assert(c >= 2) by {
        if c <= 1 {
            lemma_pow2_strictly_increases(c, 2);
            assert(pow2(2) == 4);
        }
    }
    if h <= 0xFFFF_FFFE {
        assert(c <= 32) by {
            if c > 32 {
                assert(pow2((c - 1) as nat) < h + 2);
                if c - 1 > 32 {
                    lemma_pow2_strictly_increases(32, (c - 1) as nat);
                }
                assert(pow2(32) <= pow2((c - 1) as nat));
            }
        }
        assert(block_size(32 - c) == pow2(c));
    }
    assert forall|p: int| required_prefix_spec(h) < p <= 32 implies #[trigger] block_size(p) - 2
        < h by {
        assert(((32 - p) as nat) <= ((c - 1) as nat));
        if ((32 - p) as nat) < ((c - 1) as nat) {
            lemma_pow2_strictly_increases((32 - p) as nat, (c - 1) as nat);
        }
        assert(pow2((32 - p) as nat) <= pow2((c - 1) as nat));
        assert(pow2((c - 1) as nat) < h + 2);
    }
}

/// One host-count demand, tagged with its 1-based position in the caller's
/// input so that results and errors can refer to the original order.
#[derive(Clone, Copy, Debug, PartialEq, Eq)]
pub struct Demand {
    pub index: usize,
    pub hosts: u32,
}

/// The packing order on demands: more hosts first; among demands of equal
/// size, the earlier original position first.
pub open spec fn demand_le(a: Demand, b: Demand) -> bool {
    a.hosts > b.hosts || (a.hosts == b.hosts && a.index <= b.index)
}

/// The sequence is in packing order.
pub open spec fn sorted_demands(s: Seq<Demand>) -> bool {
    forall|i: int, j: int| 0 <= i < j < s.len() ==> demand_le(s[i], s[j])
}

/// Inserts `x` after every element that precedes it in the packing order.
pub open spec fn insert_demand(x: Demand, s: Seq<Demand>) -> Seq<Demand>
    decreases s.len(),
{
    if s.len() == 0 {
        seq![x]
    } else if demand_le(s[0], x) {
        seq![s[0]] + insert_demand(x, s.drop_first())
    } else {
        seq![x] + s
    }
}

/// The demands in packing order: host count descending, ties by original
/// position ascending. As all positions are distinct, this order is strict
/// and the result is the one stable descending sort of `s`.
pub open spec fn sort_demands(s: Seq<Demand>) -> Seq<Demand>
    decreases s.len(),
{
    if s.len() == 0 {
        Seq::empty()
    } else {
        insert_demand(s[0], sort_demands(s.drop_first()))
    }
}

/// Inserting is the same as splitting at the first element that does not
/// precede `x`.
proof fn lemma_insert_demand_at(x: Demand, s: Seq<Demand>, j: int)
    requires
        0 <= j <= s.len(),
        forall|t: int| 0 <= t < j ==> demand_le(s[t], x),
        j == s.len() || !demand_le(s[j], x),
    ensures
        insert_demand(x, s) == s.insert(j, x),
    decreases s.len(),
{
    if s.len() == 0 {
        assert(insert_demand(x, s) =~= s.insert(0, x));
    } else if j == 0 {
        assert(insert_demand(x, s) =~= s.insert(0, x));
    } else {
        lemma_insert_demand_at(x, s.drop_first(), j - 1);
        assert(seq![s[0]] + s.drop_first().insert(j - 1, x) =~= s.insert(j, x));
    }
}

/// Inserting adds one element.
proof fn lemma_insert_demand_len(x: Demand, s: Seq<Demand>)
    ensures
        insert_demand(x, s).len() == s.len() + 1,
    decreases s.len(),
{
    if s.len() > 0 && demand_le(s[0], x) {
        lemma_insert_demand_len(x, s.drop_first());
    }
}

/// Inserting into a sorted sequence keeps it sorted.
proof fn lemma_insert_demand_sorted(x: Demand, s: Seq<Demand>)
    requires
        sorted_demands(s),
    ensures
        sorted_demands(insert_demand(x, s)),
    decreases s.len(),
{
    lemma_insert_demand_len(x, s);
    if s.len() == 0 {
    } else if demand_le(s[0], x) {
        assert(sorted_demands(s.drop_first()));
        lemma_insert_demand_sorted(x, s.drop_first());
        let r = seq![s[0]] + insert_demand(x, s.drop_first());
        assert forall|i: int, j: int| 0 <= i < j < r.len() implies demand_le(r[i], r[j]) by {
            if i == 0 {
                if j >= 1 {
                    lemma_insert_demand_head(x, s.drop_first());
                    // r[j] is an element of insert_demand(x, s.drop_first())
                }
            }
        }
    } else {
        let r = seq![x] + s;
        assert(demand_le(x, s[0]));
        assert forall|i: int, j: int| 0 <= i < j < r.len() implies demand_le(r[i], r[j]) by {
            if i == 0 {
                if j >= 1 {
                    assert(r[j] == s[j - 1]);
                    if j - 1 > 0 {
                        assert(demand_le(s[0], s[j - 1]));
                    }
                }
            }
        }
    }
}

/// Every element of the inserted sequence either is `x` or comes from `s`.
proof fn lemma_insert_demand_head(x: Demand, s: Seq<Demand>)
    ensures
        forall|j: int|
            0 <= j < insert_demand(x, s).len() ==> (#[trigger] insert_demand(x, s)[j] == x
                || exists|t: int| 0 <= t < s.len() && s[t] == insert_demand(x, s)[j]),
    decreases s.len(),
{
    lemma_insert_demand_len(x, s);
    if s.len() > 0 && demand_le(s[0], x) {
        lemma_insert_demand_head(x, s.drop_first());
        let r = seq![s[0]] + insert_demand(x, s.drop_first());
        assert forall|j: int| 0 <= j < r.len() implies (#[trigger] r[j] == x
            || exists|t: int| 0 <= t < s.len() && s[t] == r[j]) by {
            if j == 0 {
                assert(s[0] == r[0]);
            } else {
                let rr = insert_demand(x, s.drop_first());
                assert(r[j] == rr[j - 1]);
                if rr[j - 1] != x {
                    let t = choose|t: int| 0 <= t < s.drop_first().len() && s.drop_first()[t] == rr[j - 1];
                    assert(s[t + 1] == rr[j - 1]);
                }
            }
        }
    }
}

/// Inserting a demand adds exactly that demand to the sequence's contents.
proof fn lemma_insert_demand_multiset(x: Demand, s: Seq<Demand>)
    ensures
        insert_demand(x, s).to_multiset() == s.to_multiset().insert(x),
    decreases s.len(),
{
    broadcast use vstd::seq_lib::group_to_multiset_ensures;
    broadcast use vstd::multiset::group_multiset_axioms;

    if s.len() == 0 {
        assert(seq![x] =~= Seq::<Demand>::empty().push(x));
        assert(insert_demand(x, s).to_multiset() =~= s.to_multiset().insert(x));
    } else if demand_le(s[0], x) {
        lemma_insert_demand_multiset(x, s.drop_first());
        vstd::seq_lib::lemma_multiset_commutative(seq![s[0]], insert_demand(x, s.drop_first()));
        vstd::seq_lib::lemma_multiset_commutative(seq![s[0]], s.drop_first());
        assert(s =~= seq![s[0]] + s.drop_first());
        assert(insert_demand(x, s).to_multiset() =~= s.to_multiset().insert(x));
    } else {
        vstd::seq_lib::lemma_multiset_commutative(seq![x], s);
        assert(seq![x] =~= Seq::<Demand>::empty().push(x));
        assert(insert_demand(x, s).to_multiset() =~= s.to_multiset().insert(x));
    }
}

/// The sort permutes its input: the same demands with the same
/// multiplicities, only reordered.
pub proof fn lemma_sort_demands_permutes(s: Seq<Demand>)
    ensures
        sort_demands(s).to_multiset() == s.to_multiset(),
    decreases s.len(),
{
    broadcast use vstd::seq_lib::group_to_multiset_ensures;
    broadcast use vstd::multiset::group_multiset_axioms;

    if s.len() > 0 {
        lemma_sort_demands_permutes(s.drop_first());
        lemma_insert_demand_multiset(s[0], sort_demands(s.drop_first()));
        vstd::seq_lib::lemma_multiset_commutative(seq![s[0]], s.drop_first());
        assert(s =~= seq![s[0]] + s.drop_first());
        assert(seq![s[0]] =~= Seq::<Demand>::empty().push(s[0]));
        assert(sort_demands(s).to_multiset() =~= s.to_multiset());
    }
}

/// The sort yields a sorted permutation: packing order throughout, the same
/// length, and every element drawn from the input.
pub proof fn lemma_sort_demands_props(s: Seq<Demand>)
    ensures
        sorted_demands(sort_demands(s)),
        sort_demands(s).len() == s.len(),
        forall|j: int|
            0 <= j < s.len() ==> exists|t: int|
                0 <= t < s.len() && s[t] == #[trigger] sort_demands(s)[j],
    decreases s.len(),
{
    if s.len() > 0 {
        lemma_sort_demands_props(s.drop_first());
        lemma_insert_demand_sorted(s[0], sort_demands(s.drop_first()));
        lemma_insert_demand_len(s[0], sort_demands(s.drop_first()));
        lemma_insert_demand_head(s[0], sort_demands(s.drop_first()));
        let r = insert_demand(s[0], sort_demands(s.drop_first()));
        let rest = s.drop_first();
        assert forall|j: int| 0 <= j < s.len() implies exists|t: int|
            0 <= t < s.len() && s[t] == #[trigger] r[j] by {
            if r[j] == s[0] {
                assert(s[0] == r[j]);
            } else {
                let u = choose|u: int|
                    0 <= u < sort_demands(rest).len() && sort_demands(rest)[u] == r[j];
                let w = choose|w: int| 0 <= w < rest.len() && rest[w] == sort_demands(rest)[u];
                assert(s[w + 1] == r[j]);
            }
        }
    }
}

/// The demands of a host-count list, each tagged with its 1-based position.
pub open spec fn tag_demands(s: Seq<u32>) -> Seq<Demand> {
    Seq::new(s.len(), |i: int| Demand { index: (i + 1) as usize, hosts: s[i] })
}

/// Tags each host count with its 1-based position in the list.
fn tag_demands_exec(demands: &Vec<u32>) -> (r: Vec<Demand>)
    ensures
        r@ == tag_demands(demands@),
{
    let mut r: Vec<Demand> = Vec::new();
    let mut i: usize = 0;
    while i < demands.len()
        invariant
            i <= demands@.len(),
            r@.len() == i,
            forall|t: int|
                0 <= t < i ==> #[trigger] r@[t] == (Demand {
                    index: (t + 1) as usize,
                    hosts: demands@[t],
                }),
        decreases demands@.len() - i,
    {
        r.push(Demand { index: i + 1, hosts: demands[i] });
        i = i + 1;
    }
    proof {
        assert(r@ =~= tag_demands(demands@));
    }
    r
}

/// Brings the demands into packing order by insertion.
fn sort_demands_exec(v: &Vec<Demand>) -> (r: Vec<Demand>)
    ensures
        r@ == sort_demands(v@),
{
    let mut r: Vec<Demand> = Vec::new();
    let mut k: usize = v.len();
    proof {
        assert(v@.skip(v@.len() as int) =~= Seq::<Demand>::empty());
    }
    while k > 0
        invariant
            k <= v@.len(),
            r@ == sort_demands(v@.skip(k as int)),
        decreases k,
    {
        k = k - 1;
        let x = v[k];
        let ghost s_old = r@;
        let mut j: usize = 0;
        while j < r.len() && (r[j].hosts > x.hosts || (r[j].hosts == x.hosts && r[j].index
            <= x.index))
            invariant
                j <= r@.len(),
                r@ == s_old,
                forall|t: int| 0 <= t < j ==> demand_le(r@[t], x),
            decreases r@.len() - j,
        {
            j = j + 1;
        }
        r.insert(j, x);
        proof {
            lemma_insert_demand_at(x, s_old, j as int);
            assert(v@.skip(k as int)[0] == v@[k as int]);
            assert(v@.skip(k as int).drop_first() =~= v@.skip(k as int + 1));
            assert(r@ == sort_demands(v@.skip(k as int)));
        }
    }
    proof {
        assert(v@.skip(0) =~= v@);
    }
    r
}

/// Why an allocation failed.
#[derive(Clone, Copy, Debug, PartialEq, Eq)]
pub enum AllocationError {
    /// A demand's minimal block is larger than the whole base network: its
    /// computed prefix is numerically smaller than the base prefix. A demand
    /// too large for any block carries computed prefix -1.
    PrefixTooSmall { demand_index: usize, computed_prefix: i8, base_prefix: u8 },
    /// A demand's block, placed after the previous ones, ends past the base
    /// network's broadcast address.
    DoesNotFit { demand_index: usize },
}

/// One allocated sub-network with its addressing details.
#[derive(Clone, Copy, Debug, PartialEq, Eq)]
pub struct SubnetAllocation {
    /// 1-based position of the demand in the caller's input.
    pub index: usize,
    /// The demanded number of usable hosts.
    pub requested_hosts: u32,
    /// Prefix length of the allocated block.
    pub prefix: u8,
    /// Network address of the block.
    pub network: Address,
    /// Subnet mask of the block.
    pub mask: Address,
    /// Broadcast address: the last address of the block.
    pub broadcast: Address,
    /// First address usable by a host (network address + 1).
    pub first_usable: Address,
    /// Last address usable by a host (broadcast address - 1).
    pub last_usable: Address,
    /// Number of usable host addresses in the block.
    pub total_hosts: u32,
}

/// The record for a demand allocated at network address `net` with
/// prefix `p`.
pub open spec fn alloc_record(d: Demand, p: int, net: int) -> SubnetAllocation
    recommends
        0 <= p <= 30,
        0 <= net,
        net + block_size(p) <= 0x1_0000_0000,
{
    SubnetAllocation {
        index: d.index,
        requested_hosts: d.hosts,
        prefix: p as u8,
        network: addr_from(net),
        mask: addr_from(mask_spec(p) as int),
        broadcast: addr_from(net + block_size(p) - 1),
        first_usable: addr_from(net + 1),
        last_usable: addr_from(net + block_size(p) - 2),
        total_hosts: (block_size(p) - 2) as u32,
    }
}

/// Packs the demands in order, starting at `cursor`, into blocks that must
/// end by `base_end`. Each block is aligned down to its own size before it
/// is placed; the cursor then moves just past the block. The first demand
/// whose prefix falls below `base_prefix`, or whose block ends past
/// `base_end`, aborts the whole packing.
pub open spec fn pack_demands(
    ds: Seq<Demand>,
    cursor: int,
    base_prefix: int,
    base_end: int,
) -> Result<Seq<SubnetAllocation>, AllocationError>
    decreases ds.len(),
{
    if ds.len() == 0 {
        Ok(Seq::empty())
    } else {
        let d = ds[0];
        let p = required_prefix_spec(d.hosts as int);
        if p < base_prefix {
            Err(
                AllocationError::PrefixTooSmall {
                    demand_index: d.index,
                    computed_prefix: p as i8,
                    base_prefix: base_prefix as u8,
                },
            )
        } else {
            let net = cursor - cursor % block_size(p);
            let end = net + block_size(p) - 1;
            if end > base_end {
                Err(AllocationError::DoesNotFit { demand_index: d.index })
            } else {
                match pack_demands(ds.drop_first(), end + 1, base_prefix, base_end) {
                    Ok(rest) => Ok(seq![alloc_record(d, p, net)] + rest),
                    Err(e) => Err(e),
                }
            }
        }
    }
}

/// What `vlsm_allocate` returns: the demands tagged with their positions,
/// brought into packing order, and packed from the base network address up
/// to the base broadcast address.
#[verifier::opaque]
pub open spec fn allocate_spec(base_ip: Address, base_prefix: int, demands: Seq<u32>) -> Result<
    Seq<SubnetAllocation>,
    AllocationError,
> {
    pack_demands(
        sort_demands(tag_demands(demands)),
        spec_network(base_ip.value(), base_prefix),
        base_prefix,
        spec_broadcast(base_ip.value(), base_prefix),
    )
}

/// Prepends already-produced allocations to the outcome of packing the
/// remaining demands.
spec fn compose_pack(
    done: Seq<SubnetAllocation>,
    rest: Result<Seq<SubnetAllocation>, AllocationError>,
) -> Result<Seq<SubnetAllocation>, AllocationError> {
    match rest {
        Ok(r) => Ok(done + r),
        Err(e) => Err(e),
    }
}

/// One packing step: a demand whose prefix is too small fails the whole
/// packing with `PrefixTooSmall`.
proof fn lemma_pack_step_prefix_err(
    full: Result<Seq<SubnetAllocation>, AllocationError>,
    done: Seq<SubnetAllocation>,
    ds: Seq<Demand>,
    k: int,
    cursor: int,
    base_prefix: int,
    base_end: int,
    p: int,
)
    requires
        0 <= k < ds.len(),
        p == required_prefix_spec(ds[k].hosts as int),
        p < base_prefix,
        full == compose_pack(done, pack_demands(ds.skip(k), cursor, base_prefix, base_end)),
    ensures
        full == Err::<Seq<SubnetAllocation>, AllocationError>(
            AllocationError::PrefixTooSmall {
                demand_index: ds[k].index,
                computed_prefix: p as i8,
                base_prefix: base_prefix as u8,
            },
        ),
{
    assert(ds.skip(k)[0] == ds[k]);
}

/// One packing step: a block that ends past the base broadcast address
/// fails the whole packing with `DoesNotFit`.
proof fn lemma_pack_step_fit_err(
    full: Result<Seq<SubnetAllocation>, AllocationError>,
    done: Seq<SubnetAllocation>,
    ds: Seq<Demand>,
    k: int,
    cursor: int,
    base_prefix: int,
    base_end: int,
    p: int,
)
    requires
        0 <= k < ds.len(),
        p == required_prefix_spec(ds[k].hosts as int),
        p >= base_prefix,
        cursor - cursor % block_size(p) + block_size(p) - 1 > base_end,
        full == compose_pack(done, pack_demands(ds.skip(k), cursor, base_prefix, base_end)),
    ensures
        full == Err::<Seq<SubnetAllocation>, AllocationError>(
            AllocationError::DoesNotFit { demand_index: ds[k].index },
        ),
{
    assert(ds.skip(k)[0] == ds[k]);
}

/// One packing step: a block that fits is recorded, and the cursor moves
/// just past it.
proof fn lemma_pack_step_ok(
    full: Result<Seq<SubnetAllocation>, AllocationError>,
    done: Seq<SubnetAllocation>,
    rec: SubnetAllocation,
    ds: Seq<Demand>,
    k: int,
    cursor: int,
    base_prefix: int,
    base_end: int,
    p: int,
    net: int,
    end: int,
)
    requires
        0 <= k < ds.len(),
        p == required_prefix_spec(ds[k].hosts as int),
        p >= base_prefix,
        net == cursor - cursor % block_size(p),
        end == net + block_size(p) - 1,
        end <= base_end,
        rec == alloc_record(ds[k], p, net),
        full == compose_pack(done, pack_demands(ds.skip(k), cursor, base_prefix, base_end)),
    ensures
        full == compose_pack(
            done + seq![rec],
            pack_demands(ds.skip(k + 1), end + 1, base_prefix, base_end),
        ),
{
    assert(ds.skip(k)[0] == ds[k]);
    assert(ds.skip(k).drop_first() =~= ds.skip(k + 1));
    let inner = pack_demands(ds.skip(k + 1), end + 1, base_prefix, base_end);
    if let Ok(rr) = inner {
        assert((done + seq![rec]) + rr =~= done + (seq![rec] + rr));
    }
}

/// Allocates one sub-network per demand inside the base network, or reports
/// the first failure. Demands are packed largest first (ties in input
/// order), each block aligned to its own size, and the result comes out in
/// ascending address order.
#[verifier::rlimit(80)]
pub fn vlsm_allocate(base_ip: Address, base_prefix: u8, demands: &Vec<u32>) -> (r: Result<
    Vec<SubnetAllocation>,
    AllocationError,
>)
    requires
        base_prefix <= 32,
        forall|i: int| 0 <= i < demands@.len() ==> demands@[i] >= 1,
    ensures
        (match r {
            Ok(v) => allocate_spec(base_ip, base_prefix as int, demands@) == Ok::<
                Seq<SubnetAllocation>,
                AllocationError,
            >(v@),
            Err(e) => allocate_spec(base_ip, base_prefix as int, demands@) == Err::<
                Seq<SubnetAllocation>,
                AllocationError,
            >(e),
        }),
{
    let ip_num = to_integer(base_ip);
    let base_mask = mask_for_prefix(base_prefix);
    let base_net32 = network_address(ip_num, base_mask);
    let base_end32 = broadcast_address(base_net32, base_mask);
    proof {
        lemma_network_align(ip_num, base_prefix as int);
        lemma_broadcast_or(base_net32, base_prefix as int);
        assert(base_net32 as int == spec_network(base_ip.value(), base_prefix as int));
        assert(base_end32 as int == spec_broadcast(base_ip.value(), base_prefix as int));
    }
    let tagged = tag_demands_exec(demands);
    let sorted = sort_demands_exec(&tagged);
    let ghost ds = sorted@;
    proof {
        lemma_sort_demands_props(tagged@);
        assert forall|t: int| 0 <= t < ds.len() implies #[trigger] ds[t].hosts >= 1 by {
            let w = choose|w: int| 0 <= w < tagged@.len() && tagged@[w] == ds[t];
            assert(tagged@[w].hosts == demands@[w]);
        }
    }
    let mut out: Vec<SubnetAllocation> = Vec::new();
    let mut cursor: u64 = base_net32 as u64;
    let base_end: u64 = base_end32 as u64;
    let mut k: usize = 0;
    let ghost full = pack_demands(ds, cursor as int, base_prefix as int, base_end as int);
    proof {
        reveal(allocate_spec);
        assert(allocate_spec(base_ip, base_prefix as int, demands@) == full);
        assert(ds.skip(0) =~= ds);
        if let Ok(rr) = pack_demands(
            ds,
            cursor as int,
            base_prefix as int,
            base_end as int,
        ) {
            assert(Seq::<SubnetAllocation>::empty() + rr =~= rr);
        }
    }
    while k < sorted.len()
        invariant
            sorted@ == ds,
            k <= ds.len(),
            base_prefix <= 32,
            forall|t: int| 0 <= t < ds.len() ==> #[trigger] ds[t].hosts >= 1,
            base_end < 0x1_0000_0000,
            cursor <= 0x1_0000_0000,
            full == allocate_spec(base_ip, base_prefix as int, demands@),
            full == compose_pack(
                out@,
                pack_demands(ds.skip(k as int), cursor as int, base_prefix as int, base_end as int),
            ),
        decreases ds.len() - k,
    {
        let d = sorted[k];
        let p = required_prefix(d.hosts);
        if p < base_prefix as i8 {
            proof {
                lemma_pack_step_prefix_err(
                    full,
                    out@,
                    ds,
                    k as int,
                    cursor as int,
                    base_prefix as int,
                    base_end as int,
                    p as int,
                );
            }
            return Err(
                AllocationError::PrefixTooSmall {
                    demand_index: d.index,
                    computed_prefix: p,
                    base_prefix,
                },
            );
        }
        let shift: u64 = (32 - (p as i32)) as u64;
        let sz: u64 = 1u64 << shift;
        proof {
            lemma2_to64();
            lemma2_to64_rest();
            vstd::bits::lemma_u64_pow2_no_overflow(shift as nat);
            vstd::bits::lemma_u64_shl_is_mul(1u64, shift);
            assert(sz as int == block_size(p as int));
            assert(sz >= 1);
        }
        proof {
            lemma_mod_bound(cursor as int, sz as int);
            if cursor < sz {
                lemma_small_mod(cursor as nat, sz as nat);
            }
        }
        let net: u64 = cursor - cursor % sz;
        let end: u64 = net + (sz - 1);
        proof {
            assert(net as int == cursor as int - cursor as int % sz as int);
        }
        if end > base_end {
            proof {
                lemma_pack_step_fit_err(
                    full,
                    out@,
                    ds,
                    k as int,
                    cursor as int,
                    base_prefix as int,
                    base_end as int,
                    p as int,
                );
            }
            return Err(AllocationError::DoesNotFit { demand_index: d.index });
        }
        let mask_num = mask_for_prefix(p as u8);
        let rec = SubnetAllocation {
            index: d.index,
            requested_hosts: d.hosts,
            prefix: p as u8,
            network: to_address(net as u32),
            mask: to_address(mask_num),
            broadcast: to_address(end as u32),
            first_usable: to_address((net + 1) as u32),
            last_usable: to_address((end - 1) as u32),
            total_hosts: (sz - 2) as u32,
        };
        proof {
            assert(rec == alloc_record(ds[k as int], p as int, net as int));
            lemma_pack_step_ok(
                full,
                out@,
                rec,
                ds,
                k as int,
                cursor as int,
                base_prefix as int,
                base_end as int,
                p as int,
                net as int,
                end as int,
            );
        }
        let ghost out_before = out@;
        out.push(rec);
        cursor = end + 1;
        k = k + 1;
        proof {
            assert(out@ =~= out_before + seq![rec]);
        }
    }
    proof {
        assert(ds.skip(ds.len() as int) =~= Seq::<Demand>::empty());
        assert(out@ + Seq::<SubnetAllocation>::empty() =~= out@);
    }
    Ok(out)
}

/// The allocation is a function of its inputs alone: any two results that
/// satisfy `vlsm_allocate`'s contract for identical inputs are identical,
/// so calling it twice on the same inputs yields the same outcome.
pub proof fn lemma_allocate_deterministic(
    base_ip: Address,
    base_prefix: u8,
    demands: Seq<u32>,
    r1: Result<Seq<SubnetAllocation>, AllocationError>,
    r2: Result<Seq<SubnetAllocation>, AllocationError>,
)
    requires
        (match r1 {
            Ok(v) => allocate_spec(base_ip, base_prefix as int, demands) == Ok::<
                Seq<SubnetAllocation>,
                AllocationError,
            >(v),
            Err(e) => allocate_spec(base_ip, base_prefix as int, demands) == Err::<
                Seq<SubnetAllocation>,
                AllocationError,
            >(e),
        }),
        (match r2 {
            Ok(v) => allocate_spec(base_ip, base_prefix as int, demands) == Ok::<
                Seq<SubnetAllocation>,
                AllocationError,
            >(v),
            Err(e) => allocate_spec(base_ip, base_prefix as int, demands) == Err::<
                Seq<SubnetAllocation>,
                AllocationError,
            >(e),
        }),
    ensures
        r1 == r2,
{
}

/// A demand of at least one host never needs a prefix above 30: its block
/// must hold the demand plus the network and broadcast addresses.
proof fn lemma_rp_range(h: int)
    requires
        h >= 1,
    ensures
        required_prefix_spec(h) <= 30,
{
    lemma2_to64();
    let c = clog2((h + 2) as nat);
    lemma_clog2_bounds((h + 2) as nat);
    if c <= 1 {
        lemma_pow2_strictly_increases(c, 2);
        assert(pow2(2) == 4);
    }
}

/// Alignment to a block implies alignment to any smaller block.
proof fn lemma_align_finer(a: int, p1: int, p2: int)
    requires
        0 <= p1 <= p2 <= 32,
        a % block_size(p1) == 0,
    ensures
        a % block_size(p2) == 0,
{
    let b1 = block_size(p1);
    let b2 = block_size(p2);
    lemma_pow2_pos((32 - p1) as nat);
    lemma_pow2_pos((32 - p2) as nat);
    lemma_pow2_adds((32 - p2) as nat, (p2 - p1) as nat);
    vstd::arithmetic::div_mod::lemma_fundamental_div_mod(a, b1);
    let q = a / b1;
    assert(b1 * q == b2 * (pow2((p2 - p1) as nat) * q)) by (nonlinear_arith)
        requires
            b1 == b2 * pow2((p2 - p1) as nat),
    ;
    vstd::arithmetic::div_mod::lemma_mod_multiples_basic(pow2((p2 - p1) as nat) * q, b2);
    assert((pow2((p2 - p1) as nat) * q) * b2 == b2 * (pow2((p2 - p1) as nat) * q)) by (nonlinear_arith);
}

/// A block-aligned cursor stays aligned after advancing by the block.
proof fn lemma_align_advance(a: int, p: int)
    requires
        0 <= p <= 32,
        a % block_size(p) == 0,
    ensures
        (a + block_size(p)) % block_size(p) == 0,
{
    let b = block_size(p);
    lemma_pow2_pos((32 - p) as nat);
    vstd::arithmetic::div_mod::lemma_fundamental_div_mod(a, b);
    let q = a / b;
    assert(b * q + b == (q + 1) * b) by (nonlinear_arith);
    vstd::arithmetic::div_mod::lemma_mod_multiples_basic(q + 1, b);
}

/// Laws of a successful packing, by induction along the demands: the blocks
/// lie between the cursor and the end of the base network, in strictly
/// ascending address order. The cursor stays aligned because demands come
/// in packing order: block sizes never grow, so aligning a block to its own
/// size never moves it.
#[verifier::rlimit(80)]
proof fn lemma_pack_props_rec(
    ds: Seq<Demand>,
    cursor: int,
    base_prefix: int,
    base_end: int,
    v: Seq<SubnetAllocation>,
    align_p: int,
)
    requires
        sorted_demands(ds),
        forall|t: int| 0 <= t < ds.len() ==> #[trigger] ds[t].hosts >= 1,
        0 <= base_prefix <= 32,
        0 <= align_p <= 32,
        0 <= cursor,
        base_end < 0x1_0000_0000,
        cursor % block_size(align_p) == 0,
        ds.len() == 0 || align_p <= base_prefix || align_p <= required_prefix_spec(
            ds[0].hosts as int,
        ),
        pack_demands(ds, cursor, base_prefix, base_end) == Ok::<
            Seq<SubnetAllocation>,
            AllocationError,
        >(v),
    ensures
        v.len() == ds.len(),
        forall|i: int|
            0 <= i < v.len() ==> cursor <= (#[trigger] v[i]).network.value()
                && v[i].network.value() <= v[i].broadcast.value() && v[i].broadcast.value()
                <= base_end,
        forall|i: int, j: int|
            0 <= i < j < v.len() ==> (#[trigger] v[i]).broadcast.value() < (
            #[trigger] v[j]).network.value(),
    decreases ds.len(),
{
    if ds.len() > 0 {
        let d = ds[0];
        let p = required_prefix_spec(d.hosts as int);
        assert(d.hosts >= 1);
        assert(p >= base_prefix);
        lemma_rp_range(d.hosts as int);
        let bs = block_size(p);
        lemma_pow2_pos((32 - p) as nat);
        assert(align_p <= p);
        lemma_align_finer(cursor, align_p, p);
        let net = cursor - cursor % bs;
        assert(net == cursor);
        let end_ = net + bs - 1;
        assert(end_ <= base_end);
        let inner = pack_demands(ds.drop_first(), end_ + 1, base_prefix, base_end);
        assert(inner is Ok);
        let rest_v = inner->Ok_0;
        assert(v == seq![alloc_record(d, p, net)] + rest_v);
        assert(sorted_demands(ds.drop_first()));
        lemma_align_advance(cursor, p);
        if ds.drop_first().len() > 0 {
            assert(demand_le(ds[0], ds[1]));
            assert(ds.drop_first()[0] == ds[1]);
            lemma_clog2_mono((ds[1].hosts + 2) as nat, (d.hosts + 2) as nat);
            assert(p <= required_prefix_spec(ds.drop_first()[0].hosts as int));
        }
        lemma_pack_props_rec(ds.drop_first(), end_ + 1, base_prefix, base_end, rest_v, p);
        lemma_addr_from_value(net);
        lemma_addr_from_value(end_);
        assert(v[0].network.value() == net);
        assert(v[0].broadcast.value() == end_);
        assert forall|i: int|
            0 <= i < v.len() implies cursor <= (#[trigger] v[i]).network.value()
            && v[i].network.value() <= v[i].broadcast.value() && v[i].broadcast.value()
            <= base_end by {
            if i > 0 {
                assert(v[i] == rest_v[i - 1]);
            }
        }
        assert forall|i: int, j: int|
            0 <= i < j < v.len() implies (#[trigger] v[i]).broadcast.value() < (
        #[trigger] v[j]).network.value() by {
            assert(v[j] == rest_v[j - 1]);
            if i > 0 {
                assert(v[i] == rest_v[i - 1]);
            } else {
                assert(cursor + bs <= rest_v[j - 1].network.value());
            }
        }
    }
}

/// Laws of a successful allocation: every sub-network's range lies within
/// the base network's range, the ranges of distinct sub-networks do not
/// overlap, and the result is strictly ascending by network address.
pub proof fn lemma_allocation_laws(
    base_ip: Address,
    base_prefix: u8,
    demands: Seq<u32>,
    v: Seq<SubnetAllocation>,
)
    requires
        base_prefix <= 32,
        forall|i: int| 0 <= i < demands.len() ==> demands[i] >= 1,
        allocate_spec(base_ip, base_prefix as int, demands) == Ok::<
            Seq<SubnetAllocation>,
            AllocationError,
        >(v),
    ensures
        forall|i: int|
            0 <= i < v.len() ==> spec_network(base_ip.value(), base_prefix as int) <= (
            #[trigger] v[i]).network.value() && v[i].network.value() <= v[i].broadcast.value()
                && v[i].broadcast.value() <= spec_broadcast(base_ip.value(), base_prefix as int),
        forall|i: int, j: int|
            0 <= i < j < v.len() ==> (#[trigger] v[i]).broadcast.value() < (
            #[trigger] v[j]).network.value(),
        forall|i: int, j: int|
            0 <= i < j < v.len() ==> (#[trigger] v[i]).network.value() < (
            #[trigger] v[j]).network.value(),
{
    reveal(allocate_spec);
    let ip = base_ip.value();
    let ip32: u32 = ip as u32;
    lemma_network_align(ip32, base_prefix as int);
    let bn = spec_network(ip, base_prefix as int);
    lemma_broadcast_or(bn as u32, base_prefix as int);
    let ds = sort_demands(tag_demands(demands));
    lemma_sort_demands_props(tag_demands(demands));
    assert forall|t: int| 0 <= t < ds.len() implies #[trigger] ds[t].hosts >= 1 by {
        let w = choose|w: int|
            0 <= w < tag_demands(demands).len() && tag_demands(demands)[w] == ds[t];
        assert(tag_demands(demands)[w].hosts == demands[w]);
    }
    lemma_pack_props_rec(
        ds,
        bn,
        base_prefix as int,
        spec_broadcast(ip, base_prefix as int),
        v,
        base_prefix as int,
    );
}

} // verus!
