use vlsm_calc::addr::Address;
use vlsm_calc::vlsm::{vlsm_allocate, AllocationError, SubnetAllocation};

fn addr(o0: u8, o1: u8, o2: u8, o3: u8) -> Address {
    Address { o0, o1, o2, o3 }
}

#[test]
fn single_demand_of_fifty() {
    let base = addr(192, 168, 1, 0);
    let r = vlsm_allocate(base, 24, &vec![50]).unwrap();
    assert_eq!(r.len(), 1);
    let s = &r[0];
    assert_eq!(s.index, 1);
    assert_eq!(s.requested_hosts, 50);
    assert_eq!(s.prefix, 26);
    assert_eq!(s.network, addr(192, 168, 1, 0));
    assert_eq!(s.mask, addr(255, 255, 255, 192));
    assert_eq!(s.broadcast, addr(192, 168, 1, 63));
    assert_eq!(s.first_usable, addr(192, 168, 1, 1));
    assert_eq!(s.last_usable, addr(192, 168, 1, 62));
    assert_eq!(s.total_hosts, 62);
}

#[test]
fn three_demands_come_out_in_address_order() {
    let base = addr(192, 168, 1, 0);
    let r = vlsm_allocate(base, 24, &vec![50, 20, 10]).unwrap();
    assert_eq!(r.len(), 3);

    assert_eq!(r[0].index, 1);
    assert_eq!(r[0].prefix, 26);
    assert_eq!(r[0].network, addr(192, 168, 1, 0));
    assert_eq!(r[0].broadcast, addr(192, 168, 1, 63));
    assert_eq!(r[0].total_hosts, 62);

    assert_eq!(r[1].index, 2);
    assert_eq!(r[1].prefix, 27);
    assert_eq!(r[1].network, addr(192, 168, 1, 64));
    assert_eq!(r[1].broadcast, addr(192, 168, 1, 95));
    assert_eq!(r[1].total_hosts, 30);

    assert_eq!(r[2].index, 3);
    assert_eq!(r[2].prefix, 28);
    assert_eq!(r[2].network, addr(192, 168, 1, 96));
    assert_eq!(r[2].broadcast, addr(192, 168, 1, 111));
    assert_eq!(r[2].total_hosts, 14);
}

#[test]
fn demand_too_large_for_base() {
    let base = addr(10, 0, 0, 0);
    let r = vlsm_allocate(base, 30, &vec![10]);
    assert_eq!(
        r,
        Err(AllocationError::PrefixTooSmall {
            demand_index: 1,
            computed_prefix: 28,
            base_prefix: 30,
        })
    );
}

#[test]
fn third_half_sized_demand_does_not_fit() {
    let base = addr(192, 168, 1, 0);
    let r = vlsm_allocate(base, 24, &vec![100, 100, 100]);
    assert_eq!(r, Err(AllocationError::DoesNotFit { demand_index: 3 }));
}

#[test]
fn two_half_sized_demands_fill_the_base() {
    let base = addr(192, 168, 1, 0);
    let r = vlsm_allocate(base, 24, &vec![100, 100]).unwrap();
    assert_eq!(r.len(), 2);
    assert_eq!(r[0].network, addr(192, 168, 1, 0));
    assert_eq!(r[0].broadcast, addr(192, 168, 1, 127));
    assert_eq!(r[1].network, addr(192, 168, 1, 128));
    assert_eq!(r[1].broadcast, addr(192, 168, 1, 255));
}

#[test]
fn smaller_demand_packs_after_larger_one() {
    let base = addr(192, 168, 1, 0);
    let r = vlsm_allocate(base, 24, &vec![2, 50]).unwrap();
    assert_eq!(r.len(), 2);
    // The 50-host demand (input position 2) packs first.
    assert_eq!(r[0].index, 2);
    assert_eq!(r[0].network, addr(192, 168, 1, 0));
    assert_eq!(r[0].prefix, 26);
    assert_eq!(r[1].index, 1);
    assert_eq!(r[1].network, addr(192, 168, 1, 64));
    assert_eq!(r[1].prefix, 30);
    assert_eq!(r[1].total_hosts, 2);
}

#[test]
fn equal_demands_keep_input_order() {
    let base = addr(10, 0, 0, 0);
    let r = vlsm_allocate(base, 24, &vec![10, 10, 10]).unwrap();
    assert_eq!(r.len(), 3);
    assert_eq!(r[0].index, 1);
    assert_eq!(r[1].index, 2);
    assert_eq!(r[2].index, 3);
    assert_eq!(r[0].network, addr(10, 0, 0, 0));
    assert_eq!(r[1].network, addr(10, 0, 0, 16));
    assert_eq!(r[2].network, addr(10, 0, 0, 32));
}

#[test]
fn host_address_realigns_to_base_network() {
    // The base address need not be the network address: it is masked first.
    let base = addr(192, 168, 1, 57);
    let r = vlsm_allocate(base, 24, &vec![50]).unwrap();
    assert_eq!(r[0].network, addr(192, 168, 1, 0));
    assert_eq!(r[0].broadcast, addr(192, 168, 1, 63));
}

#[test]
fn no_demands_yield_no_allocations() {
    let base = addr(192, 168, 1, 0);
    let r = vlsm_allocate(base, 24, &vec![]).unwrap();
    assert_eq!(r.len(), 0);
}

#[test]
fn huge_demand_fails_even_in_prefix_zero_base() {
    let base = addr(0, 0, 0, 0);
    let r = vlsm_allocate(base, 0, &vec![u32::MAX]);
    assert_eq!(
        r,
        Err(AllocationError::PrefixTooSmall {
            demand_index: 1,
            computed_prefix: -1,
            base_prefix: 0,
        })
    );
}

#[test]
fn whole_space_demand_in_prefix_zero_base() {
    let base = addr(0, 0, 0, 0);
    let r = vlsm_allocate(base, 0, &vec![u32::MAX - 2]).unwrap();
    assert_eq!(r.len(), 1);
    assert_eq!(r[0].prefix, 0);
    assert_eq!(r[0].network, addr(0, 0, 0, 0));
    assert_eq!(r[0].broadcast, addr(255, 255, 255, 255));
    assert_eq!(r[0].total_hosts, u32::MAX - 1);
}

#[test]
fn ranges_disjoint_and_within_base() {
    let base = addr(172, 16, 0, 0);
    let r = vlsm_allocate(base, 16, &vec![300, 12, 700, 2, 29]).unwrap();
    let v: Vec<&SubnetAllocation> = r.iter().collect();
    let base_lo = 0xAC10_0000u32;
    let base_hi = 0xAC10_FFFFu32;
    for s in &v {
        let net = u32::from_be_bytes([s.network.o0, s.network.o1, s.network.o2, s.network.o3]);
        let bc = u32::from_be_bytes([
            s.broadcast.o0,
            s.broadcast.o1,
            s.broadcast.o2,
            s.broadcast.o3,
        ]);
        assert!(base_lo <= net && net <= bc && bc <= base_hi);
    }
    for w in v.windows(2) {
        let bc0 = u32::from_be_bytes([
            w[0].broadcast.o0,
            w[0].broadcast.o1,
            w[0].broadcast.o2,
            w[0].broadcast.o3,
        ]);
        let net1 = u32::from_be_bytes([
            w[1].network.o0,
            w[1].network.o1,
            w[1].network.o2,
            w[1].network.o3,
        ]);
        assert!(bc0 < net1);
    }
}

#[test]
fn identical_inputs_yield_identical_output() {
    let base = addr(192, 168, 1, 0);
    let demands = vec![50, 20, 10, 20];
    let r1 = vlsm_allocate(base, 24, &demands);
    let r2 = vlsm_allocate(base, 24, &demands);
    assert_eq!(r1, r2);
    let bad = vlsm_allocate(addr(10, 0, 0, 0), 30, &vec![10]);
    let bad_again = vlsm_allocate(addr(10, 0, 0, 0), 30, &vec![10]);
    assert_eq!(bad, bad_again);
}
