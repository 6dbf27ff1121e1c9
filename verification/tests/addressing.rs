use vlsm_calc::addr::{Address, broadcast_address, mask_for_prefix, network_address, to_address,
    to_integer};
use vlsm_calc::report::single_network_report;
use vlsm_calc::vlsm::required_prefix;

fn addr(o0: u8, o1: u8, o2: u8, o3: u8) -> Address {
    Address { o0, o1, o2, o3 }
}

#[test]
fn to_integer_examples() {
    assert_eq!(to_integer(addr(0, 0, 0, 0)), 0);
    assert_eq!(to_integer(addr(0, 0, 0, 1)), 1);
    assert_eq!(to_integer(addr(192, 168, 1, 0)), 0xC0A8_0100);
    assert_eq!(to_integer(addr(10, 0, 0, 0)), 0x0A00_0000);
    assert_eq!(to_integer(addr(255, 255, 255, 255)), u32::MAX);
}

#[test]
fn to_address_examples() {
    assert_eq!(to_address(0), addr(0, 0, 0, 0));
    assert_eq!(to_address(0xC0A8_013F), addr(192, 168, 1, 63));
    assert_eq!(to_address(u32::MAX), addr(255, 255, 255, 255));
}

#[test]
fn round_trip_address_to_integer_and_back() {
    let samples = [
        addr(0, 0, 0, 0),
        addr(127, 0, 0, 1),
        addr(192, 168, 1, 42),
        addr(10, 20, 30, 40),
        addr(255, 255, 255, 255),
    ];
    for a in samples {
        assert_eq!(to_address(to_integer(a)), a);
    }
}

#[test]
fn round_trip_integer_to_address_and_back() {
    let samples: [u32; 5] = [0, 1, 0xC0A8_0100, 0xDEAD_BEEF, u32::MAX];
    for n in samples {
        assert_eq!(to_integer(to_address(n)), n);
    }
}

#[test]
fn mask_boundary_prefixes() {
    assert_eq!(mask_for_prefix(0), 0);
    assert_eq!(mask_for_prefix(1), 0x8000_0000);
    assert_eq!(mask_for_prefix(31), 0xFFFF_FFFE);
    assert_eq!(mask_for_prefix(32), 0xFFFF_FFFF);
}

#[test]
fn mask_common_prefixes() {
    assert_eq!(mask_for_prefix(8), 0xFF00_0000);
    assert_eq!(mask_for_prefix(16), 0xFFFF_0000);
    assert_eq!(mask_for_prefix(24), 0xFFFF_FF00);
    assert_eq!(mask_for_prefix(25), 0xFFFF_FF80);
    assert_eq!(mask_for_prefix(26), 0xFFFF_FFC0);
    assert_eq!(mask_for_prefix(30), 0xFFFF_FFFC);
}

#[test]
fn mask_leading_ones_trailing_zeros() {
    for p in 0u8..=32 {
        let m = mask_for_prefix(p);
        assert_eq!(m.leading_ones(), p as u32);
        assert_eq!(m.count_ones(), p as u32);
        if p < 32 {
            assert_eq!(m.trailing_zeros(), 32 - p as u32);
        }
    }
}

#[test]
fn network_and_broadcast() {
    let ip = to_integer(addr(192, 168, 1, 130));
    let mask = mask_for_prefix(25);
    let net = network_address(ip, mask);
    let bc = broadcast_address(net, mask);
    assert_eq!(to_address(net), addr(192, 168, 1, 128));
    assert_eq!(to_address(bc), addr(192, 168, 1, 255));
}

#[test]
fn broadcast_never_below_network() {
    for p in 0u8..=32 {
        let ip = to_integer(addr(172, 16, 254, 201));
        let mask = mask_for_prefix(p);
        let net = network_address(ip, mask);
        let bc = broadcast_address(net, mask);
        assert!(bc >= net);
        assert_eq!(bc == net, p == 32);
    }
}

#[test]
fn required_prefix_examples() {
    assert_eq!(required_prefix(1), 30);
    assert_eq!(required_prefix(2), 30);
    assert_eq!(required_prefix(3), 29);
    assert_eq!(required_prefix(10), 28);
    assert_eq!(required_prefix(20), 27);
    assert_eq!(required_prefix(50), 26);
    assert_eq!(required_prefix(100), 25);
    assert_eq!(required_prefix(254), 24);
    assert_eq!(required_prefix(255), 23);
}

#[test]
fn required_prefix_exact_powers() {
    assert_eq!(required_prefix(6), 29);
    assert_eq!(required_prefix(14), 28);
    assert_eq!(required_prefix(62), 26);
    assert_eq!(required_prefix(126), 25);
}

#[test]
fn required_prefix_huge_demand() {
    assert_eq!(required_prefix(u32::MAX - 2), 0);
    assert_eq!(required_prefix(u32::MAX - 1), 0);
    assert_eq!(required_prefix(u32::MAX), -1);
}

#[test]
fn report_of_a_24() {
    let r = single_network_report(addr(192, 168, 1, 57), 24);
    assert_eq!(r.ip, addr(192, 168, 1, 57));
    assert_eq!(r.prefix, 24);
    assert_eq!(r.mask, addr(255, 255, 255, 0));
    assert_eq!(r.network, addr(192, 168, 1, 0));
    assert_eq!(r.broadcast, addr(192, 168, 1, 255));
    assert_eq!(r.first_usable, Some(addr(192, 168, 1, 1)));
    assert_eq!(r.last_usable, Some(addr(192, 168, 1, 254)));
}

#[test]
fn report_of_a_31_has_no_usable_range() {
    let r = single_network_report(addr(10, 0, 0, 5), 31);
    assert_eq!(r.network, addr(10, 0, 0, 4));
    assert_eq!(r.broadcast, addr(10, 0, 0, 5));
    assert_eq!(r.first_usable, None);
    assert_eq!(r.last_usable, None);
}

#[test]
fn report_of_a_32_has_no_usable_range() {
    let r = single_network_report(addr(10, 0, 0, 5), 32);
    assert_eq!(r.network, addr(10, 0, 0, 5));
    assert_eq!(r.broadcast, addr(10, 0, 0, 5));
    assert_eq!(r.first_usable, None);
    assert_eq!(r.last_usable, None);
}

#[test]
fn report_of_prefix_zero() {
    let r = single_network_report(addr(8, 8, 8, 8), 0);
    assert_eq!(r.mask, addr(0, 0, 0, 0));
    assert_eq!(r.network, addr(0, 0, 0, 0));
    assert_eq!(r.broadcast, addr(255, 255, 255, 255));
    assert_eq!(r.first_usable, Some(addr(0, 0, 0, 1)));
    assert_eq!(r.last_usable, Some(addr(255, 255, 255, 254)));
}
