//! MAC addresses and sets of them.

use reflector::net::addr::{IpAddr, Ipv4Addr, Ipv6Addr};
use reflector::net::mac::{MacAddr, MacSet, MacSetError, ParseMacAddrError};

#[test]
fn mac_parses_via_fromstr() {
    let upper = "B0:37:95:C5:60:BE".parse::<MacAddr>().unwrap();
    let lower = "b0:37:95:c5:60:be".parse::<MacAddr>().unwrap();
    let mixed = "b0:37:95:C5:60:bE".parse::<MacAddr>().unwrap();
    assert_eq!(upper, lower);
    assert_eq!(upper, mixed);
    assert_eq!(upper.to_text(), "b0:37:95:c5:60:be");
    assert_eq!("zz".parse::<MacAddr>(), Err(ParseMacAddrError));
}

#[test]
fn mac_rejects_sign_prefixed_octets() {
    // A sign is no hex digit, though some number parsers take one.
    assert_eq!(
        "+a:+b:+c:+d:+e:+f".parse::<MacAddr>(),
        Err(ParseMacAddrError)
    );
}

#[test]
fn broadcast_is_all_ones() {
    assert_eq!(MacAddr::broadcast().octets(), [0xff; 6]);
}

#[test]
fn ipv4_multicast_maps_to_01_00_5e() {
    // 224.0.0.251 (mDNS) -> 01:00:5e:00:00:fb.
    let mac = MacAddr::multicast_for(IpAddr::V4(Ipv4Addr::new(224, 0, 0, 251)));
    assert_eq!(mac.octets(), [0x01, 0x00, 0x5e, 0x00, 0x00, 0xfb]);
}

#[test]
fn ipv4_multicast_clears_top_bit_of_byte_1() {
    // 239.255.255.250 (SSDP): byte 1 = 0xff -> 0x7f (only the low 23 bits map).
    let mac = MacAddr::multicast_for(IpAddr::V4(Ipv4Addr::new(239, 255, 255, 250)));
    assert_eq!(mac.octets(), [0x01, 0x00, 0x5e, 0x7f, 0xff, 0xfa]);
}

#[test]
fn ipv6_multicast_maps_to_33_33() {
    // ff02::fb (mDNS) -> 33:33:00:00:00:fb (low 32 bits).
    let mac = MacAddr::multicast_for(IpAddr::V6(Ipv6Addr::new(0xff02, 0, 0, 0, 0, 0, 0, 0xfb)));
    assert_eq!(mac.octets(), [0x33, 0x33, 0x00, 0x00, 0x00, 0xfb]);
}

#[test]
fn ipv6_multicast_maps_the_low_32_bits() {
    // Distinct bytes 12..16 pin the mapping (ff02::fb alone can't).
    let mac = MacAddr::multicast_for(IpAddr::V6(Ipv6Addr::new(
        0xff02, 0, 0, 0, 0, 0, 0xdead, 0xbeef,
    )));
    assert_eq!(mac.octets(), [0x33, 0x33, 0xde, 0xad, 0xbe, 0xef]);
}

#[test]
fn from_str_rejects_malformed() {
    for s in [
        "",
        "01:02:03",             // too few
        "01:02:03:04:05:06:07", // too many
        "1:2:3:4:5:6",          // one-digit octets
        "100:02:03:04:05:06",   // three-digit octet
        "01::03:04:05:06",      // empty octet
    ] {
        assert_eq!(s.parse::<MacAddr>(), Err(ParseMacAddrError), "{s:?}");
    }
}

#[test]
fn mac_display_zero_pads_octets() {
    let mac = MacAddr::from([0x01, 0x02, 0x03, 0x04, 0x05, 0x0a]);
    assert_eq!(mac.to_text(), "01:02:03:04:05:0a");
}

#[test]
fn mac_set_parses_a_csv_via_fromstr() {
    let set = "aa:bb:cc:dd:ee:01, aa:bb:cc:dd:ee:02"
        .parse::<MacSet>()
        .unwrap();
    assert_eq!(set.len(), 2);
    assert!(set.contains(&MacAddr::from([0xaa, 0xbb, 0xcc, 0xdd, 0xee, 0x01])));
    assert!(set.contains(&MacAddr::from([0xaa, 0xbb, 0xcc, 0xdd, 0xee, 0x02])));
    assert!(!set.contains(&MacAddr::from([0xaa, 0xbb, 0xcc, 0xdd, 0xee, 0x03])));
}

#[test]
fn mac_set_from_a_single_address() {
    let mac = MacAddr::from([0x01, 0x02, 0x03, 0x04, 0x05, 0x06]);
    let set = MacSet::from(mac);
    assert_eq!(set.as_slice(), &[mac]);
}

#[test]
fn mac_set_rejects_duplicates_and_bad_and_empty() {
    assert!(matches!(
        "aa:bb:cc:dd:ee:01,aa:bb:cc:dd:ee:01".parse::<MacSet>(),
        Err(MacSetError::Duplicate(_))
    ));
    assert!(matches!(
        "aa:bb:cc:dd:ee:01,zz".parse::<MacSet>(),
        Err(MacSetError::BadMac(bad)) if bad == "zz"
    ));
    // FromStr can't yield an empty list, so Empty is reachable only via TryFrom.
    assert!(matches!(
        MacSet::from_macs(Vec::<MacAddr>::new()),
        Err(MacSetError::Empty)
    ));
}

#[test]
fn a_mac_reads_back_from_its_text() {
    for octets in [[0; 6], [0xff; 6], [0x02, 0x00, 0x5e, 0x10, 0x09, 0xab]] {
        let mac = MacAddr::from(octets);
        assert_eq!(mac.to_text().parse::<MacAddr>(), Ok(mac));
    }
}

#[test]
fn parsed_text_is_the_text_in_lower_case() {
    for text in ["00:00:00:00:00:00", "AA:bB:0c:D1:eF:90", "ff:ff:ff:ff:ff:ff"] {
        let mac: MacAddr = text.parse().unwrap();
        assert_eq!(mac.to_text(), text.to_ascii_lowercase());
        assert_eq!(mac.to_text().parse(), Ok(mac));
    }
    for text in ["", "0:00:00:00:00:00", "+1:00:00:00:00:00", "00-00-00-00-00-00"] {
        assert!(text.parse::<MacAddr>().is_err());
    }
    let mac: MacAddr = "00:00:00:00:00:01".parse().unwrap();
    assert_eq!(MacSet::from(mac).as_slice(), &[mac]);
}
