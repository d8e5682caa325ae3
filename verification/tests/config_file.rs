//! Configuration from a file's text.

use reflector::config::error::{ConfigError, Protocol};
use reflector::config::value::{AddressFamily, LogLevel};
use reflector::config::Config;
use reflector::net::mac::MacAddr;

fn from_toml(text: &str) -> Result<Config, ConfigError> {
    Config::from_sources(Some(text), &[])
}

fn err(text: &str) -> ConfigError {
    from_toml(text).unwrap_err()
}

#[test]
fn config_minimal_reflector_uses_defaults() {
    let cfg = from_toml(
        r#"
        [reflectors.discovery]
        source_if = "lan"
        target_if = "iot"
        mdns = true
        "#,
    )
    .unwrap();
    assert_eq!(cfg.log_level, LogLevel::Info);
    assert!(!cfg.debug_memory);
    assert_eq!(cfg.reflectors.len(), 1);
    let r = &cfg.reflectors[0];
    assert_eq!(r.name.as_str(), "discovery");
    assert_eq!(r.source_if.as_str(), "lan");
    assert_eq!(r.target_if.as_str(), "iot");
    assert!(r.mdns);
    assert!(r.macs.is_none());
    assert_eq!(r.address_family, AddressFamily::Default);
    assert!(r.wol.is_none());
    assert!(r.ssdp.is_none());
}

#[test]
fn config_full_reflector_parses() {
    let cfg = from_toml(
        r#"
        log_level = "DEBUG"
        debug_memory = true

        [reflectors.tv]
        source_if = "en0"
        target_if = "lo0"
        macs = ["B0:37:95:C5:60:BE"]
        wol = true
        mdns = true
        ssdp = true
        dial = true
        wol_ports = [7, 9, 4000]
        address_family = "dual"
        "#,
    )
    .unwrap();
    assert_eq!(cfg.log_level, LogLevel::Debug);
    assert!(cfg.debug_memory);
    assert_eq!(cfg.reflectors.len(), 1);
    let r = &cfg.reflectors[0];
    assert_eq!(r.name.as_str(), "tv");
    assert_eq!(r.source_if.as_str(), "en0");
    assert_eq!(r.target_if.as_str(), "lo0");
    let macs = r.macs.as_ref().unwrap();
    assert_eq!(macs.len(), 1);
    assert_eq!(macs.as_slice()[0].to_text(), "b0:37:95:c5:60:be");
    let wol = r.wol.as_ref().unwrap();
    assert!(r.mdns);
    let ssdp = r.ssdp.unwrap();
    assert!(ssdp.dial);
    assert_eq!(
        wol.ports.as_slice().iter().map(|p| p.get()).collect::<Vec<_>>(),
        [7, 9, 4000]
    );
    assert_eq!(r.address_family, AddressFamily::Dual);
}

#[test]
fn config_wol_defaults_to_ports_7_and_9() {
    let cfg = from_toml(
        r#"
        [reflectors.w]
        source_if = "a"
        target_if = "b"
        wol = true
        "#,
    )
    .unwrap();
    let ports: Vec<u16> = cfg.reflectors[0]
        .wol
        .as_ref()
        .unwrap()
        .ports.as_slice().iter()
        .map(|p| p.get())
        .collect();
    assert_eq!(ports, [7, 9]);
}

#[test]
fn config_multiple_reflectors_parse() {
    let cfg = from_toml(
        r#"
        [reflectors.zebra]
        source_if = "a"
        target_if = "b"
        mdns = true

        [reflectors.alpha]
        source_if = "a"
        target_if = "c"
        mdns = true
        "#,
    )
    .unwrap();
    let mut names: Vec<&str> = cfg.reflectors.iter().map(|r| r.name.as_str()).collect();
    names.sort_unstable();
    assert_eq!(names, ["alpha", "zebra"]);
}

#[test]
fn config_empty_config_is_rejected() {
    assert!(matches!(err(""), ConfigError::NoReflectors));
}

#[test]
fn config_invalid_log_level() {
    let text = r#"
        log_level = "verbose"
        [reflectors.x]
        source_if = "a"
        target_if = "b"
        mdns = true
    "#;
    assert!(matches!(err(text), ConfigError::Parse(_)));
}

#[test]
fn config_reflector_with_no_protocol() {
    let text = r#"
        [reflectors.x]
        source_if = "a"
        target_if = "b"
    "#;
    assert!(matches!(err(text), ConfigError::NoProtocol { name } if name.as_str() == "x"));
}

#[test]
fn config_source_and_target_must_differ() {
    let text = r#"
        [reflectors.x]
        source_if = "same"
        target_if = "same"
        mdns = true
    "#;
    assert!(
        matches!(err(text), ConfigError::SameInterface { value, .. } if value.as_str() == "same")
    );
}

#[test]
fn config_missing_source_if() {
    let text = r#"
        [reflectors.x]
        target_if = "b"
        mdns = true
    "#;
    assert!(matches!(err(text), ConfigError::Parse(_)));
}

#[test]
fn config_empty_source_if() {
    let text = r#"
        [reflectors.x]
        source_if = ""
        target_if = "b"
        mdns = true
    "#;
    assert!(matches!(err(text), ConfigError::Parse(_)));
}

#[test]
fn config_missing_target_if() {
    let text = r#"
        [reflectors.x]
        source_if = "a"
        mdns = true
    "#;
    assert!(matches!(err(text), ConfigError::Parse(_)));
}

#[test]
fn config_empty_target_if() {
    let text = r#"
        [reflectors.x]
        source_if = "a"
        target_if = ""
        mdns = true
    "#;
    assert!(matches!(err(text), ConfigError::Parse(_)));
}

#[test]
fn config_wol_ports_without_wol() {
    let text = r#"
        [reflectors.x]
        source_if = "a"
        target_if = "b"
        mdns = true
        wol_ports = [7]
    "#;
    assert!(matches!(err(text), ConfigError::WolPortsWithoutWol { .. }));
}

#[test]
fn config_dial_without_ssdp() {
    let text = r#"
        [reflectors.x]
        source_if = "a"
        target_if = "b"
        mdns = true
        dial = true
    "#;
    assert!(matches!(err(text), ConfigError::DialWithoutSsdp { .. }));
}

#[test]
fn config_dial_requires_ipv4() {
    let text = r#"
        [reflectors.x]
        source_if = "a"
        target_if = "b"
        ssdp = true
        dial = true
        address_family = "ipv6"
    "#;
    assert!(matches!(err(text), ConfigError::DialRequiresIpv4 { .. }));
}

#[test]
fn config_wol_port_zero_rejected() {
    let text = r#"
        [reflectors.x]
        source_if = "a"
        target_if = "b"
        wol = true
        wol_ports = [0]
    "#;
    assert!(matches!(err(text), ConfigError::Parse(_)));
}

#[test]
fn config_duplicate_wol_port_rejected() {
    let text = r#"
        [reflectors.x]
        source_if = "a"
        target_if = "b"
        wol = true
        wol_ports = [7, 7]
    "#;
    assert!(matches!(err(text), ConfigError::Parse(_)));
}

#[test]
fn config_empty_wol_ports_rejected() {
    let text = r#"
        [reflectors.x]
        source_if = "a"
        target_if = "b"
        wol = true
        wol_ports = []
    "#;
    assert!(matches!(err(text), ConfigError::Parse(_)));
}

#[test]
fn config_wol_port_out_of_range_rejected() {
    let text = r#"
        [reflectors.x]
        source_if = "a"
        target_if = "b"
        wol = true
        wol_ports = [70000]
    "#;
    assert!(matches!(err(text), ConfigError::Parse(_)));
}

#[test]
fn config_invalid_mac() {
    let text = r#"
        [reflectors.x]
        source_if = "a"
        target_if = "b"
        mdns = true
        macs = ["zz:zz:zz:zz:zz:zz"]
    "#;
    assert!(matches!(err(text), ConfigError::Parse(_)));
}

#[test]
fn config_invalid_address_family() {
    let text = r#"
        [reflectors.x]
        source_if = "a"
        target_if = "b"
        mdns = true
        address_family = "ipv5"
    "#;
    assert!(matches!(err(text), ConfigError::Parse(_)));
}

#[test]
fn config_unknown_reflector_key_rejected() {
    let text = r#"
        [reflectors.x]
        source_if = "a"
        target_if = "b"
        mdns = true
        typo = true
    "#;
    assert!(matches!(err(text), ConfigError::Parse(_)));
}

#[test]
fn config_unknown_top_level_key_rejected() {
    let text = r#"
        log_levle = "info"

        [reflectors.x]
        source_if = "a"
        target_if = "b"
        mdns = true
    "#;
    assert!(matches!(err(text), ConfigError::Parse(_)));
}

#[test]
fn config_top_level_reflector_table_is_rejected() {
    // Reflectors must be nested under [reflectors.<name>], not top-level tables.
    let text = r#"
        [tv]
        source_if = "a"
        target_if = "b"
        mdns = true
    "#;
    assert!(matches!(err(text), ConfigError::Parse(_)));
}

#[test]
fn config_empty_file_reflector_key_rejected() {
    let text = r#"
        [reflectors.""]
        source_if = "a"
        target_if = "b"
        mdns = true
    "#;
    assert!(matches!(err(text), ConfigError::EmptyReflectorName { .. }));
}

#[test]
fn config_whitespace_file_reflector_key_rejected() {
    let text = r#"
        [reflectors."   "]
        source_if = "a"
        target_if = "b"
        mdns = true
    "#;
    assert!(matches!(err(text), ConfigError::EmptyReflectorName { .. }));
}

#[test]
fn config_conflicting_mdns_reflectors_rejected() {
    let text = r#"
        [reflectors.a]
        source_if = "lan"
        target_if = "iot"
        mdns = true

        [reflectors.b]
        source_if = "lan"
        target_if = "iot"
        mdns = true
    "#;
    assert!(matches!(
        err(text),
        ConfigError::ConflictingReflectors {
            protocol: Protocol::Mdns,
            ..
        }
    ));
}

#[test]
fn config_reverse_direction_does_not_conflict() {
    // lan->iot and iot->lan reflect opposite directions; not a duplicate.
    let text = r#"
        [reflectors.a]
        source_if = "lan"
        target_if = "iot"
        mdns = true

        [reflectors.b]
        source_if = "iot"
        target_if = "lan"
        mdns = true
    "#;
    assert!(from_toml(text).is_ok());
}

#[test]
fn config_different_protocols_do_not_conflict() {
    let text = r#"
        [reflectors.a]
        source_if = "lan"
        target_if = "iot"
        mdns = true

        [reflectors.b]
        source_if = "lan"
        target_if = "iot"
        wol = true
    "#;
    assert!(from_toml(text).is_ok());
}

#[test]
fn config_distinct_macs_do_not_conflict() {
    let text = r#"
        [reflectors.a]
        source_if = "lan"
        target_if = "iot"
        mdns = true
        macs = ["00:00:00:00:00:01"]

        [reflectors.b]
        source_if = "lan"
        target_if = "iot"
        mdns = true
        macs = ["00:00:00:00:00:02"]
    "#;
    assert!(from_toml(text).is_ok());
}

#[test]
fn omitted_macs_conflicts_with_any() {
    // An absent MAC filter matches any device, so it overlaps a specific one.
    let text = r#"
        [reflectors.a]
        source_if = "lan"
        target_if = "iot"
        mdns = true
        macs = ["00:00:00:00:00:01"]

        [reflectors.b]
        source_if = "lan"
        target_if = "iot"
        mdns = true
    "#;
    assert!(matches!(
        err(text),
        ConfigError::ConflictingReflectors {
            protocol: Protocol::Mdns,
            ..
        }
    ));
}

#[test]
fn macs_list_parses() {
    let cfg = from_toml(
        r#"
        [reflectors.tv]
        source_if = "lan"
        target_if = "iot"
        mdns = true
        macs = ["00:00:00:00:00:01", "00:00:00:00:00:02"]
        "#,
    )
    .unwrap();
    let macs = cfg.reflectors[0].macs.as_ref().unwrap();
    assert_eq!(macs.len(), 2);
    assert!(macs.contains(&"00:00:00:00:00:01".parse::<MacAddr>().unwrap()));
    assert!(macs.contains(&"00:00:00:00:00:02".parse::<MacAddr>().unwrap()));
}

#[test]
fn legacy_mac_field_is_now_unknown() {
    // A reflector of the file lists its devices under `macs`; `mac` is no field.
    let text = r#"
        [reflectors.tv]
        source_if = "lan"
        target_if = "iot"
        mdns = true
        mac = "02:42:ac:11:00:09"
    "#;
    assert!(matches!(err(text), ConfigError::Parse(_)));
}

#[test]
fn empty_macs_list_rejected() {
    let text = r#"
        [reflectors.tv]
        source_if = "lan"
        target_if = "iot"
        mdns = true
        macs = []
    "#;
    assert!(matches!(err(text), ConfigError::Parse(_)));
}

#[test]
fn overlapping_macs_sets_conflict() {
    // The two allow-sets share 00:..:02, so both would reflect that device's mDNS.
    let text = r#"
        [reflectors.a]
        source_if = "lan"
        target_if = "iot"
        mdns = true
        macs = ["00:00:00:00:00:01", "00:00:00:00:00:02"]

        [reflectors.b]
        source_if = "lan"
        target_if = "iot"
        mdns = true
        macs = ["00:00:00:00:00:02", "00:00:00:00:00:03"]
    "#;
    assert!(matches!(
        err(text),
        ConfigError::ConflictingReflectors {
            protocol: Protocol::Mdns,
            ..
        }
    ));
}

#[test]
fn disjoint_macs_sets_do_not_conflict() {
    let text = r#"
        [reflectors.a]
        source_if = "lan"
        target_if = "iot"
        mdns = true
        macs = ["00:00:00:00:00:01", "00:00:00:00:00:02"]

        [reflectors.b]
        source_if = "lan"
        target_if = "iot"
        mdns = true
        macs = ["00:00:00:00:00:03", "00:00:00:00:00:04"]
    "#;
    assert!(from_toml(text).is_ok());
}

#[test]
fn config_disjoint_address_families_do_not_conflict() {
    let text = r#"
        [reflectors.a]
        source_if = "lan"
        target_if = "iot"
        mdns = true
        address_family = "ipv4"

        [reflectors.b]
        source_if = "lan"
        target_if = "iot"
        mdns = true
        address_family = "ipv6"
    "#;
    assert!(from_toml(text).is_ok());
}

#[test]
fn config_overlapping_wol_ports_conflict() {
    let text = r#"
        [reflectors.a]
        source_if = "lan"
        target_if = "iot"
        wol = true
        wol_ports = [7, 9]

        [reflectors.b]
        source_if = "lan"
        target_if = "iot"
        wol = true
        wol_ports = [9, 4000]
    "#;
    assert!(matches!(
        err(text),
        ConfigError::ConflictingReflectors {
            protocol: Protocol::Wol,
            ..
        }
    ));
}

#[test]
fn config_disjoint_wol_ports_do_not_conflict() {
    let text = r#"
        [reflectors.a]
        source_if = "lan"
        target_if = "iot"
        wol = true
        wol_ports = [7, 9]

        [reflectors.b]
        source_if = "lan"
        target_if = "iot"
        wol = true
        wol_ports = [4000]
    "#;
    assert!(from_toml(text).is_ok());
}
