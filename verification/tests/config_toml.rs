//! Configuration from a file's text alone, without an environment.

use reflector::config::error::{ConfigError, Protocol};
use reflector::config::value::{AddressFamily, LogLevel};
use reflector::config::Config;

fn err(text: &str) -> ConfigError {
    Config::from_toml_str(text).unwrap_err()
}

#[test]
fn mod_minimal_reflector_uses_defaults() {
    let cfg = Config::from_toml_str(
        r#"
        [reflectors.discovery]
        source_if = "lan"
        target_if = "iot"
        mdns = true
        "#,
    )
    .unwrap();
    assert_eq!(cfg.log_level, LogLevel::Info);
    assert!(!cfg.debug_memory);
    assert_eq!(cfg.reflectors.len(), 1);
    let r = &cfg.reflectors[0];
    assert_eq!(r.name.as_str(), "discovery");
    assert_eq!(r.source_if.as_str(), "lan");
    assert_eq!(r.target_if.as_str(), "iot");
    assert!(r.mdns);
    assert!(r.macs.is_none());
    assert_eq!(r.address_family, AddressFamily::Default);
    assert!(r.wol.is_none());
    assert!(r.ssdp.is_none());
}

#[test]
fn mod_wol_defaults_to_ports_7_and_9() {
    let cfg = Config::from_toml_str(
        r#"
        [reflectors.w]
        source_if = "a"
        target_if = "b"
        wol = true
        "#,
    )
    .unwrap();
    let ports: Vec<u16> = cfg.reflectors[0]
        .wol
        .as_ref()
        .unwrap()
        .ports.as_slice().iter()
        .map(|p| p.get())
        .collect();
    assert_eq!(ports, [7, 9]);
}

#[test]
fn mod_multiple_reflectors_parse() {
    let cfg = Config::from_toml_str(
        r#"
        [reflectors.zebra]
        source_if = "a"
        target_if = "b"
        mdns = true

        [reflectors.alpha]
        source_if = "a"
        target_if = "c"
        mdns = true
        "#,
    )
    .unwrap();
    let mut names: Vec<&str> = cfg.reflectors.iter().map(|r| r.name.as_str()).collect();
    names.sort_unstable();
    assert_eq!(names, ["alpha", "zebra"]);
}

#[test]
fn mod_empty_config_is_rejected() {
    assert!(matches!(err(""), ConfigError::NoReflectors));
}

#[test]
fn mod_invalid_log_level() {
    let text = r#"
        log_level = "verbose"
        [reflectors.x]
        source_if = "a"
        target_if = "b"
        mdns = true
    "#;
    assert!(matches!(err(text), ConfigError::Parse(_)));
}

#[test]
fn mod_reflector_with_no_protocol() {
    let text = r#"
        [reflectors.x]
        source_if = "a"
        target_if = "b"
    "#;
    assert!(matches!(err(text), ConfigError::NoProtocol { name } if name.as_str() == "x"));
}

#[test]
fn mod_source_and_target_must_differ() {
    let text = r#"
        [reflectors.x]
        source_if = "same"
        target_if = "same"
        mdns = true
    "#;
    assert!(
        matches!(err(text), ConfigError::SameInterface { value, .. } if value.as_str() == "same")
    );
}

#[test]
fn mod_missing_source_if() {
    let text = r#"
        [reflectors.x]
        target_if = "b"
        mdns = true
    "#;
    assert!(matches!(err(text), ConfigError::Parse(_)));
}

#[test]
fn mod_empty_source_if() {
    let text = r#"
        [reflectors.x]
        source_if = ""
        target_if = "b"
        mdns = true
    "#;
    assert!(matches!(err(text), ConfigError::Parse(_)));
}

#[test]
fn mod_missing_target_if() {
    let text = r#"
        [reflectors.x]
        source_if = "a"
        mdns = true
    "#;
    assert!(matches!(err(text), ConfigError::Parse(_)));
}

#[test]
fn mod_empty_target_if() {
    let text = r#"
        [reflectors.x]
        source_if = "a"
        target_if = ""
        mdns = true
    "#;
    assert!(matches!(err(text), ConfigError::Parse(_)));
}

#[test]
fn mod_wol_ports_without_wol() {
    let text = r#"
        [reflectors.x]
        source_if = "a"
        target_if = "b"
        mdns = true
        wol_ports = [7]
    "#;
    assert!(matches!(err(text), ConfigError::WolPortsWithoutWol { .. }));
}

#[test]
fn mod_dial_without_ssdp() {
    let text = r#"
        [reflectors.x]
        source_if = "a"
        target_if = "b"
        mdns = true
        dial = true
    "#;
    assert!(matches!(err(text), ConfigError::DialWithoutSsdp { .. }));
}

#[test]
fn mod_dial_requires_ipv4() {
    let text = r#"
        [reflectors.x]
        source_if = "a"
        target_if = "b"
        ssdp = true
        dial = true
        address_family = "ipv6"
    "#;
    assert!(matches!(err(text), ConfigError::DialRequiresIpv4 { .. }));
}

#[test]
fn mod_wol_port_zero_rejected() {
    let text = r#"
        [reflectors.x]
        source_if = "a"
        target_if = "b"
        wol = true
        wol_ports = [0]
    "#;
    assert!(matches!(err(text), ConfigError::Parse(_)));
}

#[test]
fn mod_duplicate_wol_port_rejected() {
    let text = r#"
        [reflectors.x]
        source_if = "a"
        target_if = "b"
        wol = true
        wol_ports = [7, 7]
    "#;
    assert!(matches!(err(text), ConfigError::Parse(_)));
}

#[test]
fn mod_empty_wol_ports_rejected() {
    let text = r#"
        [reflectors.x]
        source_if = "a"
        target_if = "b"
        wol = true
        wol_ports = []
    "#;
    assert!(matches!(err(text), ConfigError::Parse(_)));
}

#[test]
fn mod_wol_port_out_of_range_rejected() {
    let text = r#"
        [reflectors.x]
        source_if = "a"
        target_if = "b"
        wol = true
        wol_ports = [70000]
    "#;
    assert!(matches!(err(text), ConfigError::Parse(_)));
}

#[test]
fn mod_invalid_mac() {
    let text = r#"
        [reflectors.x]
        source_if = "a"
        target_if = "b"
        mdns = true
        mac = "zz:zz:zz:zz:zz:zz"
    "#;
    assert!(matches!(err(text), ConfigError::Parse(_)));
}

#[test]
fn mod_invalid_address_family() {
    let text = r#"
        [reflectors.x]
        source_if = "a"
        target_if = "b"
        mdns = true
        address_family = "ipv5"
    "#;
    assert!(matches!(err(text), ConfigError::Parse(_)));
}

#[test]
fn mod_unknown_reflector_key_rejected() {
    let text = r#"
        [reflectors.x]
        source_if = "a"
        target_if = "b"
        mdns = true
        typo = true
    "#;
    assert!(matches!(err(text), ConfigError::Parse(_)));
}

#[test]
fn mod_unknown_top_level_key_rejected() {
    let text = r#"
        log_levle = "info"

        [reflectors.x]
        source_if = "a"
        target_if = "b"
        mdns = true
    "#;
    assert!(matches!(err(text), ConfigError::Parse(_)));
}

#[test]
fn mod_top_level_reflector_table_is_rejected() {
    // Reflectors must be nested under [reflectors.<name>], not top-level tables.
    let text = r#"
        [tv]
        source_if = "a"
        target_if = "b"
        mdns = true
    "#;
    assert!(matches!(err(text), ConfigError::Parse(_)));
}

#[test]
fn mod_empty_file_reflector_key_rejected() {
    let text = r#"
        [reflectors.""]
        source_if = "a"
        target_if = "b"
        mdns = true
    "#;
    assert!(matches!(err(text), ConfigError::EmptyReflectorName { .. }));
}

#[test]
fn mod_whitespace_file_reflector_key_rejected() {
    let text = r#"
        [reflectors."   "]
        source_if = "a"
        target_if = "b"
        mdns = true
    "#;
    assert!(matches!(err(text), ConfigError::EmptyReflectorName { .. }));
}

#[test]
fn mod_conflicting_mdns_reflectors_rejected() {
    let text = r#"
        [reflectors.a]
        source_if = "lan"
        target_if = "iot"
        mdns = true

        [reflectors.b]
        source_if = "lan"
        target_if = "iot"
        mdns = true
    "#;
    assert!(matches!(
        err(text),
        ConfigError::ConflictingReflectors {
            protocol: Protocol::Mdns,
            ..
        }
    ));
}

#[test]
fn mod_reverse_direction_does_not_conflict() {
    // lan->iot and iot->lan reflect opposite directions; not a duplicate.
    let text = r#"
        [reflectors.a]
        source_if = "lan"
        target_if = "iot"
        mdns = true

        [reflectors.b]
        source_if = "iot"
        target_if = "lan"
        mdns = true
    "#;
    assert!(Config::from_toml_str(text).is_ok());
}

#[test]
fn mod_different_protocols_do_not_conflict() {
    let text = r#"
        [reflectors.a]
        source_if = "lan"
        target_if = "iot"
        mdns = true

        [reflectors.b]
        source_if = "lan"
        target_if = "iot"
        wol = true
    "#;
    assert!(Config::from_toml_str(text).is_ok());
}

#[test]
fn mod_disjoint_address_families_do_not_conflict() {
    let text = r#"
        [reflectors.a]
        source_if = "lan"
        target_if = "iot"
        mdns = true
        address_family = "ipv4"

        [reflectors.b]
        source_if = "lan"
        target_if = "iot"
        mdns = true
        address_family = "ipv6"
    "#;
    assert!(Config::from_toml_str(text).is_ok());
}

#[test]
fn mod_overlapping_wol_ports_conflict() {
    let text = r#"
        [reflectors.a]
        source_if = "lan"
        target_if = "iot"
        wol = true
        wol_ports = [7, 9]

        [reflectors.b]
        source_if = "lan"
        target_if = "iot"
        wol = true
        wol_ports = [9, 4000]
    "#;
    assert!(matches!(
        err(text),
        ConfigError::ConflictingReflectors {
            protocol: Protocol::Wol,
            ..
        }
    ));
}

#[test]
fn mod_disjoint_wol_ports_do_not_conflict() {
    let text = r#"
        [reflectors.a]
        source_if = "lan"
        target_if = "iot"
        wol = true
        wol_ports = [7, 9]

        [reflectors.b]
        source_if = "lan"
        target_if = "iot"
        wol = true
        wol_ports = [4000]
    "#;
    assert!(Config::from_toml_str(text).is_ok());
}
