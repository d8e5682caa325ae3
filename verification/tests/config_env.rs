//! Configuration from environment variables, alone and on top of a file's text.

use reflector::config::error::{ConfigError, ParseValueError, Protocol, RequiredField};
use reflector::config::value::LogLevel;
use reflector::config::Config;

fn env(pairs: &[(&str, &str)]) -> Vec<(String, String)> {
    pairs
        .iter()
        .map(|&(k, v)| (k.to_owned(), v.to_owned()))
        .collect()
}

fn from_env(pairs: &[(&str, &str)]) -> Result<Config, ConfigError> {
    Config::from_sources(None, &env(pairs))
}

#[test]
fn env_only_minimal_reflector() {
    let cfg = from_env(&[
        ("REFLECTOR_TV_SOURCE_IF", "lan"),
        ("REFLECTOR_TV_TARGET_IF", "iot"),
        ("REFLECTOR_TV_MDNS", "true"),
        ("PATH", "/usr/bin"), // non-REFLECTOR vars are ignored
    ])
    .unwrap();
    assert_eq!(cfg.reflectors.len(), 1);
    let r = &cfg.reflectors[0];
    assert_eq!(r.name.as_str(), "tv");
    assert_eq!(r.source_if.as_str(), "lan");
    assert_eq!(r.target_if.as_str(), "iot");
    assert!(r.mdns);
}

#[test]
fn env_globals_and_bool_forms() {
    let cfg = from_env(&[
        ("REFLECTOR_LOG_LEVEL", "debug"),
        ("REFLECTOR_DEBUG_MEMORY", "1"),
        ("REFLECTOR_TV_SOURCE_IF", "a"),
        ("REFLECTOR_TV_TARGET_IF", "b"),
        ("REFLECTOR_TV_WOL", "1"),
        ("REFLECTOR_TV_MDNS", "false"),
    ])
    .unwrap();
    assert_eq!(cfg.log_level, LogLevel::Debug);
    assert!(cfg.debug_memory);
    let r = &cfg.reflectors[0];
    assert!(r.wol.is_some());
    assert!(!r.mdns);
}

#[test]
fn env_name_overrides_label_not_key() {
    let cfg = from_env(&[
        ("REFLECTOR_TV_SOURCE_IF", "a"),
        ("REFLECTOR_TV_TARGET_IF", "b"),
        ("REFLECTOR_TV_MDNS", "true"),
        ("REFLECTOR_TV_NAME", "Living Room"),
    ])
    .unwrap();
    assert_eq!(cfg.reflectors[0].name.as_str(), "Living Room");
}

#[test]
fn env_wol_ports_csv() {
    let cfg = from_env(&[
        ("REFLECTOR_TV_SOURCE_IF", "a"),
        ("REFLECTOR_TV_TARGET_IF", "b"),
        ("REFLECTOR_TV_WOL", "true"),
        ("REFLECTOR_TV_WOL_PORTS", "7, 9, 4000"),
    ])
    .unwrap();
    let ports: Vec<u16> = cfg.reflectors[0]
        .wol
        .as_ref()
        .unwrap()
        .ports.as_slice().iter()
        .map(|p| p.get())
        .collect();
    assert_eq!(ports, [7, 9, 4000]);
}

#[test]
fn env_reuses_cross_field_validation() {
    let e = from_env(&[
        ("REFLECTOR_TV_SOURCE_IF", "a"),
        ("REFLECTOR_TV_TARGET_IF", "a"),
        ("REFLECTOR_TV_MDNS", "true"),
    ])
    .unwrap_err();
    assert!(matches!(e, ConfigError::SameInterface { value, .. } if value.as_str() == "a"));
}

#[test]
fn env_overrides_file_globals() {
    let text = r#"
        log_level = "info"
        [reflectors.tv]
        source_if = "a"
        target_if = "b"
        mdns = true
    "#;
    let cfg =
        Config::from_sources(Some(text), &env(&[("REFLECTOR_LOG_LEVEL", "error")])).unwrap();
    assert_eq!(cfg.log_level, LogLevel::Error);
}

#[test]
fn env_adds_reflector_alongside_file() {
    let text = r#"
        [reflectors.tv]
        source_if = "a"
        target_if = "b"
        mdns = true
    "#;
    let cfg = Config::from_sources(
        Some(text),
        &env(&[
            ("REFLECTOR_RADIO_SOURCE_IF", "c"),
            ("REFLECTOR_RADIO_TARGET_IF", "d"),
            ("REFLECTOR_RADIO_MDNS", "true"),
        ]),
    )
    .unwrap();
    let mut names: Vec<&str> = cfg.reflectors.iter().map(|r| r.name.as_str()).collect();
    names.sort_unstable();
    assert_eq!(names, ["radio", "tv"]);
}

#[test]
fn duplicate_reflector_across_sources_rejected() {
    let text = r#"
        [reflectors.tv]
        source_if = "a"
        target_if = "b"
        mdns = true
    "#;
    // Lowercased env tag "TV" collides with file key "tv".
    let e = Config::from_sources(
        Some(text),
        &env(&[
            ("REFLECTOR_TV_SOURCE_IF", "c"),
            ("REFLECTOR_TV_TARGET_IF", "d"),
            ("REFLECTOR_TV_MDNS", "true"),
        ]),
    )
    .unwrap_err();
    assert!(matches!(e, ConfigError::DuplicateReflector { name } if name == "tv"));
}

#[test]
fn env_malformed_var_rejected() {
    // No underscore to split into <tag>_<param>.
    assert!(matches!(
        from_env(&[("REFLECTOR_TV", "x")]).unwrap_err(),
        ConfigError::EnvMalformedVar { .. }
    ));
}

#[test]
fn env_invalid_tag_rejected() {
    // Empty tag.
    assert!(matches!(
        from_env(&[("REFLECTOR__SOURCE_IF", "x")]).unwrap_err(),
        ConfigError::EnvInvalidTag { .. }
    ));
    // Non-alphanumeric tag.
    assert!(matches!(
        from_env(&[("REFLECTOR_T-V_SOURCE_IF", "x")]).unwrap_err(),
        ConfigError::EnvInvalidTag { tag, .. } if tag == "T-V"
    ));
}

#[test]
fn env_reserved_tag_rejected() {
    assert!(matches!(
        from_env(&[("REFLECTOR_LOG_SOMETHING", "x")]).unwrap_err(),
        ConfigError::EnvReservedTag { .. }
    ));
}

#[test]
fn env_unknown_param_rejected() {
    assert!(matches!(
        from_env(&[
            ("REFLECTOR_TV_SOURCE_IF", "a"),
            ("REFLECTOR_TV_BOGUS", "1"),
        ])
        .unwrap_err(),
        ConfigError::EnvUnknownParam { param, .. } if param == "bogus"
    ));
}

#[test]
fn env_bad_value_is_structured() {
    assert!(matches!(
        from_env(&[
            ("REFLECTOR_TV_SOURCE_IF", ""),
            ("REFLECTOR_TV_TARGET_IF", "b"),
            ("REFLECTOR_TV_MDNS", "true"),
        ])
        .unwrap_err(),
        ConfigError::EnvBadValue {
            source: ParseValueError::Interface(_),
            ..
        }
    ));
    assert!(matches!(
        from_env(&[("REFLECTOR_TV_MAC", "zz")]).unwrap_err(),
        ConfigError::EnvBadValue {
            source: ParseValueError::Mac(_),
            ..
        }
    ));
    assert!(matches!(
        from_env(&[("REFLECTOR_TV_WOL", "maybe")]).unwrap_err(),
        ConfigError::EnvBadValue {
            value,
            source: ParseValueError::Bool(_),
            ..
        } if value == "maybe"
    ));
}

#[test]
fn env_reflector_missing_required_field() {
    assert!(matches!(
        from_env(&[
            ("REFLECTOR_TV_TARGET_IF", "b"),
            ("REFLECTOR_TV_MDNS", "true"),
        ])
        .unwrap_err(),
        ConfigError::EnvMissingField {
            field: RequiredField::SourceIf,
            ..
        }
    ));
}

#[test]
fn env_only_no_reflectors_rejected() {
    assert!(matches!(
        Config::from_sources(None, &env(&[("REFLECTOR_LOG_LEVEL", "info")])).unwrap_err(),
        ConfigError::NoReflectors
    ));
}

#[test]
fn env_name_is_trimmed() {
    let cfg = from_env(&[
        ("REFLECTOR_TV_SOURCE_IF", "a"),
        ("REFLECTOR_TV_TARGET_IF", "b"),
        ("REFLECTOR_TV_MDNS", "true"),
        ("REFLECTOR_TV_NAME", "  Living Room  "),
    ])
    .unwrap();
    assert_eq!(cfg.reflectors[0].name.as_str(), "Living Room");
}

#[test]
fn conflict_detected_across_sources() {
    let text = r#"
        [reflectors.tv]
        source_if = "lan"
        target_if = "iot"
        mdns = true
    "#;
    // Env reflector "radio" bridges the same interfaces with mDNS.
    let e = Config::from_sources(
        Some(text),
        &env(&[
            ("REFLECTOR_RADIO_SOURCE_IF", "lan"),
            ("REFLECTOR_RADIO_TARGET_IF", "iot"),
            ("REFLECTOR_RADIO_MDNS", "true"),
        ]),
    )
    .unwrap_err();
    assert!(matches!(
        e,
        ConfigError::ConflictingReflectors {
            protocol: Protocol::Mdns,
            ..
        }
    ));
}

#[test]
fn env_whitespace_name_rejected() {
    assert!(matches!(
        from_env(&[
            ("REFLECTOR_TV_SOURCE_IF", "a"),
            ("REFLECTOR_TV_TARGET_IF", "b"),
            ("REFLECTOR_TV_MDNS", "true"),
            ("REFLECTOR_TV_NAME", "   "),
        ])
        .unwrap_err(),
        ConfigError::EnvBadValue {
            source: ParseValueError::ReflectorName(_),
            ..
        }
    ));
}
