//! Where a configuration comes from, and how its sources combine.

use reflector::config::document::{read_document, DocKind, DocValue, Field, Place};
use reflector::config::messages::{location, Location};
use reflector::config::error::{ConfigError, DocumentError, Expected, ParseValueError, RequiredField};
use reflector::config::value::LogLevel;
use reflector::config::{
    log_level_of_document, protocol_list, resolve_log_level, Config, ConfigFile,
};

fn env(pairs: &[(&str, &str)]) -> Vec<(String, String)> {
    pairs
        .iter()
        .map(|&(k, v)| (k.to_owned(), v.to_owned()))
        .collect()
}

fn document_error(text: &str) -> DocumentError {
    match Config::from_toml_str(text) {
        Err(ConfigError::Parse(e)) => e,
        other => panic!("expected a parse error, not {other:?}"),
    }
}

const TV: &str = r#"
    log_level = "debug"
    [reflectors.tv]
    source_if = "lan"
    target_if = "iot"
    mdns = true
"#;

#[test]
fn a_file_that_cannot_be_read_is_reported() {
    let file = ConfigFile {
        path: "/etc/reflector.toml".to_owned(),
        text: Err("permission denied".to_owned()),
    };
    assert_eq!(
        Config::load(Some(file), &[]),
        Err(ConfigError::ReadFile {
            path: "/etc/reflector.toml".to_owned(),
            message: "permission denied".to_owned()
        })
    );
}

#[test]
fn a_file_is_loaded_with_the_environment_on_top() {
    let file = || ConfigFile {
        path: "reflector.toml".to_owned(),
        text: Ok(TV.to_owned()),
    };
    let config = Config::load(Some(file()), &[]).unwrap();
    assert_eq!(config.log_level, LogLevel::Debug);
    let config = Config::load(Some(file()), &env(&[("REFLECTOR_LOG_LEVEL", "error")])).unwrap();
    assert_eq!(config.log_level, LogLevel::Error);
    assert_eq!(config.reflectors[0].name.as_str(), "tv");
    assert_eq!(Config::load(None, &[]), Err(ConfigError::NoReflectors));
}

#[test]
fn the_log_level_is_resolved_without_the_rest() {
    // A reflector that would be refused does not matter yet.
    let text = r#"
        log_level = "trace"
        bogus = 1
        [reflectors.tv]
    "#;
    assert_eq!(resolve_log_level(Some(text), &[]), Ok(LogLevel::Trace));
    assert_eq!(
        resolve_log_level(Some(text), &env(&[("REFLECTOR_LOG_LEVEL", "off")])),
        Ok(LogLevel::Off)
    );
    assert_eq!(resolve_log_level(None, &[]), Ok(LogLevel::Info));
    assert_eq!(resolve_log_level(Some(""), &[]), Ok(LogLevel::Info));
    assert!(matches!(
        resolve_log_level(Some("log_level = 3"), &[]),
        Err(ConfigError::Parse(_))
    ));
    assert!(matches!(
        resolve_log_level(Some("log_level ="), &[]),
        Err(ConfigError::Parse(DocumentError::Syntax(_)))
    ));
    assert!(matches!(
        resolve_log_level(None, &env(&[("REFLECTOR_LOG_LEVEL", "loud")])),
        Err(ConfigError::EnvBadValue {
            source: ParseValueError::LogLevel(_),
            ..
        })
    ));
}

#[test]
fn the_early_log_level_is_the_configured_one() {
    for vars in [env(&[]), env(&[("REFLECTOR_LOG_LEVEL", "warning")])] {
        let config = Config::from_sources(Some(TV), &vars).unwrap();
        assert_eq!(resolve_log_level(Some(TV), &vars), Ok(config.log_level));
    }
}

#[test]
fn an_empty_environment_changes_nothing() {
    assert_eq!(
        Config::from_sources(Some(TV), &[]),
        Config::from_toml_str(TV)
    );
    assert_eq!(
        Config::from_sources(Some(TV), &env(&[("PATH", "/bin")])),
        Config::from_toml_str(TV)
    );
}

#[test]
fn documents_are_taken_over_field_by_field() {
    let list = read_document("b = true\n[t]\nn = -7\nl = [\"x\", 1.5]\n").unwrap();
    assert_eq!(list.len(), 2);
    assert_eq!(list[0].key, "b");
    assert!(matches!(list[0].value.kind, DocKind::Boolean(true)));
    assert_eq!(list[1].key, "t");
    let DocKind::Table(fields) = &list[1].value.kind else {
        panic!("expected a table");
    };
    let number = fields.iter().find(|f| f.key == "n").unwrap();
    assert!(matches!(&number.value.kind, DocKind::Integer { digits, radix: 10 } if digits == "-7"));
    let items = fields.iter().find(|f| f.key == "l").unwrap();
    let DocKind::List(items) = &items.value.kind else {
        panic!("expected a list");
    };
    assert!(matches!(&items[0].kind, DocKind::Text(s) if s == "x"));
    assert!(matches!(items[1].kind, DocKind::Float));
    // b = true / [t] / n = -7 / l = ["x", 1.5]
    assert_eq!(list[0].value.place, Place { key: 0, value: 4 });
    assert_eq!(number.value.place, Place { key: 13, value: 17 });
    assert_eq!(items[0].place, Place { key: 25, value: 25 });
    assert_eq!(items[1].place, Place { key: 30, value: 30 });
    assert!(read_document("= 1").is_err());
}

#[test]
fn a_document_of_fields_makes_a_configuration() {
    let value = |kind| DocValue {
        place: Place { key: 3, value: 7 },
        kind,
    };
    let field = |key: &str, kind| Field {
        key: key.to_owned(),
        value: value(kind),
    };
    let text = |s: &str| DocKind::Text(s.to_owned());
    let reflector = DocKind::Table(vec![
        field("source_if", text("lan")),
        field("target_if", text("iot")),
        field("ssdp", DocKind::Boolean(true)),
        field("dial", DocKind::Boolean(true)),
    ]);
    let document = || {
        Some(Ok(vec![
            field("debug_memory", DocKind::Boolean(true)),
            field(
                "reflectors",
                DocKind::Table(vec![field(" tv ", DocKind::Datetime)]),
            ),
        ]))
    };
    assert_eq!(
        Config::from_document(document(), &[]),
        Err(ConfigError::Parse(DocumentError::WrongType {
            field: " tv ".to_owned(),
            expected: Expected::Table,
            at: 7
        }))
    );
    let document = Some(Ok(vec![
        field("debug_memory", DocKind::Boolean(true)),
        field("reflectors", DocKind::Table(vec![field(" tv ", reflector)])),
    ]));
    let config = Config::from_document(document, &[]).unwrap();
    assert!(config.debug_memory);
    assert_eq!(config.log_level, LogLevel::Info);
    assert_eq!(config.reflectors[0].name.as_str(), "tv");
    assert!(config.reflectors[0].ssdp.unwrap().dial);
    assert_eq!(
        Config::from_document(Some(Err("broken".to_owned())), &[]),
        Err(ConfigError::Parse(DocumentError::Syntax(
            "broken".to_owned()
        )))
    );
    assert_eq!(log_level_of_document(None, &[]), Ok(LogLevel::Info));
}

#[test]
fn invalid_fields_are_named() {
    assert!(matches!(
        document_error("[reflectors.x]\ntarget_if = \"b\"\n"),
        DocumentError::MissingField { field: RequiredField::SourceIf, at: 0 }
    ));
    assert!(matches!(
        document_error("[reflectors.x]\nsource_if = \"a\"\n"),
        DocumentError::MissingField { field: RequiredField::TargetIf, at: 0 }
    ));
    assert_eq!(
        document_error("[reflectors.x]\nsource_if = 3\n"),
        DocumentError::WrongType {
            field: "source_if".to_owned(),
            expected: Expected::Text,
            at: 27
        }
    );
    assert_eq!(
        document_error("[reflectors.x]\nmdns = \"yes\"\n"),
        DocumentError::WrongType {
            field: "mdns".to_owned(),
            expected: Expected::Boolean,
            at: 22
        }
    );
    assert_eq!(
        document_error("[reflectors.x]\nwol_ports = [65536]\n"),
        DocumentError::WrongType {
            field: "wol_ports".to_owned(),
            expected: Expected::Port,
            at: 28
        }
    );
    assert_eq!(
        document_error("[reflectors.x]\nmacs = \"aa:bb:cc:dd:ee:ff\"\n"),
        DocumentError::WrongType {
            field: "macs".to_owned(),
            expected: Expected::List,
            at: 22
        }
    );
    assert_eq!(
        document_error("reflectors = 1\n"),
        DocumentError::WrongType {
            field: "reflectors".to_owned(),
            expected: Expected::Table,
            at: 13
        }
    );
    assert_eq!(
        document_error("[reflectors.x]\nname = \"tv\"\n"),
        DocumentError::UnknownField { field: "name".to_owned(), at: 15 }
    );
    assert!(matches!(
        document_error("[reflectors.x]\nmacs = [\"zz\"]\n"),
        DocumentError::BadValue { field, source: ParseValueError::Mac(_), at: 23 } if field == "macs"
    ));
    assert!(matches!(
        document_error(
            "[reflectors.x]\nmacs = [\"00:00:00:00:00:01\", \"00:00:00:00:00:01\"]\n"
        ),
        DocumentError::BadValue { field, source: ParseValueError::Macs(_), at: 22 } if field == "macs"
    ));
    assert!(matches!(
        document_error("[reflectors.x]\nwol_ports = []\n"),
        DocumentError::BadValue { source: ParseValueError::WolPorts(_), .. }
    ));
    assert!(matches!(
        document_error("[reflectors.x]\naddress_family = \"ipv5\"\n"),
        DocumentError::BadValue { source: ParseValueError::AddressFamily(_), .. }
    ));
    assert!(matches!(
        document_error("[reflectors.x]\nsource_if = \"\"\n"),
        DocumentError::BadValue { source: ParseValueError::Interface(_), .. }
    ));
    assert!(matches!(
        document_error("log_level = \"loud\"\n"),
        DocumentError::BadValue { source: ParseValueError::LogLevel(_), .. }
    ));
}

#[test]
fn a_reflector_may_be_given_by_position() {
    let config = Config::from_toml_str(
        r#"
        [reflectors]
        tv = ["lan", "iot", ["00:00:00:00:00:01"], true, false, false, false, [9]]
        "#,
    )
    .unwrap();
    let r = &config.reflectors[0];
    assert_eq!(r.source_if.as_str(), "lan");
    assert_eq!(r.target_if.as_str(), "iot");
    assert_eq!(r.macs.as_ref().unwrap().len(), 1);
    assert_eq!(r.wol.as_ref().unwrap().ports.as_slice()[0].get(), 9);
    assert!(!r.mdns && r.ssdp.is_none());
    assert!(matches!(
        document_error("[reflectors]\ntv = [\"lan\", \"iot\"]\n"),
        DocumentError::WrongType { .. }
    ));
}

#[test]
fn a_file_key_clashes_with_a_variable_whatever_its_case() {
    let text = "[reflectors.\" TV \"]\nsource_if = \"a\"\ntarget_if = \"b\"\nmdns = true\n";
    let vars = env(&[
        ("REFLECTOR_TV_SOURCE_IF", "c"),
        ("REFLECTOR_TV_TARGET_IF", "d"),
        ("REFLECTOR_TV_MDNS", "true"),
    ]);
    assert_eq!(
        Config::from_sources(Some(text), &vars),
        Err(ConfigError::DuplicateReflector {
            name: "tv".to_owned()
        })
    );
}

#[test]
fn protocols_are_listed_for_the_log() {
    let config = Config::from_toml_str(
        r#"
        [reflectors.a]
        source_if = "lan"
        target_if = "iot"
        wol = true
        mdns = true
        ssdp = true
        dial = true

        [reflectors.b]
        source_if = "iot"
        target_if = "lan"
        ssdp = true
        "#,
    )
    .unwrap();
    assert_eq!(
        protocol_list(&config.reflectors[0]),
        "wol(7,9), mdns, ssdp+dial"
    );
    assert_eq!(protocol_list(&config.reflectors[1]), "ssdp");
}

#[test]
fn conflicts_do_not_depend_on_the_order() {
    let config = Config::from_toml_str(
        r#"
        [reflectors.a]
        source_if = "lan"
        target_if = "iot"
        mdns = true
        macs = ["00:00:00:00:00:01"]

        [reflectors.b]
        source_if = "lan"
        target_if = "iot"
        mdns = true
        macs = ["00:00:00:00:00:02"]
        "#,
    )
    .unwrap();
    let (a, b) = (&config.reflectors[0], &config.reflectors[1]);
    assert_eq!(a.conflicts_with(b), None);
    assert_eq!(b.conflicts_with(a), None);
    assert_eq!(a.conflicts_with(a), b.conflicts_with(b));
}

#[test]
fn the_sources_are_combined() {
    let vars = env(&[
        ("REFLECTOR_CAM_SOURCE_IF", "iot"),
        ("REFLECTOR_CAM_TARGET_IF", "lan"),
        ("REFLECTOR_CAM_SSDP", "1"),
    ]);
    let config = Config::from_sources(Some(TV), &vars).unwrap();
    let names: Vec<&str> = config.reflectors.iter().map(|r| r.name.as_str()).collect();
    assert_eq!(names, ["cam", "tv"]);
    assert_eq!(config.reflectors[0].source_if.as_str(), "iot");
    assert_eq!(config.reflectors[1].source_if.as_str(), "lan");
}

#[test]
fn errors_are_located_in_the_file() {
    let text = "log_level = \"info\"\n\n[reflectors.x]\nsource_if = \"a\"\n  wol_ports = [9, 70000]\n";
    let e = Config::from_toml_str(text).unwrap_err();
    let ConfigError::Parse(source) = &e else {
        panic!("expected an error of the document");
    };
    let at = source.place().unwrap();
    assert_eq!(at, text.find("70000").unwrap());
    assert_eq!(location(text, at), Location { line: 5, column: 19 });
    assert_eq!(
        e.message(Some(text)),
        "invalid configuration: line 5, column 19: invalid type for `wol_ports`: expected a port"
    );
    assert_eq!(
        e.message(None),
        "invalid configuration: invalid type for `wol_ports`: expected a port"
    );
    let unknown = "[reflectors.x]\nname = \"tv\"\n";
    assert_eq!(
        Config::from_toml_str(unknown).unwrap_err().message(Some(unknown)),
        "invalid configuration: line 2, column 1: unknown field `name`"
    );
    let missing = "\n[reflectors.x]\nsource_if = \"a\"\n";
    assert_eq!(
        Config::from_toml_str(missing).unwrap_err().message(Some(missing)),
        "invalid configuration: line 2, column 1: missing field `target_if`"
    );
    let bad = "[reflectors.x]\nmacs = [\"zz\"]\n";
    assert_eq!(
        Config::from_toml_str(bad).unwrap_err().message(Some(bad)),
        "invalid configuration: line 2, column 9: `macs`: expected six colon-separated hex octets"
    );
    // The parser places its own errors.
    let broken = "a = \n";
    let message = Config::from_toml_str(broken).unwrap_err().message(Some(broken));
    assert!(message.contains("line 1, column 5"), "{message}");
}

#[test]
fn columns_are_counted_in_characters() {
    let text = "a\n\u{e9}\u{4e2d}\u{1f600}x";
    assert_eq!(location(text, 0), Location { line: 1, column: 1 });
    assert_eq!(location(text, 1), Location { line: 1, column: 2 });
    assert_eq!(location(text, 2), Location { line: 2, column: 1 });
    assert_eq!(location(text, 4), Location { line: 2, column: 2 });
    assert_eq!(location(text, 7), Location { line: 2, column: 3 });
    assert_eq!(location(text, 11), Location { line: 2, column: 4 });
    assert_eq!(location(text, 99), Location { line: 2, column: 5 });
}

#[test]
fn ports_may_be_written_in_any_radix() {
    let text = "[reflectors.x]\nsource_if = \"a\"\ntarget_if = \"b\"\nwol = true\n\
        wol_ports = [0x1F, 0o17, 0b101, 1_0, +9]\n";
    let config = Config::from_toml_str(text).unwrap();
    let ports: Vec<u16> = config.reflectors[0]
        .wol
        .as_ref()
        .unwrap()
        .ports
        .as_slice()
        .iter()
        .map(|p| p.get())
        .collect();
    assert_eq!(ports, [31, 15, 5, 10, 9]);
    for bad in ["0", "-1", "65536", "99999999999999999999999", "1.5"] {
        let text = format!("[reflectors.x]\nwol_ports = [{bad}]\n");
        assert!(matches!(
            document_error(&text),
            DocumentError::WrongType { expected: Expected::Port, .. }
        ));
    }
}

#[test]
fn a_key_that_looks_like_a_date_is_a_name() {
    let text = "[reflectors.\"$__toml_private_datetime\"]\n\
        source_if = \"a\"\ntarget_if = \"b\"\nmdns = true\n";
    let config = Config::from_toml_str(text).unwrap();
    assert_eq!(
        config.reflectors[0].name.as_str(),
        "$__toml_private_datetime"
    );
}

#[test]
fn the_order_of_variables_does_not_matter() {
    let vars = [
        ("REFLECTOR_A_SOURCE_IF", "x"),
        ("REFLECTOR_a_TARGET_IF", "y"),
        ("REFLECTOR_LOG_LEVEL", "debug"),
        ("REFLECTOR_B_TARGET_IF", "x"),
        ("REFLECTOR_B_SOURCE_IF", "y"),
        ("REFLECTOR_A_MDNS", "true"),
        ("REFLECTOR_B_WOL", "1"),
    ];
    let expected = Config::from_sources(None, &env(&vars)).unwrap();
    assert_eq!(expected.reflectors.len(), 2);
    let mut turned = vars;
    for _ in 0..vars.len() {
        turned.rotate_left(1);
        assert_eq!(Config::from_sources(None, &env(&turned)).unwrap(), expected);
    }
    turned.reverse();
    let mut more = turned.to_vec();
    more.insert(3, ("HOME", "/root"));
    assert_eq!(Config::from_sources(None, &env(&more)).unwrap(), expected);
}

#[test]
fn configured_names_are_trimmed() {
    let text = "[reflectors.\"  tv \\t\"]\nsource_if = \"a\"\ntarget_if = \"b\"\nmdns = true\n";
    let vars = env(&[
        ("REFLECTOR_X_NAME", "  the printer "),
        ("REFLECTOR_X_SOURCE_IF", "b"),
        ("REFLECTOR_X_TARGET_IF", "a"),
        ("REFLECTOR_X_MDNS", "1"),
    ]);
    let config = Config::from_sources(Some(text), &vars).unwrap();
    let names: Vec<&str> = config.reflectors.iter().map(|r| r.name.as_str()).collect();
    assert_eq!(names, ["tv", "the printer"]);
}

#[test]
fn configuration_errors_have_words() {
    let words = |vars: &[(&str, &str)]| {
        Config::from_sources(None, &env(vars)).unwrap_err().message(None)
    };
    assert_eq!(words(&[]), "must define at least one reflector");
    assert_eq!(
        words(&[("REFLECTOR_X", "1")]),
        "environment variable \"REFLECTOR_X\" is malformed (expected REFLECTOR_<tag>_<param>)"
    );
    assert_eq!(
        words(&[("REFLECTOR_a-b_WOL", "1")]),
        "environment variable \"REFLECTOR_a-b_WOL\" has invalid tag \"a-b\" (tags must be \
         non-empty and alphanumeric)"
    );
    assert_eq!(
        words(&[("REFLECTOR_LOG_X", "1")]),
        "environment variable \"REFLECTOR_LOG_X\" uses a reserved tag (log and debug are globals)"
    );
    assert_eq!(
        words(&[("REFLECTOR_A_X", "1")]),
        "environment variable \"REFLECTOR_A_X\" sets unknown parameter \"x\""
    );
    assert_eq!(
        words(&[("REFLECTOR_A_WOL", "yes")]),
        "environment variable \"REFLECTOR_A_WOL\" has invalid value \"yes\": expected true, \
         false, 1, or 0"
    );
    assert_eq!(
        words(&[("REFLECTOR_A_WOL_PORTS", "7,7")]),
        "environment variable \"REFLECTOR_A_WOL_PORTS\" has invalid value \"7,7\": wol_ports \
         contains duplicate port 7"
    );
    assert_eq!(
        words(&[("REFLECTOR_A_MACS", "00:00:00:00:00:0A,00:00:00:00:00:0a")]),
        "environment variable \"REFLECTOR_A_MACS\" has invalid value \
         \"00:00:00:00:00:0A,00:00:00:00:00:0a\": macs contains duplicate address \
         00:00:00:00:00:0a"
    );
    assert_eq!(
        words(&[("REFLECTOR_A_SOURCE_IF", "x")]),
        "reflector \"a\" (from the environment) has no target_if"
    );
    let a = [
        ("REFLECTOR_A_SOURCE_IF", "x"),
        ("REFLECTOR_A_TARGET_IF", "x"),
        ("REFLECTOR_A_MDNS", "1"),
    ];
    assert_eq!(
        words(&a),
        "reflector \"a\" source_if and target_if must differ (both are \"x\")"
    );
    let both = [
        ("REFLECTOR_A_SOURCE_IF", "x"),
        ("REFLECTOR_A_TARGET_IF", "y"),
        ("REFLECTOR_A_MDNS", "1"),
        ("REFLECTOR_B_SOURCE_IF", "x"),
        ("REFLECTOR_B_TARGET_IF", "y"),
        ("REFLECTOR_B_MDNS", "1"),
    ];
    assert_eq!(
        words(&both),
        "reflectors \"a\" and \"b\" both reflect mDNS on x -> y with overlapping MAC selection \
         and address family"
    );
    let e = Config::from_sources(None, &[]).unwrap_err();
    assert_eq!(
        reflector::error::Error::config(e).message(None),
        "config: must define at least one reflector"
    );
    assert_eq!(
        reflector::error::Error::capture("eth0", "denied".to_owned()).message(None),
        "cannot capture on eth0: denied"
    );
    assert_eq!(
        reflector::error::Error::reactor("gone".to_owned()).message(None),
        "reactor: gone"
    );
}

#[test]
fn a_reflector_is_given_its_devices_by_one_parameter() {
    let with = |extra: &[(&str, &str)]| {
        let mut vars = vec![
            ("REFLECTOR_A_SOURCE_IF", "x"),
            ("REFLECTOR_A_TARGET_IF", "y"),
            ("REFLECTOR_A_MDNS", "1"),
        ];
        vars.extend_from_slice(extra);
        Config::from_sources(None, &env(&vars))
    };
    let one = ("REFLECTOR_A_MAC", "00:00:00:00:00:01");
    let list = ("REFLECTOR_A_MACS", "00:00:00:00:00:01,00:00:00:00:00:02");
    let count = |config: Config| config.reflectors[0].macs.as_ref().unwrap().len();
    assert_eq!(count(with(&[one]).unwrap()), 1);
    assert_eq!(count(with(&[list]).unwrap()), 2);
    let e = with(&[one, list]).unwrap_err();
    assert_eq!(
        e,
        ConfigError::EnvMacsTwice {
            var: "REFLECTOR_A_MACS".to_owned()
        }
    );
    assert_eq!(
        e.message(None),
        "environment variable \"REFLECTOR_A_MACS\" sets the addresses twice (give either mac or macs)"
    );
    assert_eq!(
        with(&[list, one]).unwrap_err(),
        ConfigError::EnvMacsTwice {
            var: "REFLECTOR_A_MAC".to_owned()
        }
    );
    // One spelling may come again, in another case, and the later one stays.
    let again = ("REFLECTOR_a_mac", "00:00:00:00:00:03");
    assert_eq!(count(with(&[one, again]).unwrap()), 1);
}
