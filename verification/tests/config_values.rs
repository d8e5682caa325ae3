//! The values that a configuration is made of.

use reflector::config::table::Table;
use reflector::config::value::AddressFamily as F;
use reflector::config::value::{
    InterfaceName, LogLevel, ParseAddressFamilyError, ParseInterfaceNameError, ParseLogLevelError,
    ParseReflectorNameError, Port, ReflectorName, WolPorts, WolPortsError,
};

#[test]
fn address_family_uses_and_requires() {
    // Uses: which families the reflector handles. Default and Dual handle both.
    assert_eq!(
        (F::Default.uses_ipv4(), F::Default.uses_ipv6()),
        (true, true)
    );
    assert_eq!((F::Dual.uses_ipv4(), F::Dual.uses_ipv6()), (true, true));
    assert_eq!((F::Ipv4.uses_ipv4(), F::Ipv4.uses_ipv6()), (true, false));
    assert_eq!((F::Ipv6.uses_ipv4(), F::Ipv6.uses_ipv6()), (false, true));
    // Requires: which must be present at startup. Default requires v4 only (v6 best-effort).
    assert_eq!(
        (F::Default.requires_ipv4(), F::Default.requires_ipv6()),
        (true, false)
    );
    assert_eq!(
        (F::Dual.requires_ipv4(), F::Dual.requires_ipv6()),
        (true, true)
    );
    assert_eq!(
        (F::Ipv4.requires_ipv4(), F::Ipv4.requires_ipv6()),
        (true, false)
    );
    assert_eq!(
        (F::Ipv6.requires_ipv4(), F::Ipv6.requires_ipv6()),
        (false, true)
    );
}

#[test]
fn log_level_parses_via_fromstr() {
    assert_eq!("off".parse::<LogLevel>().unwrap(), LogLevel::Off);
    assert_eq!("ERROR".parse::<LogLevel>().unwrap(), LogLevel::Error);
    assert_eq!("Warning".parse::<LogLevel>().unwrap(), LogLevel::Warning);
    assert_eq!("INFO".parse::<LogLevel>().unwrap(), LogLevel::Info);
    assert_eq!("debug".parse::<LogLevel>().unwrap(), LogLevel::Debug);
    assert_eq!("Trace".parse::<LogLevel>().unwrap(), LogLevel::Trace);
    assert_eq!("verbose".parse::<LogLevel>(), Err(ParseLogLevelError));
}

#[test]
fn interface_name_parses_via_fromstr() {
    assert_eq!("en0".parse::<InterfaceName>().unwrap().as_str(), "en0");
    assert_eq!("".parse::<InterfaceName>(), Err(ParseInterfaceNameError));
}

#[test]
fn reflector_name_parses_via_fromstr() {
    assert_eq!("  tv  ".parse::<ReflectorName>().unwrap().as_str(), "tv");
    assert_eq!("".parse::<ReflectorName>(), Err(ParseReflectorNameError));
    assert_eq!("   ".parse::<ReflectorName>(), Err(ParseReflectorNameError));
}

#[test]
fn wol_ports_parse_via_fromstr() {
    let ports = "7, 9, 4000".parse::<WolPorts>().unwrap();
    assert_eq!(
        ports.as_slice().iter().map(|p| p.get()).collect::<Vec<_>>(),
        [7, 9, 4000]
    );
    assert!(matches!(
        "7,7".parse::<WolPorts>(),
        Err(WolPortsError::Duplicate(7))
    ));
    assert!(matches!(
        "0".parse::<WolPorts>(),
        Err(WolPortsError::BadPort(_))
    ));
    assert!(matches!(
        "abc".parse::<WolPorts>(),
        Err(WolPortsError::BadPort(_))
    ));
    assert_eq!(
        WolPorts::default()
            .as_slice()
            .iter()
            .map(|p| p.get())
            .collect::<Vec<_>>(),
        [7, 9]
    );
}

#[test]
fn address_family_parses_via_fromstr() {
    assert_eq!("default".parse::<F>().unwrap(), F::Default);
    assert_eq!("DUAL".parse::<F>().unwrap(), F::Dual);
    assert_eq!("ipv4".parse::<F>().unwrap(), F::Ipv4);
    assert_eq!("IPv6".parse::<F>().unwrap(), F::Ipv6);
    assert_eq!("both".parse::<F>(), Err(ParseAddressFamilyError));
}

#[test]
fn wol_ports_reject_an_empty_list() {
    // FromStr can't yield an empty list, so Empty is reachable only via the TryFrom path.
    assert!(matches!(
        WolPorts::try_from(Vec::<Port>::new()),
        Err(WolPortsError::Empty)
    ));
}

#[test]
fn a_table_keeps_its_keys_in_order() {
    let mut table: Table<u32> = Table::new();
    for (key, value) in [("b", 1), ("a", 2), ("c", 3), ("b", 4)] {
        table.put(key.to_owned(), value);
    }
    let keys: Vec<&str> = (0..table.len()).map(|i| table.key(i)).collect();
    assert_eq!(keys, ["a", "b", "c"]);
    let values: Vec<u32> = (0..table.len()).map(|i| *table.value(i)).collect();
    assert_eq!(values, [2, 4, 3]);
    assert_eq!(table.take("b"), Some(4));
    assert_eq!(table.take("b"), None);
    assert_eq!(table.take_first(), Some(("a".to_owned(), 2)));
    assert_eq!(table.take_first(), Some(("c".to_owned(), 3)));
    assert_eq!(table.take_first(), None);
}
