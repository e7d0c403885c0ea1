//! Tests of the resolution engine: precedence between the two indexes,
//! longest-prefix matching, override application and case folding.

use ctydat::{Country, Ctydat, Decimal};

fn finland_template(cq_zone: u8) -> Country {
    Country {
        country_name: b"Finland".to_vec(),
        cq_zone,
        itu_zone: 18,
        continent: b"EU".to_vec(),
        latitude: Decimal { neg: false, mantissa: 6138, scale: 2 },
        longitude: Decimal { neg: true, mantissa: 2482, scale: 2 },
        time_offset: Decimal { neg: true, mantissa: 20, scale: 1 },
        primary_prefix: b"OH".to_vec(),
        prefix_list: vec![],
    }
}

#[test]
fn test_resolve_prefix_and_exact() {
    let input = "Finland: 15: 18: EU: 61.38: -24.82: -2.0: OH: OH,=OH2ET/SA;\n";
    let d = Ctydat::from_str(input).unwrap();
    assert_eq!(d.find_country_for_callsign("OH3AB"), Some(finland_template(15)));
    assert_eq!(d.find_country_for_callsign("OH2ET/SA"), Some(finland_template(15)));
    assert_eq!(d.find_country_for_callsign("OH2ET"), Some(finland_template(15)));
}

#[test]
fn test_exact_match_precedence() {
    let input = "Finland: 15: 18: EU: 61.38: -24.82: -2.0: OH: OH(5),=OH2ET(4);\n";
    let d = Ctydat::from_str(input).unwrap();
    let exact = d.find_country_for_callsign("OH2ET").unwrap();
    assert_eq!(exact.cq_zone, 4);
    let by_prefix = d.find_country_for_callsign("OH2AB").unwrap();
    assert_eq!(by_prefix.cq_zone, 5);
}

#[test]
fn test_longest_prefix_precedence() {
    let input = "United States: 5: 8: NA: 37.53: 91.67: 5.0: K: K(5),KH6(6);\n";
    let d = Ctydat::from_str(input).unwrap();
    assert_eq!(d.find_country_for_callsign("KH6AB").unwrap().cq_zone, 6);
    assert_eq!(d.find_country_for_callsign("K1AB").unwrap().cq_zone, 5);
}

#[test]
fn test_longest_prefix_across_records() {
    let input = "United States: 5: 8: NA: 37.53: 91.67: 5.0: K: K(5);\nHawaii: 31: 61: OC: 21.12: 157.48: 10.0: KH6: KH6(6);\n";
    let d = Ctydat::from_str(input).unwrap();
    assert_eq!(d.find_country_for_callsign("KH6AB").unwrap().cq_zone, 6);
    assert_eq!(
        d.find_country_for_callsign("KH6AB").unwrap().country_name,
        b"Hawaii".to_vec()
    );
    assert_eq!(d.find_country_for_callsign("K1AB").unwrap().cq_zone, 5);
}

#[test]
fn test_override_application() {
    let input = "Finland: 15: 18: EU: 61.38: -24.82: -2.0: OH: OH(5);\n";
    let d = Ctydat::from_str(input).unwrap();
    let r = d.find_country_for_callsign("OH1AB").unwrap();
    assert_eq!(r, finland_template(5));
}

#[test]
fn test_all_override_kinds() {
    let input = "Finland: 15: 18: EU: 61.38: -24.82: -2.0: OH: OH(5)[7]{AF}~-3.5~<1.5/-2.25>;\n";
    let d = Ctydat::from_str(input).unwrap();
    let r = d.find_country_for_callsign("OH1AB").unwrap();
    assert_eq!(r.cq_zone, 5);
    assert_eq!(r.itu_zone, 7);
    assert_eq!(r.continent, b"AF".to_vec());
    assert_eq!(r.time_offset, Decimal { neg: true, mantissa: 35, scale: 1 });
    assert_eq!(r.latitude, Decimal { neg: false, mantissa: 15, scale: 1 });
    assert_eq!(r.longitude, Decimal { neg: true, mantissa: 225, scale: 2 });
    assert_eq!(r.country_name, b"Finland".to_vec());
    assert_eq!(r.primary_prefix, b"OH".to_vec());
}

#[test]
fn test_repeated_override_later_wins() {
    let input = "Finland: 15: 18: EU: 61.38: -24.82: -2.0: OH: OH(5)(6);\n";
    let d = Ctydat::from_str(input).unwrap();
    assert_eq!(d.find_country_for_callsign("OH1AB").unwrap().cq_zone, 6);
}

#[test]
fn test_case_insensitive() {
    let input = "Finland: 15: 18: EU: 61.38: -24.82: -2.0: OH: OH,=OH2ET;\n";
    let d = Ctydat::from_str(input).unwrap();
    let lower = d.find_country_for_callsign("oh2et");
    let upper = d.find_country_for_callsign("OH2ET");
    assert!(lower.is_some());
    assert_eq!(lower, upper);
}

#[test]
fn test_no_match() {
    let input = "Finland: 15: 18: EU: 61.38: -24.82: -2.0: OH: OH,=OH2ET;\n";
    let d = Ctydat::from_str(input).unwrap();
    assert_eq!(d.find_country_for_callsign("W1AW"), None);
    assert_eq!(d.find_country_for_callsign(""), None);
}

#[test]
fn test_duplicate_key_last_wins() {
    let input = "Finland: 15: 18: EU: 61.38: -24.82: -2.0: OH: OH(5),OH(6);\n";
    let d = Ctydat::from_str(input).unwrap();
    assert_eq!(d.find_country_for_callsign("OH1AB").unwrap().cq_zone, 6);
}

#[test]
fn test_duplicate_key_across_records_last_wins() {
    let input = "Finland: 15: 18: EU: 61.38: -24.82: -2.0: OH: OH;\nSweden: 14: 18: EU: 61.2: -14.57: -1.0: SM: SM,OH;\n";
    let d = Ctydat::from_str(input).unwrap();
    let r = d.find_country_for_callsign("OH1AB").unwrap();
    assert_eq!(r.country_name, b"Sweden".to_vec());
}

#[test]
fn test_empty_database_matches_nothing() {
    let d = Ctydat::from_str("").unwrap();
    assert_eq!(d.find_country_for_callsign("OH2ET"), None);
}

#[test]
fn test_resolved_record_is_a_fresh_copy() {
    let input = "Finland: 15: 18: EU: 61.38: -24.82: -2.0: OH: OH;\n";
    let d = Ctydat::from_str(input).unwrap();
    let a = d.find_country_for_callsign("OH1AB").unwrap();
    let b = d.find_country_for_callsign("OH1AB").unwrap();
    assert_eq!(a, b);
    assert!(a.prefix_list.is_empty());
}
