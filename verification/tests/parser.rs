//! Tests of the grammar: well-formed records of every shape parse to the
//! expected values, and each malformed construct is rejected with its
//! label.

use ctydat::{parse_countries, Ctydat, Decimal, Expected, Override, Prefix};

const FINLAND: &str = r##"Finland:                  15:  18:  EU:   61.38:   -24.82:    -2.0:  OH:
        OF,OG,OH,OI,OJ,=OH/RX3AMI/LH,
        =OF100FI/1/LH,=OF1AD/S,=OF1LD/S,=OF1TX/S,=OH0HG/1,=OH0J/1,=OH0JJS/1,=OH0MDR/1,=OH0MRR/1,=OH1AD/S,
        =OH1AF/LH,=OH1AH/LH,=OH1AH/LT,=OH1AM/LH,=OH1BGG/S,=OH1BGG/SA,=OH1BS/SA,=OH1CM/S,=OH1F/LGT,
        =OH1F/LH,=OH1FJ/S,=OH1FJ/SA,=OH1KW/S,=OH1KW/SA,=OH1LD/S,=OH1LEO/S,=OH1MLZ/SA,=OH1NR/S,=OH1OD/S,
        =OH1OD/SA,=OH1PP/S,=OH1PV/S,=OH1S/S,=OH1SJ/S,=OH1SJ/SA,=OH1SM/S,=OH1TX/S,=OH1TX/SA,=OH1UH/S,
        =OH1XW/S,=OI1AXA/S,=OI1AY/S,=OI1SWM/S,
        =OF2BNX/SA,=OG2O/YL,=OH0AM/2,=OH0BT/2,=OH0HG/2,=OH0SCA/2,=OH2AAF/S,=OH2AAF/SA,=OH2AAV/S,
        =OH2AN/SUB,=OH2AUE/S,=OH2AUE/SA,=OH2AY/S,=OH2BAX/S,=OH2BMB/S,=OH2BMB/SA,=OH2BNB/SA,=OH2BNX/S,
        =OH2BNX/SA,=OH2BQP/S,=OH2BXT/S,=OH2C/S,=OH2EO/S,=OH2ET/LH,=OH2ET/LS,=OH2ET/S,=OH2FBX/S,=OH2FBX/SA,
        =OH2HK/S,=OH2HZ/S,=OH2MEE/S,=OH2MEE/SA,=OH2MH/S,=OH2MO/S,=OH2MO/SA,=OH2NAS/S,=OH2NAS/SA,=OH2NM/LH,
        =OH2PO/S,=OH2PO/SA,=OH2S/S,=OH2S/SA,=OH2XL/S,=OH2XMP/S,=OH2ZL/SA,=OH2ZY/S,=OI2ABG/S,
        =OF3HHO/S,=OF3KRB/S,=OG3X/LH,=OH0MZA/3,=OH3A/LH,=OH3ABN/S,=OH3ACA/S,=OH3AG/LH,=OH3CT/S,=OH3CT/SA,
        =OH3FJQ/S,=OH3FJQ/SA,=OH3GDO/LH,=OH3GQM/S,=OH3HB/S,=OH3HB/SA,=OH3HHO/S,=OH3HHO/SA,=OH3IH/S,
        =OH3IH/SA,=OH3IS/S,=OH3KRB/S,=OH3KRB/SA,=OH3LB/S,=OH3LB/SA,=OH3LS/S,=OH3MY/S,=OH3MY/SA,=OH3N/S,
        =OH3NOB/S,=OH3NVK/S,=OH3R/SA,=OH3SUF/JOTA,=OH3TAM/LH,=OH3VV/S,=OH3W/S,=OH3WR/SA,=OI3SVM/S,
        =OI3SVM/SA,=OI3V/LH,=OI3V/S,=OI3V/SA,=OI3W/LGT,=OI3W/LH,
        =OG0V/4,=OH0I/4,=OH0V/4,=OH4FSL/SA,=OH4N/S,=OH4SG/S,=OI4JM/S,=OI4JM/SA,=OI4PM/S,
        =OF200AD/LS,=OF200AD/S,=OF5AD/S,=OG5A/LS,=OG5A/S,=OH0AW/5,=OH5A/S,=OH5AA/LS,=OH5AD/LS,=OH5AD/S,
        =OH5B/LH,=OH5EAB/S,=OH5EAB/SA,=OH5GOE/S,=OH5J/S,=OH5J/SA,=OH5JJL/S,=OH5K/S,=OH5LP/S,=OH5LP/SA,
        =OH5R/S,=OH5ZB/S,=OI5AY/LH,=OI5AY/SA,=OI5PRM/SA,
        =OF6FSQ/S,=OF6NL/SA,=OF6QR/S,=OG6M/S,=OH0Y/6,=OH2Y/6/LH,=OH6AC/LH,=OH6ADHD/LH,=OH6AG/S,=OH6AR/LH,
        =OH6CT/S,=OH6CT/SA,=OH6EFH/SA,=OH6EOG/SA,=OH6FA/S,=OH6FA/SA,=OH6FMG/LH,=OH6FSQ/S,=OH6G/S,
        =OH6GSR/S,=OH6HGW/S,=OH6K/S,=OH6MH/S,=OH6NL/S,=OH6NL/SA,=OH6NR/LGT,=OH6NR/LH,=OH6NZ/SA,=OH6OG/SA,
        =OH6OS/S,=OH6OT/S,=OH6P/SA,=OH6PA/S,=OH6QR/S,=OH6QR/SA,=OH6RJ/S,=OH6UW/S,=OH6VM/S,=OI6AY/LH,
        =OI6MPK/SA,=OI6SP/S,=OI6SP/SA,
        =OH7AB/S,=OH7AX/S,=OH7BD/S,=OH7ND/S,=OH7NE/S,=OH7QA/S,=OH7QA/SA,=OH7SV/SA,=OH7UE/S,=OH7VL/S,
        =OH7XI/S,=OI7AX/S,
        =OH0SCA/8,=OH8AAU/LH,=OH8FCK/S,=OH8FCK/SA,=OH8KN/S,=OH8KN/SA,=OH8UV/SA,=OI8VK/S,
        =OH0KAG/9,=OH9AR/S,=OH9TM/S,=OH9TO/S;
    "##;

#[test]
fn test_parser() {
    let ctydat = parse_countries(FINLAND).unwrap();
    let cty = ctydat.first().unwrap();
    assert_eq!(cty.country_name, b"Finland".to_vec());
    assert_eq!(cty.cq_zone, 15);
    assert_eq!(cty.itu_zone, 18);
    assert_eq!(cty.latitude, Decimal { neg: false, mantissa: 6138, scale: 2 });
    assert_eq!(cty.longitude, Decimal { neg: true, mantissa: 2482, scale: 2 });
    assert_eq!(cty.time_offset, Decimal { neg: true, mantissa: 20, scale: 1 });
}

#[test]
fn test_parser_remaining_fields() {
    let ctydat = parse_countries(FINLAND).unwrap();
    assert_eq!(ctydat.len(), 1);
    let cty = &ctydat[0];
    assert_eq!(cty.continent, b"EU".to_vec());
    assert_eq!(cty.primary_prefix, b"OH".to_vec());
    assert_eq!(cty.prefix_list[0], Prefix::Prefix(b"OF".to_vec(), None));
    assert_eq!(cty.prefix_list[2], Prefix::Prefix(b"OH".to_vec(), None));
    assert_eq!(
        cty.prefix_list[5],
        Prefix::Callsign(b"OH/RX3AMI/LH".to_vec(), None)
    );
}

#[test]
fn test_concrete_finland_record() {
    let input = "Finland: 15: 18: EU: 61.38: -24.82: -2.0: OH: OH,=OH2ET/SA;\n";
    let recs = parse_countries(input).unwrap();
    assert_eq!(recs.len(), 1);
    let cty = &recs[0];
    assert_eq!(cty.country_name, b"Finland".to_vec());
    assert_eq!(cty.cq_zone, 15);
    assert_eq!(cty.itu_zone, 18);
    assert_eq!(cty.continent, b"EU".to_vec());
    assert_eq!(cty.latitude, Decimal { neg: false, mantissa: 6138, scale: 2 });
    assert_eq!(cty.longitude, Decimal { neg: true, mantissa: 2482, scale: 2 });
    assert_eq!(cty.time_offset, Decimal { neg: true, mantissa: 20, scale: 1 });
    assert_eq!(cty.primary_prefix, b"OH".to_vec());
    assert_eq!(cty.prefix_list.len(), 2);
    assert_eq!(cty.prefix_list[0], Prefix::Prefix(b"OH".to_vec(), None));
    assert_eq!(
        cty.prefix_list[1],
        Prefix::Callsign(b"OH2ET/SA".to_vec(), None)
    );
}

#[test]
fn test_alias_override_representation() {
    let input = "Finland: 15: 18: EU: 61.38: -24.82: -2.0: OH: OH,=OH2ET(4);\n";
    let recs = parse_countries(input).unwrap();
    let pl = &recs[0].prefix_list;
    assert_eq!(pl[0], Prefix::Prefix(b"OH".to_vec(), None));
    assert_eq!(
        pl[1],
        Prefix::Callsign(b"OH2ET".to_vec(), Some(vec![Override::CqZone(4)]))
    );
}

#[test]
fn test_empty_input_is_zero_records() {
    assert_eq!(parse_countries("").unwrap().len(), 0);
    assert_eq!(parse_countries("   \n  ").unwrap().len(), 0);
}

#[test]
fn test_two_records() {
    let input = "Finland: 15: 18: EU: 61.38: -24.82: -2.0: OH: OH;\nSweden: 14: 18: EU: 61.2: -14.57: -1.0: SM: SM,SL;\n";
    let recs = parse_countries(input).unwrap();
    assert_eq!(recs.len(), 2);
    assert_eq!(recs[1].country_name, b"Sweden".to_vec());
    assert_eq!(recs[1].cq_zone, 14);
    assert_eq!(recs[1].prefix_list.len(), 2);
}

#[test]
fn test_crlf_record_terminator() {
    let input = "Finland: 15: 18: EU: 61.38: -24.82: -2.0: OH: OH;\r\n";
    assert_eq!(parse_countries(input).unwrap().len(), 1);
}

#[test]
fn test_missing_terminator_rejected() {
    let input = "Finland: 15: 18: EU: 61.38: -24.82: -2.0: OH: OH\n";
    assert!(parse_countries(input).is_err());
    assert!(Ctydat::from_str(input).is_err());
}

#[test]
fn test_non_numeric_cq_zone_rejected() {
    let input = "Finland: ab: 18: EU: 61.38: -24.82: -2.0: OH: OH;\n";
    let err = parse_countries(input).unwrap_err();
    assert_eq!(err.expected, Expected::CqZone);
    assert_eq!(err.pos, 9);
    assert!(Ctydat::from_str(input).is_err());
}

#[test]
fn test_error_country_name() {
    let err = parse_countries("Fin: 15: 18: EU: 61.38: -24.82: -2.0: OH: OH;\n").unwrap_err();
    assert_eq!(err.expected, Expected::CountryName);
    assert_eq!(err.pos, 0);
}

#[test]
fn test_error_itu_zone_overflow() {
    let err = parse_countries("Finland: 15: 300: EU: 61.38: -24.82: -2.0: OH: OH;\n").unwrap_err();
    assert_eq!(err.expected, Expected::ItuZone);
}

#[test]
fn test_error_continent() {
    let err = parse_countries("Finland: 15: 18: E: 61.38: -24.82: -2.0: OH: OH;\n").unwrap_err();
    assert_eq!(err.expected, Expected::Continent);
}

#[test]
fn test_error_latitude() {
    let err = parse_countries("Finland: 15: 18: EU: 61.3.8: -24.82: -2.0: OH: OH;\n").unwrap_err();
    assert_eq!(err.expected, Expected::Latitude);
}

#[test]
fn test_error_longitude() {
    let err = parse_countries("Finland: 15: 18: EU: 61.38: -: -2.0: OH: OH;\n").unwrap_err();
    assert_eq!(err.expected, Expected::Longitude);
}

#[test]
fn test_error_time_offset() {
    let err = parse_countries("Finland: 15: 18: EU: 61.38: -24.82: 2-0: OH: OH;\n").unwrap_err();
    assert_eq!(err.expected, Expected::TimeOffset);
}

#[test]
fn test_error_primary_prefix() {
    let err = parse_countries("Finland: 15: 18: EU: 61.38: -24.82: -2.0: : OH;\n").unwrap_err();
    assert_eq!(err.expected, Expected::PrimaryPrefix);
}

#[test]
fn test_error_alias_token() {
    let err = parse_countries("Finland: 15: 18: EU: 61.38: -24.82: -2.0: OH: ;\n").unwrap_err();
    assert_eq!(err.expected, Expected::AliasToken);
}

#[test]
fn test_error_field_separator() {
    let err = parse_countries("Finland\n").unwrap_err();
    assert_eq!(err.expected, Expected::FieldSeparator);
}

#[test]
fn test_error_list_delimiter() {
    let err = parse_countries("Finland: 15: 18: EU: 61.38: -24.82: -2.0: OH: OH OH;\n").unwrap_err();
    assert_eq!(err.expected, Expected::ListDelimiter);
}

#[test]
fn test_error_line_break() {
    let err = parse_countries("Finland: 15: 18: EU: 61.38: -24.82: -2.0: OH: OH;x").unwrap_err();
    assert_eq!(err.expected, Expected::LineBreak);
}

#[test]
fn test_error_coordinate_separator() {
    let err =
        parse_countries("Finland: 15: 18: EU: 61.38: -24.82: -2.0: OH: OH<61.38>;\n").unwrap_err();
    assert_eq!(err.expected, Expected::CoordinateSeparator);
}

#[test]
fn test_error_override_end() {
    let err =
        parse_countries("Finland: 15: 18: EU: 61.38: -24.82: -2.0: OH: OH(5];\n").unwrap_err();
    assert_eq!(err.expected, Expected::OverrideEnd);
}

#[test]
fn test_garbage_after_record_rejected() {
    let input = "Finland: 15: 18: EU: 61.38: -24.82: -2.0: OH: OH;\nnot a record";
    assert!(parse_countries(input).is_err());
}

#[test]
fn test_decimal_shapes() {
    let input = "Finland: 15: 18: EU: .5: 5.: 2: OH: OH;\n";
    let recs = parse_countries(input).unwrap();
    assert_eq!(recs[0].latitude, Decimal { neg: false, mantissa: 5, scale: 1 });
    assert_eq!(recs[0].longitude, Decimal { neg: false, mantissa: 5, scale: 0 });
    assert_eq!(recs[0].time_offset, Decimal { neg: false, mantissa: 2, scale: 0 });
}
