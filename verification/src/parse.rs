//! The executable parser: each function returns exactly what its
//! specification counterpart in [`crate::grammar`] denotes.

use vstd::prelude::*;
use vstd::string::{StrSliceExecFns, StringSliceAdditionalSpecFns};

use crate::grammar::{
    byte_in_class, digits_val, dot_count, dot_tail_len, decimal_digits, lemma_decimal_digits_append,
    lemma_decimal_digits_digits, lemma_decimal_digits_len, lemma_digits_val_nonneg,
    lemma_digits_val_take_le, lemma_dot_count_append, lemma_dot_count_nonneg, lemma_scan,
    spec_decimal_of, spec_parse_colon, spec_parse_decimal, spec_parse_line_break, spec_parse_zone,
    spec_scan, wf_decimal_body, ByteClass, Expected, ParseError,
};
use crate::grammar::{
    lemma_parse_alias_bounds, lemma_parse_alias_list_bounds, lemma_parse_colon_bounds,
    lemma_parse_decimal_bounds, lemma_parse_overrides_bounds, lemma_parse_override_bounds,
    lemma_parse_record_bounds, lemma_parse_zone_bounds, spec_empty_to_none, spec_parse_alias,
    spec_parse_alias_list, spec_parse_file, spec_parse_override, spec_parse_overrides,
    spec_parse_record,
};
use crate::records::{
    countries_view, empty_is_none, ovs_view, prefixes_view, Country, Decimal, Override,
    OverrideView, Prefix, PrefixView,
};

verus! {

/// An executable result mirrors a specification result with an integer
/// position when both succeed alike or fail with the same error.
pub open spec fn pos_result_matches<T>(
    r: Result<(T, usize), ParseError>,
    s: Result<(T, int), ParseError>,
) -> bool {
    match (r, s) {
        (Ok(v), Ok(sv)) => v.0 == sv.0 && v.1 as int == sv.1,
        (Err(e), Err(se)) => e == se,
        _ => false,
    }
}

/// Whether byte `b` belongs to class `c`.
pub(crate) fn byte_is(c: ByteClass, b: u8) -> (r: bool)
    ensures
        r == byte_in_class(c, b),
{
    match c {
        ByteClass::Name => 0x20 <= b && b < 0x7f && b != 0x3a,
        ByteClass::Digit => 0x30 <= b && b <= 0x39,
        ByteClass::Float => (0x30 <= b && b <= 0x39) || b == 0x2d || b == 0x2e,
        ByteClass::Token => (0x30 <= b && b <= 0x39) || (0x41 <= b && b <= 0x5a) || (0x61 <= b
            && b <= 0x7a) || b == 0x2f,
        ByteClass::Ws => b == 0x20 || (0x09 <= b && b <= 0x0d),
    }
}

/// The end of the run of class `c` that starts at `pos`.
pub(crate) fn scan(input: &Vec<u8>, pos: usize, c: ByteClass) -> (r: usize)
    requires
        pos <= input@.len(),
    ensures
        r as int == spec_scan(input@, pos as int, c),
        pos <= r <= input@.len(),
{
    let n = input.len();
    let mut i = pos;
    while i < n && byte_is(c, input[i])
        invariant
            pos <= i <= n,
            n == input@.len(),
            spec_scan(input@, pos as int, c) == spec_scan(input@, i as int, c),
        decreases n - i,
    {
        i += 1;
    }
    proof {
        lemma_scan(input@, pos as int, c);
    }
    i
}

/// A zone field: a non-empty run of digits read as a number of at most 255.
pub(crate) fn parse_zone(input: &Vec<u8>, pos: usize, lab: Expected) -> (r: Result<
    (u8, usize),
    ParseError,
>)
    requires
        pos <= input@.len(),
    ensures
        pos_result_matches(r, spec_parse_zone(input@, pos as int, lab)),
{
    let e = scan(input, pos, ByteClass::Digit);
    proof {
        lemma_scan(input@, pos as int, ByteClass::Digit);
    }
    if e == pos {
        return Err(ParseError { pos, expected: lab });
    }
    let ghost whole = input@.subrange(pos as int, e as int);
    let mut v: u32 = 0;
    let mut i = pos;
    while i < e
        invariant
            pos <= i <= e <= input@.len(),
            e as int == spec_scan(input@, pos as int, ByteClass::Digit),
            forall|j: int|
                pos <= j < e ==> byte_in_class(ByteClass::Digit, input@[j]),
            whole == input@.subrange(pos as int, e as int),
            v <= 255,
            v as int == digits_val(input@.subrange(pos as int, i as int)),
        decreases e - i,
    {
        let d = input[i] - 0x30;
        let t = v * 10 + d as u32;
        proof {
            assert(input@.subrange(pos as int, i + 1).drop_last() =~= input@.subrange(
                pos as int,
                i as int,
            ));
            assert(input@.subrange(pos as int, i + 1).last() == input@[i as int]);
        }
        if t > 255 {
            proof {
                assert(digits_val(input@.subrange(pos as int, i + 1)) == t);
                assert(whole.take(i + 1 - pos) =~= input@.subrange(pos as int, i + 1));
                lemma_digits_val_take_le(whole, i + 1 - pos);
            }
            return Err(ParseError { pos, expected: lab });
        }
        v = t;
        i += 1;
    }
    proof {
        assert(input@.subrange(pos as int, e as int) == whole);
    }
    Ok((v as u8, e))
}

/// As [`pos_result_matches`], for a result that is only a position.
pub open spec fn pos_only_matches(r: Result<usize, ParseError>, s: Result<int, ParseError>) -> bool {
    match (r, s) {
        (Ok(p), Ok(sp)) => p as int == sp,
        (Err(e), Err(se)) => e == se,
        _ => false,
    }
}

/// A field separator: whitespace, `:`, whitespace.
pub(crate) fn parse_colon(input: &Vec<u8>, pos: usize) -> (r: Result<usize, ParseError>)
    requires
        pos <= input@.len(),
    ensures
        pos_only_matches(r, spec_parse_colon(input@, pos as int)),
{
    let a = scan(input, pos, ByteClass::Ws);
    if a < input.len() && input[a] == 0x3a {
        Ok(scan(input, a + 1, ByteClass::Ws))
    } else {
        Err(ParseError { pos: a, expected: Expected::FieldSeparator })
    }
}

/// The line break that ends a record.
pub(crate) fn parse_line_break(input: &Vec<u8>, pos: usize) -> (r: Result<usize, ParseError>)
    requires
        pos <= input@.len(),
    ensures
        pos_only_matches(r, spec_parse_line_break(input@, pos as int)),
{
    let n = input.len();
    if pos < n && input[pos] == 0x0d && pos + 1 < n && input[pos + 1] == 0x0a {
        Ok(pos + 2)
    } else if pos < n && 0x0a <= input[pos] && input[pos] <= 0x0d {
        Ok(pos + 1)
    } else {
        Err(ParseError { pos, expected: Expected::LineBreak })
    }
}

/// A decimal field: the run of digits, `-` and `.` that starts at `pos`,
/// read as an exact decimal number.
pub(crate) fn parse_decimal(input: &Vec<u8>, pos: usize, lab: Expected) -> (r: Result<
    (Decimal, usize),
    ParseError,
>)
    requires
        pos <= input@.len(),
    ensures
        pos_result_matches(r, spec_parse_decimal(input@, pos as int, lab)),
{
    let e = scan(input, pos, ByteClass::Float);
    proof {
        lemma_scan(input@, pos as int, ByteClass::Float);
    }
    let ghost t = input@.subrange(pos as int, e as int);
    let neg = e > pos && input[pos] == 0x2d;
    let bs = if neg {
        pos + 1
    } else {
        pos
    };
    let ghost b = if neg {
        t.drop_first()
    } else {
        t
    };
    proof {
        assert(b =~= input@.subrange(bs as int, e as int));
    }
    let err = ParseError { pos, expected: lab };
    let mut m: u64 = 0;
    let mut seen_dot = false;
    let mut dot_pos: usize = 0;
    let mut ndigits: usize = 0;
    let mut i = bs;
    while i < e
        invariant
            pos <= bs <= i <= e <= input@.len(),
            e as int == spec_scan(input@, pos as int, ByteClass::Float),
            forall|j: int| pos <= j < e ==> byte_in_class(ByteClass::Float, input@[j]),
            b == input@.subrange(bs as int, e as int),
            t == input@.subrange(pos as int, e as int),
            neg == (e > pos && input@[pos as int] == 0x2d),
            bs as int == (if neg {
                pos as int + 1
            } else {
                pos as int
            }),
            b == (if neg {
                t.drop_first()
            } else {
                t
            }),
            err == (ParseError { pos, expected: lab }),
            forall|j: int|
                bs <= j < i ==> (byte_in_class(ByteClass::Digit, input@[j]) || input@[j] == 0x2e),
            dot_count(input@.subrange(bs as int, i as int)) == if seen_dot {
                1int
            } else {
                0int
            },
            seen_dot ==> bs <= dot_pos < i && input@[dot_pos as int] == 0x2e && dot_tail_len(
                input@.subrange(bs as int, i as int),
            ) == i - 1 - dot_pos,
            !seen_dot ==> dot_tail_len(input@.subrange(bs as int, i as int)) < 0,
            ndigits == decimal_digits(input@.subrange(bs as int, i as int)).len(),
            ndigits <= i - bs,
            m as int == digits_val(decimal_digits(input@.subrange(bs as int, i as int))),
        decreases e - i,
    {
        let ghost pref = input@.subrange(bs as int, i as int);
        let ghost pref1 = input@.subrange(bs as int, i + 1);
        proof {
            assert(pref1.drop_last() =~= pref);
            assert(pref1.last() == input@[i as int]);
        }
        let bch = input[i];
        if bch == 0x2e {
            if seen_dot {
                proof {
                    let rest = input@.subrange(i + 1, e as int);
                    assert(dot_count(pref1) == 2);
                    assert(b =~= pref1 + rest);
                    lemma_dot_count_append(pref1, rest);
                    lemma_dot_count_nonneg(rest);
                    assert(!wf_decimal_body(b));
                }
                return Err(err);
            }
            seen_dot = true;
            dot_pos = i;
        } else if bch == 0x2d {
            proof {
                assert(b[i - bs] == 0x2d);
                assert(!wf_decimal_body(b));
            }
            return Err(err);
        } else {
            let d = (bch - 0x30) as u64;
            proof {
                assert(decimal_digits(pref1) == decimal_digits(pref).push(input@[i as int]));
                assert(decimal_digits(pref1).drop_last() =~= decimal_digits(pref));
            }
            let q = (u64::MAX - d) / 10;
            proof {
                vstd::arithmetic::div_mod::lemma_fundamental_div_mod((u64::MAX - d) as int, 10);
            }
            if m > q {
                proof {
                    assert(digits_val(decimal_digits(pref1)) == m * 10 + d);
                    assert(m * 10 + d > u64::MAX);
                    if wf_decimal_body(b) {
                        let rest = input@.subrange(i + 1, e as int);
                        assert(b =~= pref1 + rest);
                        lemma_decimal_digits_append(pref1, rest);
                        assert(decimal_digits(b) == decimal_digits(pref1) + decimal_digits(rest));
                        assert(decimal_digits(b).take(decimal_digits(pref1).len() as int)
                            =~= decimal_digits(pref1));
                        assert(forall|j: int|
                            0 <= j < b.len() ==> (byte_in_class(ByteClass::Digit, b[j]) || b[j]
                                == 0x2e));
                        lemma_decimal_digits_digits(b);
                        lemma_digits_val_take_le(
                            decimal_digits(b),
                            decimal_digits(pref1).len() as int,
                        );
                        assert(digits_val(decimal_digits(b)) > u64::MAX);
                    }
                }
                return Err(err);
            }
            m = m * 10 + d;
            ndigits = ndigits + 1;
        }
        i += 1;
    }
    proof {
        assert(input@.subrange(bs as int, e as int) == b);
    }
    if ndigits == 0 {
        proof {
            lemma_decimal_digits_len(b);
            assert(!wf_decimal_body(b));
        }
        return Err(err);
    }
    let sc = if seen_dot {
        e - dot_pos - 1
    } else {
        0
    };
    proof {
        lemma_decimal_digits_len(b);
        assert(wf_decimal_body(b));
    }
    if sc > 255 {
        return Err(err);
    }
    Ok((Decimal { neg, mantissa: m, scale: sc as u8 }, e))
}

/// A fresh copy of the bytes in `[from, to)`.
pub(crate) fn copy_range(input: &Vec<u8>, from: usize, to: usize) -> (r: Vec<u8>)
    requires
        from <= to <= input@.len(),
    ensures
        r@ == input@.subrange(from as int, to as int),
{
    let mut out: Vec<u8> = Vec::new();
    let mut i = from;
    while i < to
        invariant
            from <= i <= to <= input@.len(),
            out@ == input@.subrange(from as int, i as int),
        decreases to - i,
    {
        proof {
            assert(input@.subrange(from as int, i + 1) =~= input@.subrange(
                from as int,
                i as int,
            ).push(input@[i as int]));
        }
        out.push(input[i]);
        i += 1;
    }
    out
}

/// One override annotation, if one starts at `pos`.
pub(crate) fn parse_override(input: &Vec<u8>, pos: usize) -> (r: Result<
    Option<(Override, usize)>,
    ParseError,
>)
    requires
        pos <= input@.len(),
    ensures
        (match (r, spec_parse_override(input@, pos as int)) {
            (Ok(Some(v)), Ok(Some(sv))) => v.0@ == sv.0 && v.1 as int == sv.1,
            (Ok(None), Ok(None)) => true,
            (Err(e), Err(se)) => e == se,
            _ => false,
        }),
{
    let n = input.len();
    if pos >= n {
        return Ok(None);
    }
    let b = input[pos];
    if b == 0x28 {
        match parse_zone(input, pos + 1, Expected::CqZone) {
            Err(e) => Err(e),
            Ok((z, p)) => {
                if p < n && input[p] == 0x29 {
                    Ok(Some((Override::CqZone(z), p + 1)))
                } else {
                    Err(ParseError { pos: p, expected: Expected::OverrideEnd })
                }
            },
        }
    } else if b == 0x5b {
        match parse_zone(input, pos + 1, Expected::ItuZone) {
            Err(e) => Err(e),
            Ok((z, p)) => {
                if p < n && input[p] == 0x5d {
                    Ok(Some((Override::ItuZone(z), p + 1)))
                } else {
                    Err(ParseError { pos: p, expected: Expected::OverrideEnd })
                }
            },
        }
    } else if b == 0x7b {
        if n - pos > 2 && byte_is(ByteClass::Name, input[pos + 1]) && byte_is(
            ByteClass::Name,
            input[pos + 2],
        ) {
            if n - pos > 3 && input[pos + 3] == 0x7d {
                Ok(Some((Override::Continent(copy_range(input, pos + 1, pos + 3)), pos + 4)))
            } else {
                Err(ParseError { pos: pos + 3, expected: Expected::OverrideEnd })
            }
        } else {
            Err(ParseError { pos: pos + 1, expected: Expected::Continent })
        }
    } else if b == 0x7e {
        match parse_decimal(input, pos + 1, Expected::TimeOffset) {
            Err(e) => Err(e),
            Ok((d, p)) => {
                if p < n && input[p] == 0x7e {
                    Ok(Some((Override::TimeOffset(d), p + 1)))
                } else {
                    Err(ParseError { pos: p, expected: Expected::OverrideEnd })
                }
            },
        }
    } else if b == 0x3c {
        match parse_decimal(input, pos + 1, Expected::Latitude) {
            Err(e) => Err(e),
            Ok((la, p)) => {
                if p < n && input[p] == 0x2f {
                    match parse_decimal(input, p + 1, Expected::Longitude) {
                        Err(e) => Err(e),
                        Ok((lo, q)) => {
                            if q < n && input[q] == 0x3e {
                                Ok(Some((Override::Coordinates(la, lo), q + 1)))
                            } else {
                                Err(ParseError { pos: q, expected: Expected::OverrideEnd })
                            }
                        },
                    }
                } else {
                    Err(ParseError { pos: p, expected: Expected::CoordinateSeparator })
                }
            },
        }
    } else {
        Ok(None)
    }
}

/// What remains of an override run once the entries already read are put in
/// front of it.
pub open spec fn overrides_cont(
    acc: Seq<OverrideView>,
    r: Result<(Seq<OverrideView>, int), ParseError>,
) -> Result<(Seq<OverrideView>, int), ParseError> {
    match r {
        Ok((s, p)) => Ok((acc + s, p)),
        Err(e) => Err(e),
    }
}

/// The run of override annotations that starts at `pos`.
pub(crate) fn parse_overrides(input: &Vec<u8>, pos: usize) -> (r: Result<
    (Vec<Override>, usize),
    ParseError,
>)
    requires
        pos <= input@.len(),
    ensures
        (match (r, spec_parse_overrides(input@, pos as int)) {
            (Ok(v), Ok(sv)) => ovs_view(v.0@) == sv.0 && v.1 as int == sv.1,
            (Err(e), Err(se)) => e == se,
            _ => false,
        }),
{
    let mut acc: Vec<Override> = Vec::new();
    let mut cur = pos;
    proof {
        assert(ovs_view(acc@) =~= Seq::<OverrideView>::empty());
        match spec_parse_overrides(input@, pos as int) {
            Ok((s, p)) => {
                assert(ovs_view(acc@) + s =~= s);
            },
            Err(_) => {},
        }
    }
    loop
        invariant
            pos <= cur <= input@.len(),
            spec_parse_overrides(input@, pos as int) == overrides_cont(
                ovs_view(acc@),
                spec_parse_overrides(input@, cur as int),
            ),
        decreases input@.len() - cur,
    {
        match parse_override(input, cur) {
            Err(e) => {
                return Err(e);
            },
            Ok(None) => {
                proof {
                    assert(ovs_view(acc@) + Seq::<OverrideView>::empty() =~= ovs_view(acc@));
                }
                return Ok((acc, cur));
            },
            Ok(Some((o, p))) => {
                proof {
                    lemma_parse_override_bounds(input@, cur as int);
                    let oldv = ovs_view(acc@);
                    let newv = ovs_view(acc@.push(o));
                    assert(newv =~= oldv.push(o@));
                    match spec_parse_overrides(input@, p as int) {
                        Ok((s, q)) => {
                            assert(oldv + (seq![o@] + s) =~= newv + s);
                        },
                        Err(_) => {},
                    }
                }
                acc.push(o);
                cur = p;
            },
        }
    }
}

/// One alias entry with the whitespace around it.
pub(crate) fn parse_alias(input: &Vec<u8>, pos: usize) -> (r: Result<(Prefix, usize), ParseError>)
    requires
        pos <= input@.len(),
    ensures
        (match (r, spec_parse_alias(input@, pos as int)) {
            (Ok(v), Ok(sv)) => v.0@ == sv.0 && v.1 as int == sv.1,
            (Err(e), Err(se)) => e == se,
            _ => false,
        }),
{
    let a = scan(input, pos, ByteClass::Ws);
    let exact = a < input.len() && input[a] == 0x3d;
    let s = if exact {
        a + 1
    } else {
        a
    };
    let e = scan(input, s, ByteClass::Token);
    if e == s {
        return Err(ParseError { pos: s, expected: Expected::AliasToken });
    }
    let tok = copy_range(input, s, e);
    match parse_overrides(input, e) {
        Err(err) => Err(err),
        Ok((ovs, p)) => {
            proof {
                lemma_parse_overrides_bounds(input@, e as int);
            }
            let q = scan(input, p, ByteClass::Ws);
            let entry = if exact {
                Prefix::Callsign(tok, empty_is_none(ovs))
            } else {
                Prefix::Prefix(tok, empty_is_none(ovs))
            };
            Ok((entry, q))
        },
    }
}

/// What remains of an alias list once the entries already read are put in
/// front of it.
pub open spec fn aliases_cont(
    acc: Seq<PrefixView>,
    r: Result<(Seq<PrefixView>, int), ParseError>,
) -> Result<(Seq<PrefixView>, int), ParseError> {
    match r {
        Ok((s, p)) => Ok((acc + s, p)),
        Err(e) => Err(e),
    }
}

/// The alias list: one or more aliases separated by `,` and closed by `;`.
pub(crate) fn parse_alias_list(input: &Vec<u8>, pos: usize) -> (r: Result<
    (Vec<Prefix>, usize),
    ParseError,
>)
    requires
        pos <= input@.len(),
    ensures
        (match (r, spec_parse_alias_list(input@, pos as int)) {
            (Ok(v), Ok(sv)) => prefixes_view(v.0@) == sv.0 && v.1 as int == sv.1,
            (Err(e), Err(se)) => e == se,
            _ => false,
        }),
{
    let mut acc: Vec<Prefix> = Vec::new();
    let mut cur = pos;
    proof {
        assert(prefixes_view(acc@) =~= Seq::<PrefixView>::empty());
        match spec_parse_alias_list(input@, pos as int) {
            Ok((s, p)) => {
                assert(prefixes_view(acc@) + s =~= s);
            },
            Err(_) => {},
        }
    }
    loop
        invariant
            pos <= cur <= input@.len(),
            spec_parse_alias_list(input@, pos as int) == aliases_cont(
                prefixes_view(acc@),
                spec_parse_alias_list(input@, cur as int),
            ),
        decreases input@.len() - cur,
    {
        match parse_alias(input, cur) {
            Err(e) => {
                return Err(e);
            },
            Ok((al, p)) => {
                proof {
                    lemma_parse_alias_bounds(input@, cur as int);
                }
                if p < input.len() && input[p] == 0x2c {
                    proof {
                        let oldv = prefixes_view(acc@);
                        let newv = prefixes_view(acc@.push(al));
                        assert(newv =~= oldv.push(al@));
                        match spec_parse_alias_list(input@, p + 1) {
                            Ok((s, q)) => {
                                assert(oldv + (seq![al@] + s) =~= newv + s);
                            },
                            Err(_) => {},
                        }
                    }
                    acc.push(al);
                    cur = p + 1;
                } else if p < input.len() && input[p] == 0x3b {
                    proof {
                        let oldv = prefixes_view(acc@);
                        let newv = prefixes_view(acc@.push(al));
                        assert(newv =~= oldv.push(al@));
                        assert(oldv + seq![al@] =~= newv);
                    }
                    acc.push(al);
                    return Ok((acc, p + 1));
                } else {
                    return Err(ParseError { pos: p, expected: Expected::ListDelimiter });
                }
            },
        }
    }
}

/// One whole record, from its first byte to the byte after its line break.
pub(crate) fn parse_record(input: &Vec<u8>, pos: usize) -> (r: Result<(Country, usize), ParseError>)
    requires
        pos <= input@.len(),
    ensures
        (match (r, spec_parse_record(input@, pos as int)) {
            (Ok(v), Ok(sv)) => v.0@ == sv.0 && v.1 as int == sv.1,
            (Err(e), Err(se)) => e == se,
            _ => false,
        }),
{
    let n = input.len();
    let e = scan(input, pos, ByteClass::Name);
    if e - pos < 4 {
        return Err(ParseError { pos, expected: Expected::CountryName });
    }
    let name = copy_range(input, pos, e);
    let p1 = match parse_colon(input, e) {
        Err(er) => return Err(er),
        Ok(p) => p,
    };
    proof {
        lemma_parse_colon_bounds(input@, e as int);
    }
    let (cq, p2) = match parse_zone(input, p1, Expected::CqZone) {
        Err(er) => return Err(er),
        Ok(v) => v,
    };
    proof {
        lemma_parse_zone_bounds(input@, p1 as int, Expected::CqZone);
    }
    let p3 = match parse_colon(input, p2) {
        Err(er) => return Err(er),
        Ok(p) => p,
    };
    proof {
        lemma_parse_colon_bounds(input@, p2 as int);
    }
    let (itu, p4) = match parse_zone(input, p3, Expected::ItuZone) {
        Err(er) => return Err(er),
        Ok(v) => v,
    };
    proof {
        lemma_parse_zone_bounds(input@, p3 as int, Expected::ItuZone);
    }
    let p5 = match parse_colon(input, p4) {
        Err(er) => return Err(er),
        Ok(p) => p,
    };
    proof {
        lemma_parse_colon_bounds(input@, p4 as int);
    }
    if !(n - p5 >= 2 && byte_is(ByteClass::Name, input[p5]) && byte_is(
        ByteClass::Name,
        input[p5 + 1],
    )) {
        return Err(ParseError { pos: p5, expected: Expected::Continent });
    }
    let cont = copy_range(input, p5, p5 + 2);
    let p6 = match parse_colon(input, p5 + 2) {
        Err(er) => return Err(er),
        Ok(p) => p,
    };
    proof {
        lemma_parse_colon_bounds(input@, p5 + 2);
    }
    let (lat, p7) = match parse_decimal(input, p6, Expected::Latitude) {
        Err(er) => return Err(er),
        Ok(v) => v,
    };
    proof {
        lemma_parse_decimal_bounds(input@, p6 as int, Expected::Latitude);
    }
    let p8 = match parse_colon(input, p7) {
        Err(er) => return Err(er),
        Ok(p) => p,
    };
    proof {
        lemma_parse_colon_bounds(input@, p7 as int);
    }
    let (lon, p9) = match parse_decimal(input, p8, Expected::Longitude) {
        Err(er) => return Err(er),
        Ok(v) => v,
    };
    proof {
        lemma_parse_decimal_bounds(input@, p8 as int, Expected::Longitude);
    }
    let p10 = match parse_colon(input, p9) {
        Err(er) => return Err(er),
        Ok(p) => p,
    };
    proof {
        lemma_parse_colon_bounds(input@, p9 as int);
    }
    let (off, p11) = match parse_decimal(input, p10, Expected::TimeOffset) {
        Err(er) => return Err(er),
        Ok(v) => v,
    };
    proof {
        lemma_parse_decimal_bounds(input@, p10 as int, Expected::TimeOffset);
    }
    let p12 = match parse_colon(input, p11) {
        Err(er) => return Err(er),
        Ok(p) => p,
    };
    proof {
        lemma_parse_colon_bounds(input@, p11 as int);
    }
    let e2 = scan(input, p12, ByteClass::Name);
    if e2 == p12 {
        return Err(ParseError { pos: p12, expected: Expected::PrimaryPrefix });
    }
    let primary = copy_range(input, p12, e2);
    let p13 = match parse_colon(input, e2) {
        Err(er) => return Err(er),
        Ok(p) => p,
    };
    proof {
        lemma_parse_colon_bounds(input@, e2 as int);
    }
    let (aliases, p14) = match parse_alias_list(input, p13) {
        Err(er) => return Err(er),
        Ok(v) => v,
    };
    proof {
        lemma_parse_alias_list_bounds(input@, p13 as int);
    }
    let p15 = match parse_line_break(input, p14) {
        Err(er) => return Err(er),
        Ok(p) => p,
    };
    let country = Country {
        country_name: name,
        cq_zone: cq,
        itu_zone: itu,
        continent: cont,
        latitude: lat,
        longitude: lon,
        time_offset: off,
        primary_prefix: primary,
        prefix_list: aliases,
    };
    proof {
        match spec_parse_record(input@, pos as int) {
            Ok(sv) => {
                assert(country@ =~= sv.0);
            },
            Err(_) => {},
        }
    }
    Ok((country, p15))
}

/// What remains of the file once the records already read are put in front
/// of it.
pub open spec fn file_cont(
    acc: Seq<crate::records::CountryView>,
    r: Result<Seq<crate::records::CountryView>, ParseError>,
) -> Result<Seq<crate::records::CountryView>, ParseError> {
    match r {
        Ok(s) => Ok(acc + s),
        Err(e) => Err(e),
    }
}

/// The whole file as bytes: records until only whitespace remains.
pub fn parse_countries_bytes(input: &Vec<u8>) -> (r: Result<Vec<Country>, ParseError>)
    ensures
        (match (r, spec_parse_file(input@, 0)) {
            (Ok(v), Ok(sv)) => countries_view(v@) == sv,
            (Err(e), Err(se)) => e == se,
            _ => false,
        }),
{
    let mut acc: Vec<Country> = Vec::new();
    let mut cur: usize = 0;
    proof {
        assert(countries_view(acc@) =~= Seq::<crate::records::CountryView>::empty());
        match spec_parse_file(input@, 0) {
            Ok(s) => {
                assert(countries_view(acc@) + s =~= s);
            },
            Err(_) => {},
        }
    }
    loop
        invariant
            cur <= input@.len(),
            spec_parse_file(input@, 0) == file_cont(
                countries_view(acc@),
                spec_parse_file(input@, cur as int),
            ),
        decreases input@.len() - cur,
    {
        let w = scan(input, cur, ByteClass::Ws);
        if w == input.len() {
            proof {
                assert(countries_view(acc@) + Seq::<crate::records::CountryView>::empty()
                    =~= countries_view(acc@));
            }
            return Ok(acc);
        }
        match parse_record(input, cur) {
            Err(e) => {
                return Err(e);
            },
            Ok((c, p)) => {
                proof {
                    lemma_parse_record_bounds(input@, cur as int);
                    let oldv = countries_view(acc@);
                    let newv = countries_view(acc@.push(c));
                    assert(newv =~= oldv.push(c@));
                    match spec_parse_file(input@, p as int) {
                        Ok(s) => {
                            assert(oldv + (seq![c@] + s) =~= newv + s);
                        },
                        Err(_) => {},
                    }
                }
                acc.push(c);
                cur = p;
            },
        }
    }
}

/// The whole country file: its records in order, or the first parse error.
/// The input is read as its UTF-8 bytes; every well-formed record is plain
/// ASCII, and any other byte is rejected by the grammar.
pub fn parse_countries(s: &str) -> (r: Result<Vec<Country>, ParseError>)
    ensures
        (match (r, spec_parse_file(s.spec_bytes(), 0)) {
            (Ok(v), Ok(sv)) => countries_view(v@) == sv,
            (Err(e), Err(se)) => e == se,
            _ => false,
        }),
{
    let bytes = s.as_bytes_vec();
    parse_countries_bytes(&bytes)
}

} // verus!
