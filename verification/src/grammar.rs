//! The grammar of the country file, written out as total specification
//! functions over the input bytes.
//!
//! One record occupies one or more physical lines:
//!
//! ```text
//! <name> ':' <cq> ':' <itu> ':' <continent> ':' <lat> ':' <lon> ':'
//!   <offset> ':' <primary> ':' <alias_list> ';' <line break>
//! ```
//!
//! Fields are separated by `:` with insignificant whitespace around the
//! separator. The alias list is a comma-separated sequence of one or more
//! alias tokens; whitespace around the commas, line breaks included, is
//! insignificant, so the list may continue across physical lines. An alias
//! token is a non-empty run of ASCII letters, digits and `/`, marked as an
//! exact callsign by a leading `=`, and may be followed directly by any
//! number of override annotations:
//!
//! * `(` digits `)` replaces the CQ zone,
//! * `[` digits `]` replaces the ITU zone,
//! * `{` two characters `}` replaces the continent code,
//! * `~` decimal `~` replaces the time offset,
//! * `<` decimal `/` decimal `>` replaces latitude and longitude.
//!
//! Parsing is all or nothing: the first field that fails its local grammar
//! rejects the whole input with the failing construct and its position.

use vstd::prelude::*;

use crate::records::{CountryView, Decimal, OverrideView, PrefixView};

verus! {

/// The construct that a parse error expected and did not find.
#[derive(Clone, Copy, Debug, PartialEq, Eq, Structural)]
pub enum Expected {
    /// A country name of at least four characters.
    CountryName,
    /// A CQ zone: a run of digits no larger than 255.
    CqZone,
    /// An ITU zone: a run of digits no larger than 255.
    ItuZone,
    /// A two-character continent code.
    Continent,
    /// A latitude given as a decimal number.
    Latitude,
    /// A longitude given as a decimal number.
    Longitude,
    /// A time offset given as a decimal number.
    TimeOffset,
    /// A primary prefix of at least one character.
    PrimaryPrefix,
    /// A non-empty alias token of letters, digits and `/`.
    AliasToken,
    /// The `:` between two record fields.
    FieldSeparator,
    /// The `,` between two aliases or the `;` after the last one.
    ListDelimiter,
    /// The line break that ends a record.
    LineBreak,
    /// The `/` between the two coordinates of an override.
    CoordinateSeparator,
    /// The closing delimiter of an override annotation.
    OverrideEnd,
}

/// A parse error: the construct that was expected and the byte offset at
/// which it was expected.
#[derive(Clone, Copy, Debug, PartialEq, Eq, Structural)]
pub struct ParseError {
    /// Byte offset into the input at which the expected construct begins.
    pub pos: usize,
    /// The construct that the input does not provide there.
    pub expected: Expected,
}

/// The character classes out of which the grammar's runs are built.
#[derive(Clone, Copy, Debug, PartialEq, Eq, Structural)]
pub enum ByteClass {
    /// Printable ASCII except `:`: the name, continent and primary fields.
    Name,
    /// A decimal digit.
    Digit,
    /// A digit, `-` or `.`: the raw material of a decimal number.
    Float,
    /// An ASCII letter, digit or `/`: an alias token.
    Token,
    /// ASCII whitespace.
    Ws,
}

/// Whether byte `b` belongs to class `c`.
pub open spec fn byte_in_class(c: ByteClass, b: u8) -> bool {
    match c {
        ByteClass::Name => 0x20 <= b < 0x7f && b != 0x3a,
        ByteClass::Digit => 0x30 <= b <= 0x39,
        ByteClass::Float => 0x30 <= b <= 0x39 || b == 0x2d || b == 0x2e,
        ByteClass::Token => 0x30 <= b <= 0x39 || 0x41 <= b <= 0x5a || 0x61 <= b <= 0x7a || b
            == 0x2f,
        ByteClass::Ws => b == 0x20 || 0x09 <= b <= 0x0d,
    }
}

/// The end of the run of class `c` that starts at `pos`: the first position
/// at or after `pos` whose byte is not in the class, or the end of input.
pub open spec fn spec_scan(input: Seq<u8>, pos: int, c: ByteClass) -> int
    decreases input.len() - pos,
{
    if 0 <= pos < input.len() && byte_in_class(c, input[pos]) {
        spec_scan(input, pos + 1, c)
    } else {
        pos
    }
}

/// What a scan yields: a position between `pos` and the end, with every byte
/// of the run in the class and the byte after the run outside it.
pub proof fn lemma_scan(input: Seq<u8>, pos: int, c: ByteClass)
    requires
        0 <= pos <= input.len(),
    ensures
        pos <= spec_scan(input, pos, c) <= input.len(),
        forall|j: int| pos <= j < spec_scan(input, pos, c) ==> byte_in_class(c, input[j]),
        spec_scan(input, pos, c) < input.len() ==> !byte_in_class(
            c,
            input[spec_scan(input, pos, c)],
        ),
    decreases input.len() - pos,
{
    if pos < input.len() && byte_in_class(c, input[pos]) {
        lemma_scan(input, pos + 1, c);
    }
}

/// The number that a run of digit bytes denotes, most significant first.
pub open spec fn digits_val(s: Seq<u8>) -> int
    decreases s.len(),
{
    if s.len() == 0 {
        0
    } else {
        digits_val(s.drop_last()) * 10 + (s.last() - 0x30)
    }
}

/// The value of a run of digits is never negative.
pub proof fn lemma_digits_val_nonneg(s: Seq<u8>)
    requires
        forall|j: int| 0 <= j < s.len() ==> byte_in_class(ByteClass::Digit, s[j]),
    ensures
        digits_val(s) >= 0,
    decreases s.len(),
{
    if s.len() > 0 {
        lemma_digits_val_nonneg(s.drop_last());
    }
}

/// Dropping trailing digits can only shrink the value.
pub proof fn lemma_digits_val_take_le(s: Seq<u8>, k: int)
    requires
        forall|j: int| 0 <= j < s.len() ==> byte_in_class(ByteClass::Digit, s[j]),
        0 <= k <= s.len(),
    ensures
        digits_val(s.take(k)) <= digits_val(s),
    decreases s.len() - k,
{
    if k < s.len() {
        lemma_digits_val_take_le(s, k + 1);
        assert(s.take(k + 1).drop_last() =~= s.take(k));
        assert(s.take(k + 1).last() == s[k]);
        lemma_digits_val_nonneg(s.take(k));
    } else {
        assert(s.take(k) =~= s);
    }
}

/// A count of dots is never negative.
pub proof fn lemma_dot_count_nonneg(s: Seq<u8>)
    ensures
        dot_count(s) >= 0,
    decreases s.len(),
{
    if s.len() > 0 {
        lemma_dot_count_nonneg(s.drop_last());
    }
}

/// Dots are counted piece by piece.
pub proof fn lemma_dot_count_append(x: Seq<u8>, y: Seq<u8>)
    ensures
        dot_count(x + y) == dot_count(x) + dot_count(y),
    decreases y.len(),
{
    if y.len() == 0 {
        assert(x + y =~= x);
    } else {
        lemma_dot_count_append(x, y.drop_last());
        assert((x + y).drop_last() =~= x + y.drop_last());
        assert((x + y).last() == y.last());
    }
}

/// The digits of a concatenation are the concatenated digits.
pub proof fn lemma_decimal_digits_append(x: Seq<u8>, y: Seq<u8>)
    ensures
        decimal_digits(x + y) == decimal_digits(x) + decimal_digits(y),
    decreases y.len(),
{
    if y.len() == 0 {
        assert(x + y =~= x);
        assert(decimal_digits(x) + decimal_digits(y) =~= decimal_digits(x));
    } else {
        lemma_decimal_digits_append(x, y.drop_last());
        assert((x + y).drop_last() =~= x + y.drop_last());
        assert((x + y).last() == y.last());
        if y.last() != 0x2e {
            assert(decimal_digits(x) + decimal_digits(y.drop_last()).push(y.last())
                =~= (decimal_digits(x) + decimal_digits(y.drop_last())).push(y.last()));
        }
    }
}

/// Every byte that is not a dot survives into the digit sequence.
pub proof fn lemma_decimal_digits_len(s: Seq<u8>)
    ensures
        decimal_digits(s).len() == s.len() - dot_count(s),
    decreases s.len(),
{
    if s.len() > 0 {
        lemma_decimal_digits_len(s.drop_last());
    }
}

/// A body of digits and dots leaves only digits behind.
pub proof fn lemma_decimal_digits_digits(s: Seq<u8>)
    requires
        forall|j: int| 0 <= j < s.len() ==> (byte_in_class(ByteClass::Digit, s[j]) || s[j] == 0x2e),
    ensures
        forall|j: int|
            0 <= j < decimal_digits(s).len() ==> byte_in_class(ByteClass::Digit, decimal_digits(s)[j]),
    decreases s.len(),
{
    if s.len() > 0 {
        assert(forall|j: int|
            0 <= j < s.drop_last().len() ==> (byte_in_class(ByteClass::Digit, s.drop_last()[j])
                || s.drop_last()[j] == 0x2e));
        lemma_decimal_digits_digits(s.drop_last());
        let dd = decimal_digits(s);
        let dl = decimal_digits(s.drop_last());
        if s.last() != 0x2e {
            assert(byte_in_class(ByteClass::Digit, s[s.len() - 1]));
            assert forall|j: int| 0 <= j < dd.len() implies byte_in_class(
                ByteClass::Digit,
                dd[j],
            ) by {
                if j < dl.len() {
                    assert(dd[j] == dl[j]);
                } else {
                    assert(dd[j] == s.last());
                }
            }
        }
    }
}

/// A zone field: a non-empty run of digits whose value fits in eight bits.
/// On success the value and the position after the run.
pub open spec fn spec_parse_zone(input: Seq<u8>, pos: int, lab: Expected) -> Result<
    (u8, int),
    ParseError,
> {
    let e = spec_scan(input, pos, ByteClass::Digit);
    if e == pos {
        Err(ParseError { pos: pos as usize, expected: lab })
    } else if digits_val(input.subrange(pos, e)) > 255 {
        Err(ParseError { pos: pos as usize, expected: lab })
    } else {
        Ok((digits_val(input.subrange(pos, e)) as u8, e))
    }
}

/// The number of bytes after the last `.` in `s`, or `-1` when there is
/// none. In a body with at most one `.` this is the number of fraction
/// digits.
pub open spec fn dot_tail_len(s: Seq<u8>) -> int
    decreases s.len(),
{
    if s.len() == 0 {
        -1
    } else if s.last() == 0x2e {
        0
    } else {
        let r = dot_tail_len(s.drop_last());
        if r < 0 {
            -1
        } else {
            r + 1
        }
    }
}

/// How many `.` bytes `s` holds.
pub open spec fn dot_count(s: Seq<u8>) -> int
    decreases s.len(),
{
    if s.len() == 0 {
        0
    } else {
        dot_count(s.drop_last()) + if s.last() == 0x2e {
            1int
        } else {
            0int
        }
    }
}

/// A well-formed decimal body (the literal after any leading `-`): digits
/// and at most one `.`, with at least one digit.
pub open spec fn wf_decimal_body(b: Seq<u8>) -> bool {
    &&& forall|j: int|
        0 <= j < b.len() ==> (byte_in_class(ByteClass::Digit, b[j]) || b[j] == 0x2e)
    &&& dot_count(b) <= 1
    &&& b.len() - dot_count(b) >= 1
}

/// The digits of a decimal body, in order, the `.` dropped.
pub open spec fn decimal_digits(b: Seq<u8>) -> Seq<u8>
    decreases b.len(),
{
    if b.len() == 0 {
        Seq::empty()
    } else if b.last() == 0x2e {
        decimal_digits(b.drop_last())
    } else {
        decimal_digits(b.drop_last()).push(b.last())
    }
}

/// The exact number a decimal literal denotes, or `None` when the literal is
/// malformed or does not fit the representation: an optional `-`, then
/// digits with at most one `.` among them and at least one digit, the
/// mantissa no wider than 64 bits and at most 255 fraction digits.
pub open spec fn spec_decimal_of(t: Seq<u8>) -> Option<Decimal> {
    let neg = t.len() > 0 && t[0] == 0x2d;
    let b = if neg {
        t.drop_first()
    } else {
        t
    };
    if !wf_decimal_body(b) {
        None
    } else {
        let m = digits_val(decimal_digits(b));
        let sc = if dot_tail_len(b) >= 0 {
            dot_tail_len(b)
        } else {
            0
        };
        if m > u64::MAX || sc > 255 {
            None
        } else {
            Some(Decimal { neg, mantissa: m as u64, scale: sc as u8 })
        }
    }
}

/// A decimal field: the run of digits, `-` and `.` that starts at `pos`,
/// read as a decimal number. On success the number and the position after
/// the run.
pub open spec fn spec_parse_decimal(input: Seq<u8>, pos: int, lab: Expected) -> Result<
    (Decimal, int),
    ParseError,
> {
    let e = spec_scan(input, pos, ByteClass::Float);
    match spec_decimal_of(input.subrange(pos, e)) {
        Some(d) => Ok((d, e)),
        None => Err(ParseError { pos: pos as usize, expected: lab }),
    }
}

/// A field separator: insignificant whitespace, one `:`, insignificant
/// whitespace. On success the position after it.
pub open spec fn spec_parse_colon(input: Seq<u8>, pos: int) -> Result<int, ParseError> {
    let a = spec_scan(input, pos, ByteClass::Ws);
    if a < input.len() && input[a] == 0x3a {
        Ok(spec_scan(input, a + 1, ByteClass::Ws))
    } else {
        Err(ParseError { pos: a as usize, expected: Expected::FieldSeparator })
    }
}

/// The line break that ends a record: `\r\n` or a single line-break byte.
pub open spec fn spec_parse_line_break(input: Seq<u8>, pos: int) -> Result<int, ParseError> {
    if pos < input.len() && input[pos] == 0x0d && pos + 1 < input.len() && input[pos + 1] == 0x0a {
        Ok(pos + 2)
    } else if pos < input.len() && (0x0a <= input[pos] <= 0x0d) {
        Ok(pos + 1)
    } else {
        Err(ParseError { pos: pos as usize, expected: Expected::LineBreak })
    }
}

/// One override annotation at `pos`, if one starts there. `Ok(None)` when
/// the byte at `pos` opens no annotation; an error when one opens and its
/// inside is malformed.
pub open spec fn spec_parse_override(input: Seq<u8>, pos: int) -> Result<
    Option<(OverrideView, int)>,
    ParseError,
> {
    if pos >= input.len() {
        Ok(None)
    } else if input[pos] == 0x28 {  // '(' digits ')' replaces the CQ zone
        match spec_parse_zone(input, pos + 1, Expected::CqZone) {
            Err(e) => Err(e),
            Ok((z, p)) => if p < input.len() && input[p] == 0x29 {
                Ok(Some((OverrideView::CqZone(z), p + 1)))
            } else {
                Err(ParseError { pos: p as usize, expected: Expected::OverrideEnd })
            },
        }
    } else if input[pos] == 0x5b {  // '[' digits ']' replaces the ITU zone
        match spec_parse_zone(input, pos + 1, Expected::ItuZone) {
            Err(e) => Err(e),
            Ok((z, p)) => if p < input.len() && input[p] == 0x5d {
                Ok(Some((OverrideView::ItuZone(z), p + 1)))
            } else {
                Err(ParseError { pos: p as usize, expected: Expected::OverrideEnd })
            },
        }
    } else if input[pos] == 0x7b {  // '{' two characters '}' replaces the continent
        if pos + 2 < input.len() && byte_in_class(ByteClass::Name, input[pos + 1]) && byte_in_class(
            ByteClass::Name,
            input[pos + 2],
        ) {
            if pos + 3 < input.len() && input[pos + 3] == 0x7d {
                Ok(Some((OverrideView::Continent(input.subrange(pos + 1, pos + 3)), pos + 4)))
            } else {
                Err(ParseError { pos: (pos + 3) as usize, expected: Expected::OverrideEnd })
            }
        } else {
            Err(ParseError { pos: (pos + 1) as usize, expected: Expected::Continent })
        }
    } else if input[pos] == 0x7e {  // '~' decimal '~' replaces the time offset
        match spec_parse_decimal(input, pos + 1, Expected::TimeOffset) {
            Err(e) => Err(e),
            Ok((d, p)) => if p < input.len() && input[p] == 0x7e {
                Ok(Some((OverrideView::TimeOffset(d), p + 1)))
            } else {
                Err(ParseError { pos: p as usize, expected: Expected::OverrideEnd })
            },
        }
    } else if input[pos] == 0x3c {  // '<' lat '/' lon '>' replaces the coordinates
        match spec_parse_decimal(input, pos + 1, Expected::Latitude) {
            Err(e) => Err(e),
            Ok((la, p)) => if p < input.len() && input[p] == 0x2f {
                match spec_parse_decimal(input, p + 1, Expected::Longitude) {
                    Err(e) => Err(e),
                    Ok((lo, q)) => if q < input.len() && input[q] == 0x3e {
                        Ok(Some((OverrideView::Coordinates(la, lo), q + 1)))
                    } else {
                        Err(ParseError { pos: q as usize, expected: Expected::OverrideEnd })
                    },
                }
            } else {
                Err(ParseError { pos: p as usize, expected: Expected::CoordinateSeparator })
            },
        }
    } else {
        Ok(None)
    }
}

/// The run of override annotations that starts at `pos`, in order.
pub open spec fn spec_parse_overrides(input: Seq<u8>, pos: int) -> Result<
    (Seq<OverrideView>, int),
    ParseError,
>
    decreases input.len() - pos,
{
    match spec_parse_override(input, pos) {
        Err(e) => Err(e),
        Ok(None) => Ok((Seq::empty(), pos)),
        Ok(Some((o, p))) => if pos < p <= input.len() {
            match spec_parse_overrides(input, p) {
                Err(e) => Err(e),
                Ok((s, q)) => Ok((seq![o] + s, q)),
            }
        } else {
            Err(ParseError { pos: pos as usize, expected: Expected::OverrideEnd })
        },
    }
}

/// An empty override chain is reported as absent.
pub open spec fn spec_empty_to_none(s: Seq<OverrideView>) -> Option<Seq<OverrideView>> {
    if s.len() == 0 {
        None
    } else {
        Some(s)
    }
}

/// One alias entry with the insignificant whitespace around it: an optional
/// `=` marking an exact callsign, a non-empty token of letters, digits and
/// `/`, and the annotations directly after the token.
pub open spec fn spec_parse_alias(input: Seq<u8>, pos: int) -> Result<
    (PrefixView, int),
    ParseError,
> {
    let a = spec_scan(input, pos, ByteClass::Ws);
    let exact = a < input.len() && input[a] == 0x3d;
    let s = if exact {
        a + 1
    } else {
        a
    };
    let e = spec_scan(input, s, ByteClass::Token);
    if e == s {
        Err(ParseError { pos: s as usize, expected: Expected::AliasToken })
    } else {
        match spec_parse_overrides(input, e) {
            Err(err) => Err(err),
            Ok((ovs, p)) => {
                let q = spec_scan(input, p, ByteClass::Ws);
                let tok = input.subrange(s, e);
                if exact {
                    Ok((PrefixView::Callsign(tok, spec_empty_to_none(ovs)), q))
                } else {
                    Ok((PrefixView::Prefix(tok, spec_empty_to_none(ovs)), q))
                }
            },
        }
    }
}

/// The alias list: one or more aliases separated by `,` and closed by `;`.
/// On success the entries in order and the position after the `;`.
pub open spec fn spec_parse_alias_list(input: Seq<u8>, pos: int) -> Result<
    (Seq<PrefixView>, int),
    ParseError,
>
    decreases input.len() - pos,
{
    match spec_parse_alias(input, pos) {
        Err(e) => Err(e),
        Ok((a, p)) => if p < input.len() && input[p] == 0x2c {
            if pos < p + 1 <= input.len() {
                match spec_parse_alias_list(input, p + 1) {
                    Err(e) => Err(e),
                    Ok((s, q)) => Ok((seq![a] + s, q)),
                }
            } else {
                Err(ParseError { pos: pos as usize, expected: Expected::ListDelimiter })
            }
        } else if p < input.len() && input[p] == 0x3b {
            Ok((seq![a], p + 1))
        } else {
            Err(ParseError { pos: p as usize, expected: Expected::ListDelimiter })
        },
    }
}

/// One whole record, from its first byte to the byte after its line break.
pub open spec fn spec_parse_record(input: Seq<u8>, pos: int) -> Result<
    (CountryView, int),
    ParseError,
> {
    let e = spec_scan(input, pos, ByteClass::Name);
    if e - pos < 4 {
        Err(ParseError { pos: pos as usize, expected: Expected::CountryName })
    } else {
        let name = input.subrange(pos, e);
        match spec_parse_colon(input, e) {
            Err(er) => Err(er),
            Ok(p1) => match spec_parse_zone(input, p1, Expected::CqZone) {
                Err(er) => Err(er),
                Ok((cq, p2)) => match spec_parse_colon(input, p2) {
                    Err(er) => Err(er),
                    Ok(p3) => match spec_parse_zone(input, p3, Expected::ItuZone) {
                        Err(er) => Err(er),
                        Ok((itu, p4)) => match spec_parse_colon(input, p4) {
                            Err(er) => Err(er),
                            Ok(p5) => spec_parse_record_tail(input, pos, name, cq, itu, p5),
                        },
                    },
                },
            },
        }
    }
}

/// The rest of a record after its two zone fields: continent, coordinates,
/// time offset, primary prefix and the alias list.
pub open spec fn spec_parse_record_tail(
    input: Seq<u8>,
    pos: int,
    name: Seq<u8>,
    cq: u8,
    itu: u8,
    p5: int,
) -> Result<(CountryView, int), ParseError> {
    if p5 + 2 <= input.len() && byte_in_class(ByteClass::Name, input[p5]) && byte_in_class(
        ByteClass::Name,
        input[p5 + 1],
    ) {
        let cont = input.subrange(p5, p5 + 2);
        match spec_parse_colon(input, p5 + 2) {
            Err(er) => Err(er),
            Ok(p6) => match spec_parse_decimal(input, p6, Expected::Latitude) {
                Err(er) => Err(er),
                Ok((lat, p7)) => match spec_parse_colon(input, p7) {
                    Err(er) => Err(er),
                    Ok(p8) => match spec_parse_decimal(input, p8, Expected::Longitude) {
                        Err(er) => Err(er),
                        Ok((lon, p9)) => match spec_parse_colon(input, p9) {
                            Err(er) => Err(er),
                            Ok(p10) => match spec_parse_decimal(
                                input,
                                p10,
                                Expected::TimeOffset,
                            ) {
                                Err(er) => Err(er),
                                Ok((off, p11)) => match spec_parse_colon(input, p11) {
                                    Err(er) => Err(er),
                                    Ok(p12) => {
                                        let e2 = spec_scan(input, p12, ByteClass::Name);
                                        if e2 == p12 {
                                            Err(
                                                ParseError {
                                                    pos: p12 as usize,
                                                    expected: Expected::PrimaryPrefix,
                                                },
                                            )
                                        } else {
                                            let primary = input.subrange(p12, e2);
                                            match spec_parse_colon(input, e2) {
                                                Err(er) => Err(er),
                                                Ok(p13) => match spec_parse_alias_list(
                                                    input,
                                                    p13,
                                                ) {
                                                    Err(er) => Err(er),
                                                    Ok((aliases, p14)) => match spec_parse_line_break(
                                                        input,
                                                        p14,
                                                    ) {
                                                        Err(er) => Err(er),
                                                        Ok(p15) => Ok(
                                                            (
                                                                CountryView {
                                                                    country_name: name,
                                                                    cq_zone: cq,
                                                                    itu_zone: itu,
                                                                    continent: cont,
                                                                    latitude: lat,
                                                                    longitude: lon,
                                                                    time_offset: off,
                                                                    primary_prefix: primary,
                                                                    prefix_list: aliases,
                                                                },
                                                                p15,
                                                            ),
                                                        ),
                                                    },
                                                },
                                            }
                                        }
                                    },
                                },
                            },
                        },
                    },
                },
            },
        }
    } else {
        Err(ParseError { pos: p5 as usize, expected: Expected::Continent })
    }
}

/// The whole file: records until only whitespace is left. The parse is all
/// or nothing; any malformed byte before the trailing whitespace rejects
/// the whole input.
pub open spec fn spec_parse_file(input: Seq<u8>, pos: int) -> Result<Seq<CountryView>, ParseError>
    decreases input.len() - pos,
{
    if spec_scan(input, pos, ByteClass::Ws) == input.len() {
        Ok(Seq::empty())
    } else {
        match spec_parse_record(input, pos) {
            Err(e) => Err(e),
            Ok((c, p)) => if pos < p <= input.len() {
                match spec_parse_file(input, p) {
                    Err(e) => Err(e),
                    Ok(rs) => Ok(seq![c] + rs),
                }
            } else {
                Err(ParseError { pos: pos as usize, expected: Expected::LineBreak })
            },
        }
    }
}

/// A zone field that parses consumes at least one byte and stays in bounds.
pub proof fn lemma_parse_zone_bounds(input: Seq<u8>, pos: int, lab: Expected)
    requires
        0 <= pos <= input.len(),
    ensures
        match spec_parse_zone(input, pos, lab) {
            Ok((z, p)) => pos < p <= input.len(),
            Err(_) => true,
        },
{
    lemma_scan(input, pos, ByteClass::Digit);
}

/// A decimal field that parses consumes at least one byte and stays in
/// bounds.
pub proof fn lemma_parse_decimal_bounds(input: Seq<u8>, pos: int, lab: Expected)
    requires
        0 <= pos <= input.len(),
    ensures
        match spec_parse_decimal(input, pos, lab) {
            Ok((d, p)) => pos < p <= input.len(),
            Err(_) => true,
        },
{
    lemma_scan(input, pos, ByteClass::Float);
    let e = spec_scan(input, pos, ByteClass::Float);
    if e == pos {
        let t = input.subrange(pos, e);
        assert(t.len() == 0);
        let b = t;
        assert(dot_count(b) == 0);
        assert(!wf_decimal_body(b));
    }
}

/// A field separator that parses consumes at least the `:` and stays in
/// bounds.
pub proof fn lemma_parse_colon_bounds(input: Seq<u8>, pos: int)
    requires
        0 <= pos <= input.len(),
    ensures
        match spec_parse_colon(input, pos) {
            Ok(p) => pos < p <= input.len(),
            Err(_) => true,
        },
{
    lemma_scan(input, pos, ByteClass::Ws);
    let a = spec_scan(input, pos, ByteClass::Ws);
    if a < input.len() && input[a] == 0x3a {
        lemma_scan(input, a + 1, ByteClass::Ws);
    }
}

/// A line break consumes one or two bytes and stays in bounds.
pub proof fn lemma_parse_line_break_bounds(input: Seq<u8>, pos: int)
    requires
        0 <= pos <= input.len(),
    ensures
        match spec_parse_line_break(input, pos) {
            Ok(p) => pos < p <= input.len(),
            Err(_) => true,
        },
{
}

/// An override annotation that parses consumes at least its delimiters and
/// stays in bounds.
pub proof fn lemma_parse_override_bounds(input: Seq<u8>, pos: int)
    requires
        0 <= pos <= input.len(),
    ensures
        match spec_parse_override(input, pos) {
            Ok(Some((o, p))) => pos < p <= input.len(),
            _ => true,
        },
{
    if pos < input.len() {
        lemma_parse_zone_bounds(input, pos + 1, Expected::CqZone);
        lemma_parse_zone_bounds(input, pos + 1, Expected::ItuZone);
        lemma_parse_decimal_bounds(input, pos + 1, Expected::TimeOffset);
        lemma_parse_decimal_bounds(input, pos + 1, Expected::Latitude);
        match spec_parse_decimal(input, pos + 1, Expected::Latitude) {
            Ok((la, p)) => {
                if p < input.len() && input[p] == 0x2f {
                    lemma_parse_decimal_bounds(input, p + 1, Expected::Longitude);
                }
            },
            Err(_) => {},
        }
    }
}

/// A run of override annotations never moves backwards and stays in bounds.
pub proof fn lemma_parse_overrides_bounds(input: Seq<u8>, pos: int)
    requires
        0 <= pos <= input.len(),
    ensures
        match spec_parse_overrides(input, pos) {
            Ok((s, p)) => pos <= p <= input.len(),
            Err(_) => true,
        },
    decreases input.len() - pos,
{
    lemma_parse_override_bounds(input, pos);
    match spec_parse_override(input, pos) {
        Ok(Some((o, p))) => {
            lemma_parse_overrides_bounds(input, p);
        },
        _ => {},
    }
}

/// An alias entry that parses consumes at least its token and stays in
/// bounds.
pub proof fn lemma_parse_alias_bounds(input: Seq<u8>, pos: int)
    requires
        0 <= pos <= input.len(),
    ensures
        match spec_parse_alias(input, pos) {
            Ok((a, p)) => pos < p <= input.len(),
            Err(_) => true,
        },
{
    lemma_scan(input, pos, ByteClass::Ws);
    let a = spec_scan(input, pos, ByteClass::Ws);
    let exact = a < input.len() && input[a] == 0x3d;
    let s = if exact {
        a + 1
    } else {
        a
    };
    lemma_scan(input, s, ByteClass::Token);
    let e = spec_scan(input, s, ByteClass::Token);
    if e != s {
        lemma_parse_overrides_bounds(input, e);
        match spec_parse_overrides(input, e) {
            Ok((ovs, p)) => {
                lemma_scan(input, p, ByteClass::Ws);
            },
            Err(_) => {},
        }
    }
}

/// An alias list that parses consumes at least one alias and its `;` and
/// stays in bounds.
pub proof fn lemma_parse_alias_list_bounds(input: Seq<u8>, pos: int)
    requires
        0 <= pos <= input.len(),
    ensures
        match spec_parse_alias_list(input, pos) {
            Ok((s, p)) => pos < p <= input.len(),
            Err(_) => true,
        },
    decreases input.len() - pos,
{
    lemma_parse_alias_bounds(input, pos);
    match spec_parse_alias(input, pos) {
        Ok((a, p)) => {
            if p < input.len() && input[p] == 0x2c {
                lemma_parse_alias_list_bounds(input, p + 1);
            }
        },
        Err(_) => {},
    }
}

/// A record that parses consumes at least one byte and stays in bounds.
pub proof fn lemma_parse_record_bounds(input: Seq<u8>, pos: int)
    requires
        0 <= pos <= input.len(),
    ensures
        match spec_parse_record(input, pos) {
            Ok((c, p)) => pos < p <= input.len(),
            Err(_) => true,
        },
{
    lemma_scan(input, pos, ByteClass::Name);
    let e = spec_scan(input, pos, ByteClass::Name);
    if e - pos >= 4 {
        lemma_parse_colon_bounds(input, e);
        match spec_parse_colon(input, e) {
            Ok(p1) => {
                lemma_parse_zone_bounds(input, p1, Expected::CqZone);
                match spec_parse_zone(input, p1, Expected::CqZone) {
                    Ok((cq, p2)) => {
                        lemma_parse_colon_bounds(input, p2);
                        match spec_parse_colon(input, p2) {
                            Ok(p3) => {
                                lemma_parse_zone_bounds(input, p3, Expected::ItuZone);
                                match spec_parse_zone(input, p3, Expected::ItuZone) {
                                    Ok((itu, p4)) => {
                                        lemma_parse_colon_bounds(input, p4);
                                        match spec_parse_colon(input, p4) {
                                            Ok(p5) => {
                                                lemma_parse_record_tail_bounds(
                                                    input,
                                                    pos,
                                                    input.subrange(pos, e),
                                                    cq,
                                                    itu,
                                                    p5,
                                                );
                                            },
                                            Err(_) => {},
                                        }
                                    },
                                    Err(_) => {},
                                }
                            },
                            Err(_) => {},
                        }
                    },
                    Err(_) => {},
                }
            },
            Err(_) => {},
        }
    }
}

/// The tail of a record that parses ends past `p5` and stays in bounds.
pub proof fn lemma_parse_record_tail_bounds(
    input: Seq<u8>,
    pos: int,
    name: Seq<u8>,
    cq: u8,
    itu: u8,
    p5: int,
)
    requires
        0 <= pos <= input.len(),
        pos <= p5 <= input.len(),
    ensures
        match spec_parse_record_tail(input, pos, name, cq, itu, p5) {
            Ok((c, p)) => pos < p <= input.len(),
            Err(_) => true,
        },
{
    if p5 + 2 <= input.len() && byte_in_class(ByteClass::Name, input[p5]) && byte_in_class(
        ByteClass::Name,
        input[p5 + 1],
    ) {
        lemma_parse_colon_bounds(input, p5 + 2);
        match spec_parse_colon(input, p5 + 2) {
            Ok(p6) => {
                lemma_parse_decimal_bounds(input, p6, Expected::Latitude);
                match spec_parse_decimal(input, p6, Expected::Latitude) {
                    Ok((lat, p7)) => {
                        lemma_parse_colon_bounds(input, p7);
                        match spec_parse_colon(input, p7) {
                            Ok(p8) => {
                                lemma_parse_decimal_bounds(input, p8, Expected::Longitude);
                                match spec_parse_decimal(input, p8, Expected::Longitude) {
                                    Ok((lon, p9)) => {
                                        lemma_parse_colon_bounds(input, p9);
                                        match spec_parse_colon(input, p9) {
                                            Ok(p10) => {
                                                lemma_parse_decimal_bounds(
                                                    input,
                                                    p10,
                                                    Expected::TimeOffset,
                                                );
                                                match spec_parse_decimal(
                                                    input,
                                                    p10,
                                                    Expected::TimeOffset,
                                                ) {
                                                    Ok((off, p11)) => {
                                                        lemma_parse_record_tail_bounds_end(
                                                            input,
                                                            pos,
                                                            p11,
                                                        );
                                                    },
                                                    Err(_) => {},
                                                }
                                            },
                                            Err(_) => {},
                                        }
                                    },
                                    Err(_) => {},
                                }
                            },
                            Err(_) => {},
                        }
                    },
                    Err(_) => {},
                }
            },
            Err(_) => {},
        }
    }
}

/// The last fields of a record: after the time offset everything that
/// parses ends past its start and stays in bounds.
proof fn lemma_parse_record_tail_bounds_end(input: Seq<u8>, pos: int, p11: int)
    requires
        0 <= pos <= input.len(),
        pos <= p11 <= input.len(),
    ensures
        match spec_parse_colon(input, p11) {
            Ok(p12) => {
                let e2 = spec_scan(input, p12, ByteClass::Name);
                e2 != p12 ==> (match spec_parse_colon(input, e2) {
                    Ok(p13) => match spec_parse_alias_list(input, p13) {
                        Ok((aliases, p14)) => match spec_parse_line_break(input, p14) {
                            Ok(p15) => pos < p15 <= input.len(),
                            Err(_) => true,
                        },
                        Err(_) => true,
                    },
                    Err(_) => true,
                })
            },
            Err(_) => true,
        },
{
    lemma_parse_colon_bounds(input, p11);
    match spec_parse_colon(input, p11) {
        Ok(p12) => {
            lemma_scan(input, p12, ByteClass::Name);
            let e2 = spec_scan(input, p12, ByteClass::Name);
            if e2 != p12 {
                lemma_parse_colon_bounds(input, e2);
                match spec_parse_colon(input, e2) {
                    Ok(p13) => {
                        lemma_parse_alias_list_bounds(input, p13);
                        match spec_parse_alias_list(input, p13) {
                            Ok((aliases, p14)) => {
                                lemma_parse_line_break_bounds(input, p14);
                            },
                            Err(_) => {},
                        }
                    },
                    Err(_) => {},
                }
            }
        },
        Err(_) => {},
    }
}

} // verus!
