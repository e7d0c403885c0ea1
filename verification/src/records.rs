//! The data model: one country record of the country file, the alias entries
//! attached to it, and the per-alias field overrides.

use vstd::prelude::*;
use vstd::slice::slice_to_vec;

verus! {

/// An exact signed decimal number, as it stands in the country file.
///
/// The value denoted is `mantissa / 10^scale`, negated when `neg` is set.
/// `mantissa` holds every digit of the literal read as one integer and
/// `scale` says how many of those digits stand after the decimal point,
/// so `-24.82` is `{ neg: true, mantissa: 2482, scale: 2 }`.
#[derive(Clone, Copy, Debug, PartialEq, Eq, Structural)]
pub struct Decimal {
    /// True when the literal carries a leading minus sign.
    pub neg: bool,
    /// All digits of the literal, read as one integer.
    pub mantissa: u64,
    /// How many of the digits stand after the decimal point.
    pub scale: u8,
}

/// A field correction attached to one alias entry, applied on top of the
/// country's base record at query time.
#[derive(Clone, Debug, PartialEq)]
pub enum Override {
    /// Replaces the record's CQ zone.
    CqZone(u8),
    /// Replaces the record's ITU zone.
    ItuZone(u8),
    /// Replaces the record's latitude and longitude.
    Coordinates(Decimal, Decimal),
    /// Replaces the record's two-letter continent code.
    Continent(Vec<u8>),
    /// Replaces the record's time offset from UTC.
    TimeOffset(Decimal),
}

/// Mathematical model of an [`Override`].
pub ghost enum OverrideView {
    CqZone(u8),
    ItuZone(u8),
    Coordinates(Decimal, Decimal),
    Continent(Seq<u8>),
    TimeOffset(Decimal),
}

impl View for Override {
    type V = OverrideView;

    open spec fn view(&self) -> OverrideView {
        match self {
            Override::CqZone(z) => OverrideView::CqZone(*z),
            Override::ItuZone(z) => OverrideView::ItuZone(*z),
            Override::Coordinates(la, lo) => OverrideView::Coordinates(*la, *lo),
            Override::Continent(c) => OverrideView::Continent(c@),
            Override::TimeOffset(t) => OverrideView::TimeOffset(*t),
        }
    }
}

/// The model of a sequence of overrides.
pub open spec fn ovs_view(s: Seq<Override>) -> Seq<OverrideView> {
    s.map_values(|o: Override| o@)
}

/// The model of an optional override chain.
pub open spec fn opt_ovs_view(o: Option<Vec<Override>>) -> Option<Seq<OverrideView>> {
    match o {
        Some(v) => Some(ovs_view(v@)),
        None => None,
    }
}

/// One alias entry of a record: either a token that must equal a whole
/// callsign, or a token that matches every callsign starting with it.
/// Each carries its optional override chain.
#[derive(Clone, Debug, PartialEq)]
pub enum Prefix {
    /// The token must match a full callsign exactly.
    Callsign(Vec<u8>, Option<Vec<Override>>),
    /// The token matches any callsign that starts with it.
    Prefix(Vec<u8>, Option<Vec<Override>>),
}

/// Mathematical model of a [`Prefix`].
pub ghost enum PrefixView {
    Callsign(Seq<u8>, Option<Seq<OverrideView>>),
    Prefix(Seq<u8>, Option<Seq<OverrideView>>),
}

impl View for Prefix {
    type V = PrefixView;

    open spec fn view(&self) -> PrefixView {
        match self {
            Prefix::Callsign(t, o) => PrefixView::Callsign(t@, opt_ovs_view(*o)),
            Prefix::Prefix(t, o) => PrefixView::Prefix(t@, opt_ovs_view(*o)),
        }
    }
}

/// The model of a sequence of alias entries.
pub open spec fn prefixes_view(s: Seq<Prefix>) -> Seq<PrefixView> {
    s.map_values(|p: Prefix| p@)
}

/// One country record of the database.
///
/// Text fields hold the record's bytes as they stand in the file; the file
/// format only admits printable ASCII in them.
#[derive(Clone, Debug, PartialEq)]
pub struct Country {
    /// Country name, at least four bytes long.
    pub country_name: Vec<u8>,
    /// CQ zone number.
    pub cq_zone: u8,
    /// ITU zone number.
    pub itu_zone: u8,
    /// Two-letter continent code.
    pub continent: Vec<u8>,
    /// Latitude in degrees, positive towards North.
    pub latitude: Decimal,
    /// Longitude in degrees, positive towards West.
    pub longitude: Decimal,
    /// Local time offset from UTC in hours.
    pub time_offset: Decimal,
    /// The canonical prefix of the country.
    pub primary_prefix: Vec<u8>,
    /// Alias entries, the primary prefix among them. Filled by the parser,
    /// detached again when an index is built from the record.
    pub prefix_list: Vec<Prefix>,
}

/// Mathematical model of a [`Country`].
#[verifier::ext_equal]
pub ghost struct CountryView {
    pub country_name: Seq<u8>,
    pub cq_zone: u8,
    pub itu_zone: u8,
    pub continent: Seq<u8>,
    pub latitude: Decimal,
    pub longitude: Decimal,
    pub time_offset: Decimal,
    pub primary_prefix: Seq<u8>,
    pub prefix_list: Seq<PrefixView>,
}

impl View for Country {
    type V = CountryView;

    open spec fn view(&self) -> CountryView {
        CountryView {
            country_name: self.country_name@,
            cq_zone: self.cq_zone,
            itu_zone: self.itu_zone,
            continent: self.continent@,
            latitude: self.latitude,
            longitude: self.longitude,
            time_offset: self.time_offset,
            primary_prefix: self.primary_prefix@,
            prefix_list: prefixes_view(self.prefix_list@),
        }
    }
}

/// The model of a sequence of records.
pub open spec fn countries_view(s: Seq<Country>) -> Seq<CountryView> {
    s.map_values(|c: Country| c@)
}

/// The record with its alias list detached: what the index stores and what a
/// lookup clones before overrides are applied.
pub open spec fn spec_template(c: CountryView) -> CountryView {
    CountryView { prefix_list: Seq::empty(), ..c }
}

/// The effect of one override: it replaces exactly the fields it names.
pub open spec fn spec_apply_override(c: CountryView, o: OverrideView) -> CountryView {
    match o {
        OverrideView::CqZone(z) => CountryView { cq_zone: z, ..c },
        OverrideView::ItuZone(z) => CountryView { itu_zone: z, ..c },
        OverrideView::Coordinates(la, lo) => CountryView { latitude: la, longitude: lo, ..c },
        OverrideView::Continent(x) => CountryView { continent: x, ..c },
        OverrideView::TimeOffset(t) => CountryView { time_offset: t, ..c },
    }
}

/// A whole override chain applied in order: a later override wins on the
/// fields it shares with an earlier one.
pub open spec fn spec_apply_overrides(c: CountryView, ovs: Seq<OverrideView>) -> CountryView
    decreases ovs.len(),
{
    if ovs.len() == 0 {
        c
    } else {
        spec_apply_override(spec_apply_overrides(c, ovs.drop_last()), ovs.last())
    }
}

/// A fresh copy of a byte string.
pub fn clone_bytes(v: &Vec<u8>) -> (r: Vec<u8>)
    ensures
        r@ == v@,
{
    slice_to_vec(v.as_slice())
}

/// A fresh copy of one override.
pub fn clone_override(o: &Override) -> (r: Override)
    ensures
        r@ == o@,
{
    match o {
        Override::CqZone(z) => Override::CqZone(*z),
        Override::ItuZone(z) => Override::ItuZone(*z),
        Override::Coordinates(la, lo) => Override::Coordinates(*la, *lo),
        Override::Continent(c) => Override::Continent(clone_bytes(c)),
        Override::TimeOffset(t) => Override::TimeOffset(*t),
    }
}

/// A fresh copy of an override chain.
pub fn clone_overrides(v: &Vec<Override>) -> (r: Vec<Override>)
    ensures
        ovs_view(r@) == ovs_view(v@),
{
    let mut out: Vec<Override> = Vec::new();
    let n = v.len();
    let mut i: usize = 0;
    while i < n
        invariant
            i <= n,
            n == v@.len(),
            out@.len() == i,
            forall|j: int| 0 <= j < i ==> out@[j]@ == v@[j]@,
        decreases n - i,
    {
        out.push(clone_override(&v[i]));
        i += 1;
    }
    proof {
        assert(ovs_view(out@) =~= ovs_view(v@));
    }
    out
}

impl Country {
    /// A fresh copy of this record, its alias list cleared and the given
    /// override chain applied in order.
    pub(crate) fn implement_overrides(&self, overrides: &Vec<Override>) -> (r: Country)
        ensures
            r@ == spec_apply_overrides(spec_template(self@), ovs_view(overrides@)),
    {
        let mut country = Country {
            country_name: clone_bytes(&self.country_name),
            cq_zone: self.cq_zone,
            itu_zone: self.itu_zone,
            continent: clone_bytes(&self.continent),
            latitude: self.latitude,
            longitude: self.longitude,
            time_offset: self.time_offset,
            primary_prefix: clone_bytes(&self.primary_prefix),
            prefix_list: Vec::new(),
        };
        proof {
            assert(country@ =~= spec_template(self@));
        }
        let n = overrides.len();
        let mut i: usize = 0;
        while i < n
            invariant
                i <= n,
                n == overrides@.len(),
                country@ == spec_apply_overrides(spec_template(self@), ovs_view(overrides@).take(i as int)),
            decreases n - i,
        {
            proof {
                assert(ovs_view(overrides@).take(i + 1).drop_last() =~= ovs_view(overrides@).take(
                    i as int,
                ));
                assert(ovs_view(overrides@).take(i + 1).last() == overrides@[i as int]@);
            }
            match &overrides[i] {
                Override::CqZone(z) => {
                    country.cq_zone = *z;
                },
                Override::ItuZone(z) => {
                    country.itu_zone = *z;
                },
                Override::Coordinates(la, lo) => {
                    country.latitude = *la;
                    country.longitude = *lo;
                },
                Override::Continent(c) => {
                    country.continent = clone_bytes(c);
                },
                Override::TimeOffset(t) => {
                    country.time_offset = *t;
                },
            }
            proof {
                assert(country@ =~= spec_apply_overrides(
                    spec_template(self@),
                    ovs_view(overrides@).take(i + 1),
                ));
            }
            i += 1;
        }
        proof {
            assert(ovs_view(overrides@).take(n as int) =~= ovs_view(overrides@));
        }
        country
    }
}

/// An empty vector becomes `None`; any other vector is kept as `Some`.
pub fn empty_is_none<V>(i: Vec<V>) -> (r: Option<Vec<V>>)
    ensures
        i@.len() == 0 ==> r is None,
        i@.len() > 0 ==> r == Some(i),
{
    if i.is_empty() {
        None
    } else {
        Some(i)
    }
}

} // verus!
