//! The laws of the resolution engine, stated over its mathematical model
//! and proved once and for all inputs.

use vstd::prelude::*;

use crate::index::{
    ascii_lower, lemma_lookup_len_at, lemma_lookup_len_ge, lemma_lookup_len_none, spec_lookup_len,
    spec_resolve, CtydatView,
};
use crate::records::{spec_apply_overrides, CountryView, OverrideView};
use crate::trie::is_prefix_of;

verus! {

/// An exact-callsign entry always outranks every prefix entry: whenever the
/// callsign index holds the case-folded query itself, the lookup returns
/// that entry's template with that entry's override chain applied, whatever
/// the prefix index holds.
pub proof fn lemma_exact_match_precedence(v: CtydatView, q: Seq<u8>)
    requires
        v.callsigns.dom().contains(q),
    ensures
        spec_resolve(v, q) == Some(spec_apply_overrides(v.callsigns[q].0, v.callsigns[q].1)),
{
}

/// Among prefix entries the longest leading key wins: when no exact entry
/// matches, some prefix key of length `plen` leads the query and no longer
/// one does, the lookup returns exactly that key's entry.
pub proof fn lemma_longest_prefix_precedence(v: CtydatView, q: Seq<u8>, plen: int)
    requires
        !v.callsigns.dom().contains(q),
        0 <= plen <= q.len(),
        v.prefixes.dom().contains(q.take(plen)),
        forall|k: Seq<u8>| v.prefixes.dom().contains(k) && is_prefix_of(k, q) ==> k.len() <= plen,
    ensures
        spec_resolve(v, q) == Some(
            spec_apply_overrides(v.prefixes[q.take(plen)].0, v.prefixes[q.take(plen)].1),
        ),
{
    lemma_lookup_len_at(v.prefixes, q, q.len() as int, plen);
}

/// A shorter leading prefix never shadows a longer one: when no exact entry
/// matches and some prefix key leads the query, the lookup matches, and the
/// key it uses is at least as long as every prefix key that leads the
/// query.
pub proof fn lemma_prefix_match_is_longest(v: CtydatView, q: Seq<u8>, k: Seq<u8>)
    requires
        !v.callsigns.dom().contains(q),
        v.prefixes.dom().contains(k),
        is_prefix_of(k, q),
    ensures
        spec_resolve(v, q) is Some,
        spec_lookup_len(v.prefixes, q, q.len() as int) >= k.len(),
{
    assert(q.take(k.len() as int) == k);
    lemma_lookup_len_ge(v.prefixes, q, q.len() as int, k.len() as int);
}

/// An override chain changes only the fields its overrides name: a chain
/// without a CQ-zone override leaves the CQ zone as the template has it,
/// and so on for every overridable field; the name, the primary prefix and
/// the detached alias list are never touched at all.
pub proof fn lemma_overrides_touch_only_named_fields(c: CountryView, ovs: Seq<OverrideView>)
    ensures
        (forall|i: int| 0 <= i < ovs.len() ==> !(ovs[i] is CqZone)) ==> spec_apply_overrides(
            c,
            ovs,
        ).cq_zone == c.cq_zone,
        (forall|i: int| 0 <= i < ovs.len() ==> !(ovs[i] is ItuZone)) ==> spec_apply_overrides(
            c,
            ovs,
        ).itu_zone == c.itu_zone,
        (forall|i: int| 0 <= i < ovs.len() ==> !(ovs[i] is Continent)) ==> spec_apply_overrides(
            c,
            ovs,
        ).continent == c.continent,
        (forall|i: int| 0 <= i < ovs.len() ==> !(ovs[i] is Coordinates)) ==> spec_apply_overrides(
            c,
            ovs,
        ).latitude == c.latitude && spec_apply_overrides(c, ovs).longitude == c.longitude,
        (forall|i: int| 0 <= i < ovs.len() ==> !(ovs[i] is TimeOffset)) ==> spec_apply_overrides(
            c,
            ovs,
        ).time_offset == c.time_offset,
        spec_apply_overrides(c, ovs).country_name == c.country_name,
        spec_apply_overrides(c, ovs).primary_prefix == c.primary_prefix,
        spec_apply_overrides(c, ovs).prefix_list == c.prefix_list,
    decreases ovs.len(),
{
    if ovs.len() > 0 {
        lemma_overrides_touch_only_named_fields(c, ovs.drop_last());
        assert(forall|i: int|
            0 <= i < ovs.drop_last().len() ==> ovs.drop_last()[i] == ovs[i]);
    }
}

/// One CQ-zone override alone yields the template with exactly that zone
/// replaced.
pub proof fn lemma_cq_zone_override(c: CountryView, z: u8)
    ensures
        spec_apply_overrides(c, seq![OverrideView::CqZone(z)]) == (CountryView {
            cq_zone: z,
            ..c
        }),
{
    let ovs = seq![OverrideView::CqZone(z)];
    assert(ovs.len() == 1);
    assert(ovs.last() == OverrideView::CqZone(z));
    assert(ovs.drop_last() =~= Seq::<OverrideView>::empty());
    assert(spec_apply_overrides(c, ovs.drop_last()) == c);
    assert(spec_apply_overrides(c, ovs) =~= (CountryView { cq_zone: z, ..c }));
}

/// Case folding settles after one pass.
pub proof fn lemma_ascii_lower_idempotent(s: Seq<u8>)
    ensures
        ascii_lower(ascii_lower(s)) == ascii_lower(s),
{
    assert(ascii_lower(ascii_lower(s)) =~= ascii_lower(s));
}

/// Lookups are case-insensitive: two callsigns with the same ASCII case
/// fold resolve to the same result, since a lookup sees its query only
/// through that fold.
pub proof fn lemma_resolve_case_insensitive(v: CtydatView, a: Seq<u8>, b: Seq<u8>)
    requires
        ascii_lower(a) == ascii_lower(b),
    ensures
        spec_resolve(v, ascii_lower(a)) == spec_resolve(v, ascii_lower(b)),
{
}

/// A callsign that shares no key with either index yields no match: when
/// the callsign index does not hold the query and no prefix key leads it,
/// the lookup returns nothing rather than an error or a default record.
pub proof fn lemma_no_match(v: CtydatView, q: Seq<u8>)
    requires
        !v.callsigns.dom().contains(q),
        forall|k: Seq<u8>| v.prefixes.dom().contains(k) ==> !is_prefix_of(k, q),
    ensures
        spec_resolve(v, q) is None,
{
    lemma_lookup_len_none(v.prefixes, q, q.len() as int);
}

} // verus!
