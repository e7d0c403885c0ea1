//! The resolution engine: two longest-prefix indexes built once from the
//! parsed records, and the lookup that answers which country a callsign
//! belongs to.
//!
//! Every alias entry of every record is keyed by its case-folded token:
//! exact-callsign aliases go into one index, prefix aliases into the other.
//! All entries of one record share one template, the record with its alias
//! list detached. When two aliases collide on the same key within the same
//! index, the later insertion wins. A lookup case-folds the query, prefers
//! an exact-callsign match over any prefix match, and among prefix matches
//! takes the longest key; the matched entry's override chain is applied to
//! a copy of its template.

use vstd::prelude::*;
use vstd::string::{StrSliceExecFns, StringSliceAdditionalSpecFns};

use crate::grammar::{spec_parse_file, ParseError};
use crate::parse::parse_countries;
use crate::records::{
    clone_bytes, clone_overrides, countries_view, opt_ovs_view, ovs_view, spec_apply_overrides, spec_template,
    Country, CountryView, Override, OverrideView, Prefix, PrefixView,
};
use crate::trie::{
    is_prefix_of, trie_get, trie_get_longest_prefix, trie_insert, trie_map, trie_new, PrefixTrie,
};

verus! {

/// One byte folded to lower case: ASCII capitals move down, every other
/// byte stays.
pub open spec fn lower_byte(b: u8) -> u8 {
    if 0x41 <= b <= 0x5a {
        (b + 0x20) as u8
    } else {
        b
    }
}

/// The ASCII case fold of a byte string.
pub open spec fn ascii_lower(s: Seq<u8>) -> Seq<u8> {
    s.map_values(|b: u8| lower_byte(b))
}

/// The ASCII case fold, computed.
pub fn lower_bytes(v: &Vec<u8>) -> (r: Vec<u8>)
    ensures
        r@ == ascii_lower(v@),
{
    let mut out: Vec<u8> = Vec::new();
    let n = v.len();
    let mut i: usize = 0;
    while i < n
        invariant
            i <= n,
            n == v@.len(),
            out@.len() == i,
            forall|j: int| 0 <= j < i ==> out@[j] == lower_byte(v@[j]),
        decreases n - i,
    {
        let b = v[i];
        if 0x41 <= b && b <= 0x5a {
            out.push(b + 0x20);
        } else {
            out.push(b);
        }
        i += 1;
    }
    proof {
        assert(out@ =~= ascii_lower(v@));
    }
    out
}

/// Mathematical model of the whole index: two finite maps from case-folded
/// key bytes to an entry, the entry being the record template and the
/// override chain of the alias that carries the key.
#[verifier::ext_equal]
pub ghost struct CtydatView {
    /// Entries that must match a whole callsign exactly.
    pub callsigns: Map<Seq<u8>, (CountryView, Seq<OverrideView>)>,
    /// Entries that match every callsign starting with their key.
    pub prefixes: Map<Seq<u8>, (CountryView, Seq<OverrideView>)>,
}

/// The index before any record is added.
pub open spec fn empty_index() -> CtydatView {
    CtydatView { callsigns: Map::empty(), prefixes: Map::empty() }
}

/// An absent override chain weighs the same as an empty one.
pub open spec fn spec_ovs_or_empty(o: Option<Seq<OverrideView>>) -> Seq<OverrideView> {
    match o {
        Some(s) => s,
        None => Seq::empty(),
    }
}

/// One alias entry added to the index: its token is case-folded and bound,
/// in the index its form selects, to the record's template and its own
/// override chain, replacing any earlier binding of the same key.
pub open spec fn spec_add_alias(m: CtydatView, template: CountryView, a: PrefixView) -> CtydatView {
    match a {
        PrefixView::Callsign(tok, ovs) => CtydatView {
            callsigns: m.callsigns.insert(ascii_lower(tok), (template, spec_ovs_or_empty(ovs))),
            ..m
        },
        PrefixView::Prefix(tok, ovs) => CtydatView {
            prefixes: m.prefixes.insert(ascii_lower(tok), (template, spec_ovs_or_empty(ovs))),
            ..m
        },
    }
}

/// A record's alias entries added in order.
pub open spec fn spec_add_aliases(
    m: CtydatView,
    template: CountryView,
    aliases: Seq<PrefixView>,
) -> CtydatView
    decreases aliases.len(),
{
    if aliases.len() == 0 {
        m
    } else {
        spec_add_alias(spec_add_aliases(m, template, aliases.drop_last()), template, aliases.last())
    }
}

/// One record added to the index: its alias list is detached, and every
/// alias is bound to the remaining template.
pub open spec fn spec_add_record(m: CtydatView, c: CountryView) -> CtydatView {
    spec_add_aliases(m, spec_template(c), c.prefix_list)
}

/// The index that a sequence of records builds, record by record in order:
/// within each index the last insertion of a key wins.
pub open spec fn spec_build_index(records: Seq<CountryView>) -> CtydatView
    decreases records.len(),
{
    if records.len() == 0 {
        empty_index()
    } else {
        spec_add_record(spec_build_index(records.drop_last()), records.last())
    }
}

/// The length of the longest key of `m`, of length at most `n`, that is a
/// leading substring of `q`; `-1` when no such key exists.
pub open spec fn spec_lookup_len(
    m: Map<Seq<u8>, (CountryView, Seq<OverrideView>)>,
    q: Seq<u8>,
    n: int,
) -> int
    decreases n + 1,
{
    if n < 0 {
        -1
    } else if m.dom().contains(q.take(n)) {
        n
    } else {
        spec_lookup_len(m, q, n - 1)
    }
}

/// What a lookup of an already case-folded query returns: the exact match
/// when the callsign index holds the query itself, else the longest prefix
/// match, in both cases the entry's override chain applied to its template;
/// nothing when neither index matches.
pub open spec fn spec_resolve(v: CtydatView, q: Seq<u8>) -> Option<CountryView> {
    if v.callsigns.dom().contains(q) {
        Some(spec_apply_overrides(v.callsigns[q].0, v.callsigns[q].1))
    } else {
        let l = spec_lookup_len(v.prefixes, q, q.len() as int);
        if l >= 0 {
            Some(spec_apply_overrides(v.prefixes[q.take(l)].0, v.prefixes[q.take(l)].1))
        } else {
            None
        }
    }
}

/// When a key of `m` of length `plen` is a leading substring of `q` and no
/// longer key of `m` is, the longest-match length is exactly `plen`.
pub proof fn lemma_lookup_len_at(
    m: Map<Seq<u8>, (CountryView, Seq<OverrideView>)>,
    q: Seq<u8>,
    n: int,
    plen: int,
)
    requires
        0 <= plen <= n <= q.len(),
        m.dom().contains(q.take(plen)),
        forall|k: Seq<u8>| m.dom().contains(k) && is_prefix_of(k, q) ==> k.len() <= plen,
    ensures
        spec_lookup_len(m, q, n) == plen,
    decreases n,
{
    if n > plen {
        assert(q.take(n).len() == n);
        assert(is_prefix_of(q.take(n), q));
        assert(!m.dom().contains(q.take(n)));
        lemma_lookup_len_at(m, q, n - 1, plen);
    } else {
        assert(q.take(plen).len() == plen);
    }
}

/// A key of `m` of length `klen` that is a leading substring of `q` puts a
/// floor under the longest-match length.
pub proof fn lemma_lookup_len_ge(
    m: Map<Seq<u8>, (CountryView, Seq<OverrideView>)>,
    q: Seq<u8>,
    n: int,
    klen: int,
)
    requires
        0 <= klen <= n <= q.len(),
        m.dom().contains(q.take(klen)),
    ensures
        spec_lookup_len(m, q, n) >= klen,
    decreases n,
{
    if n > klen && !m.dom().contains(q.take(n)) {
        lemma_lookup_len_ge(m, q, n - 1, klen);
    }
}

/// When no key of `m` is a leading substring of `q`, there is no match.
pub proof fn lemma_lookup_len_none(
    m: Map<Seq<u8>, (CountryView, Seq<OverrideView>)>,
    q: Seq<u8>,
    n: int,
)
    requires
        n <= q.len(),
        forall|k: Seq<u8>| m.dom().contains(k) ==> !is_prefix_of(k, q),
    ensures
        spec_lookup_len(m, q, n) == -1,
    decreases n + 1,
{
    if n >= 0 {
        assert(q.take(n).len() == n);
        assert(is_prefix_of(q.take(n), q));
        assert(!m.dom().contains(q.take(n)));
        lemma_lookup_len_none(m, q, n - 1);
    }
}

/// The entry a trie value stands for: the template of its record and the
/// override chain of its alias.
pub open spec fn entry_ref_view(
    entries: Seq<(usize, Vec<Override>)>,
    countries: Seq<Country>,
    i: usize,
) -> (CountryView, Seq<OverrideView>) {
    (countries[entries[i as int].0 as int]@, ovs_view(entries[i as int].1@))
}

/// The finite map an index denotes: each trie key, bound to the entry its
/// stored position stands for.
pub open spec fn index_view(
    tm: Map<Seq<u8>, usize>,
    entries: Seq<(usize, Vec<Override>)>,
    countries: Seq<Country>,
) -> Map<Seq<u8>, (CountryView, Seq<OverrideView>)> {
    tm.map_values(|i: usize| entry_ref_view(entries, countries, i))
}

/// Every position a trie stores points into the entry table.
pub open spec fn wf_trie_refs(tm: Map<Seq<u8>, usize>, n_entries: int) -> bool {
    forall|k: Seq<u8>| tm.dom().contains(k) ==> tm[k] < n_entries
}

/// Every entry points at a stored record.
pub open spec fn wf_entries(entries: Seq<(usize, Vec<Override>)>, n_countries: int) -> bool {
    forall|j: int| 0 <= j < entries.len() ==> entries[j].0 < n_countries
}

/// Every stored record is a template: its alias list is detached.
pub open spec fn wf_templates(countries: Seq<Country>) -> bool {
    forall|j: int| 0 <= j < countries.len() ==> countries[j]@.prefix_list.len() == 0
}

/// Growing the entry and record tables does not change what the keys
/// already stored denote.
pub proof fn lemma_index_view_grow(
    tm: Map<Seq<u8>, usize>,
    entries1: Seq<(usize, Vec<Override>)>,
    countries1: Seq<Country>,
    entries2: Seq<(usize, Vec<Override>)>,
    countries2: Seq<Country>,
)
    requires
        wf_trie_refs(tm, entries1.len() as int),
        wf_entries(entries1, countries1.len() as int),
        entries1.len() <= entries2.len(),
        forall|j: int| 0 <= j < entries1.len() ==> entries2[j] == entries1[j],
        countries1.len() <= countries2.len(),
        forall|j: int| 0 <= j < countries1.len() ==> countries2[j] == countries1[j],
    ensures
        index_view(tm, entries2, countries2) == index_view(tm, entries1, countries1),
{
    let v1 = index_view(tm, entries1, countries1);
    let v2 = index_view(tm, entries2, countries2);
    assert forall|k: Seq<u8>| v2.dom().contains(k) implies v2[k] == v1[k] by {
        assert(tm[k] < entries1.len());
        assert(entries2[tm[k] as int] == entries1[tm[k] as int]);
    }
    assert(v2 =~= v1);
}

/// Binding one more key to a fresh entry extends the denoted map by just
/// that key, bound to the fresh entry's template and override chain.
pub proof fn lemma_index_view_insert(
    tm: Map<Seq<u8>, usize>,
    entries: Seq<(usize, Vec<Override>)>,
    countries: Seq<Country>,
    k: Seq<u8>,
    e: (usize, Vec<Override>),
    ei: usize,
)
    requires
        wf_trie_refs(tm, entries.len() as int),
        wf_entries(entries, countries.len() as int),
        e.0 < countries.len(),
        ei as int == entries.len(),
    ensures
        index_view(tm.insert(k, ei), entries.push(e), countries) == index_view(
            tm,
            entries,
            countries,
        ).insert(k, (countries[e.0 as int]@, ovs_view(e.1@))),
{
    let v1 = index_view(tm.insert(k, ei), entries.push(e), countries);
    let v2 = index_view(tm, entries, countries).insert(k, (countries[e.0 as int]@, ovs_view(e.1@)));
    assert forall|k2: Seq<u8>| v1.dom().contains(k2) implies v1[k2] == v2[k2] by {
        if k2 == k {
            assert(entries.push(e)[entries.len() as int] == e);
        } else {
            assert(tm[k2] < entries.len());
            assert(entries.push(e)[tm[k2] as int] == entries[tm[k2] as int]);
        }
    }
    assert(v1 =~= v2);
}

/// The two longest-prefix indexes over the records of one country file,
/// built once and then only read.
pub struct Ctydat {
    /// Keys that must equal a whole case-folded callsign.
    callsign_trie: PrefixTrie,
    /// Keys that match every case-folded callsign starting with them.
    prefix_trie: PrefixTrie,
    /// What each trie value points at: a record position and the override
    /// chain of the alias that carries the key.
    entries: Vec<(usize, Vec<Override>)>,
    /// The record templates, alias lists detached.
    countries: Vec<Country>,
}

impl View for Ctydat {
    type V = CtydatView;

    closed spec fn view(&self) -> CtydatView {
        CtydatView {
            callsigns: index_view(trie_map(self.callsign_trie), self.entries@, self.countries@),
            prefixes: index_view(trie_map(self.prefix_trie), self.entries@, self.countries@),
        }
    }
}

impl Ctydat {
    /// Every stored position stays inside the tables it points into, and
    /// every stored record is a template.
    #[verifier::type_invariant]
    spec fn inv(self) -> bool {
        &&& wf_trie_refs(trie_map(self.callsign_trie), self.entries@.len() as int)
        &&& wf_trie_refs(trie_map(self.prefix_trie), self.entries@.len() as int)
        &&& wf_entries(self.entries@, self.countries@.len() as int)
        &&& wf_templates(self.countries@)
    }

    /// The whole ingestion path: the text is parsed into records and the
    /// records are indexed, or the first parse error is reported and no
    /// index exists at all.
    pub fn from_str(s: &str) -> (r: Result<Ctydat, ParseError>)
        ensures
            (match (r, spec_parse_file(s.spec_bytes(), 0)) {
                (Ok(d), Ok(recs)) => d@ == spec_build_index(recs),
                (Err(e), Err(se)) => e == se,
                _ => false,
            }),
    {
        let parsed = match parse_countries(s) {
            Err(e) => return Err(e),
            Ok(v) => v,
        };
        let ghost recs = countries_view(parsed@);
        let mut callsign_trie = trie_new();
        let mut prefix_trie = trie_new();
        let mut entries: Vec<(usize, Vec<Override>)> = Vec::new();
        let mut countries: Vec<Country> = Vec::new();
        let n = parsed.len();
        let mut i: usize = 0;
        proof {
            assert(index_view(trie_map(callsign_trie), entries@, countries@) =~= Map::empty());
            assert(index_view(trie_map(prefix_trie), entries@, countries@) =~= Map::empty());
            assert(recs.take(0) =~= Seq::<CountryView>::empty());
        }
        while i < n
            invariant
                i <= n,
                n == parsed@.len(),
                recs == countries_view(parsed@),
                wf_trie_refs(trie_map(callsign_trie), entries@.len() as int),
                wf_trie_refs(trie_map(prefix_trie), entries@.len() as int),
                wf_entries(entries@, countries@.len() as int),
                wf_templates(countries@),
                index_view(trie_map(callsign_trie), entries@, countries@) == spec_build_index(
                    recs.take(i as int),
                ).callsigns,
                index_view(trie_map(prefix_trie), entries@, countries@) == spec_build_index(
                    recs.take(i as int),
                ).prefixes,
            decreases n - i,
        {
            let rec = &parsed[i];
            let ghost cv = parsed@[i as int]@;
            let ghost templv = spec_template(cv);
            let template = Country {
                country_name: clone_bytes(&rec.country_name),
                cq_zone: rec.cq_zone,
                itu_zone: rec.itu_zone,
                continent: clone_bytes(&rec.continent),
                latitude: rec.latitude,
                longitude: rec.longitude,
                time_offset: rec.time_offset,
                primary_prefix: clone_bytes(&rec.primary_prefix),
                prefix_list: Vec::new(),
            };
            proof {
                assert(template@ =~= templv);
                lemma_index_view_grow(
                    trie_map(callsign_trie),
                    entries@,
                    countries@,
                    entries@,
                    countries@.push(template),
                );
                lemma_index_view_grow(
                    trie_map(prefix_trie),
                    entries@,
                    countries@,
                    entries@,
                    countries@.push(template),
                );
            }
            countries.push(template);
            let ci = countries.len() - 1;
            let m = rec.prefix_list.len();
            let mut j: usize = 0;
            proof {
                assert(cv.prefix_list.take(0) =~= Seq::<PrefixView>::empty());
            }
            while j < m
                invariant
                    i < n,
                    n == parsed@.len(),
                    recs == countries_view(parsed@),
                    cv == parsed@[i as int]@,
                    templv == spec_template(cv),
                    m == parsed@[i as int].prefix_list@.len(),
                    m == cv.prefix_list.len(),
                    j <= m,
                    ci as int == countries@.len() - 1,
                    countries@[ci as int]@ == templv,
                    wf_trie_refs(trie_map(callsign_trie), entries@.len() as int),
                    wf_trie_refs(trie_map(prefix_trie), entries@.len() as int),
                    wf_entries(entries@, countries@.len() as int),
                    wf_templates(countries@),
                    index_view(trie_map(callsign_trie), entries@, countries@) == spec_add_aliases(
                        spec_build_index(recs.take(i as int)),
                        templv,
                        cv.prefix_list.take(j as int),
                    ).callsigns,
                    index_view(trie_map(prefix_trie), entries@, countries@) == spec_add_aliases(
                        spec_build_index(recs.take(i as int)),
                        templv,
                        cv.prefix_list.take(j as int),
                    ).prefixes,
                decreases m - j,
            {
                proof {
                    assert(cv.prefix_list.take(j + 1).drop_last() =~= cv.prefix_list.take(j as int));
                    assert(cv.prefix_list.take(j + 1).last() == cv.prefix_list[j as int]);
                    assert(cv.prefix_list[j as int] == parsed@[i as int].prefix_list@[j as int]@);
                }
                match &parsed[i].prefix_list[j] {
                    Prefix::Callsign(tok, ovs) => {
                        let key = lower_bytes(tok);
                        let o = match ovs {
                            Some(v) => clone_overrides(v),
                            None => Vec::new(),
                        };
                        let ei = entries.len();
                        proof {
                            assert(ovs_view(o@) == spec_ovs_or_empty(
                                opt_ovs_view(*ovs),
                            )) by {
                                match ovs {
                                    Some(v) => {},
                                    None => {
                                        assert(ovs_view(o@) =~= Seq::<OverrideView>::empty());
                                    },
                                }
                            }
                            lemma_index_view_insert(
                                trie_map(callsign_trie),
                                entries@,
                                countries@,
                                key@,
                                (ci, o),
                                ei,
                            );
                            lemma_index_view_grow(
                                trie_map(prefix_trie),
                                entries@,
                                countries@,
                                entries@.push((ci, o)),
                                countries@,
                            );
                        }
                        entries.push((ci, o));
                        trie_insert(&mut callsign_trie, &key, ei);
                    },
                    Prefix::Prefix(tok, ovs) => {
                        let key = lower_bytes(tok);
                        let o = match ovs {
                            Some(v) => clone_overrides(v),
                            None => Vec::new(),
                        };
                        let ei = entries.len();
                        proof {
                            assert(ovs_view(o@) == spec_ovs_or_empty(
                                opt_ovs_view(*ovs),
                            )) by {
                                match ovs {
                                    Some(v) => {},
                                    None => {
                                        assert(ovs_view(o@) =~= Seq::<OverrideView>::empty());
                                    },
                                }
                            }
                            lemma_index_view_insert(
                                trie_map(prefix_trie),
                                entries@,
                                countries@,
                                key@,
                                (ci, o),
                                ei,
                            );
                            lemma_index_view_grow(
                                trie_map(callsign_trie),
                                entries@,
                                countries@,
                                entries@.push((ci, o)),
                                countries@,
                            );
                        }
                        entries.push((ci, o));
                        trie_insert(&mut prefix_trie, &key, ei);
                    },
                }
                j += 1;
            }
            proof {
                assert(cv.prefix_list.take(m as int) =~= cv.prefix_list);
                assert(recs.take(i + 1).drop_last() =~= recs.take(i as int));
                assert(recs.take(i + 1).last() == recs[i as int]);
                assert(recs[i as int] == cv);
            }
            i += 1;
        }
        proof {
            assert(recs.take(n as int) =~= recs);
        }
        let d = Ctydat { callsign_trie, prefix_trie, entries, countries };
        proof {
            assert(d@ =~= spec_build_index(recs));
        }
        Ok(d)
    }

    /// The lookup path: the callsign is ASCII case-folded, an exact match
    /// in the callsign index outranks every prefix match, and among prefix
    /// matches the longest key wins; the matched entry's override chain is
    /// applied to a copy of its template. An unknown callsign yields no
    /// match, never an error.
    pub fn find_country_for_callsign(&self, callsign: &str) -> (r: Option<Country>)
        ensures
            (match r {
                Some(c) => spec_resolve(self@, ascii_lower(callsign.spec_bytes())) == Some(c@),
                None => spec_resolve(self@, ascii_lower(callsign.spec_bytes())) is None,
            }),
    {
        proof {
            use_type_invariant(&*self);
        }
        let bytes = callsign.as_bytes_vec();
        let q = lower_bytes(&bytes);
        let ghost qv = ascii_lower(callsign.spec_bytes());
        match trie_get(&self.callsign_trie, &q) {
            Some(ei) => {
                let entry = &self.entries[ei];
                let c = self.countries[entry.0].implement_overrides(&entry.1);
                proof {
                    let cv = self.countries@[entry.0 as int]@;
                    assert(spec_template(cv) =~= cv);
                    assert(self@.callsigns[qv] == (cv, ovs_view(entry.1@)));
                }
                Some(c)
            },
            None => {
                match trie_get_longest_prefix(&self.prefix_trie, &q) {
                    Some((plen, ei)) => {
                        let entry = &self.entries[ei];
                        let c = self.countries[entry.0].implement_overrides(&entry.1);
                        proof {
                            assert(self@.prefixes.dom() =~= trie_map(self.prefix_trie).dom());
                            lemma_lookup_len_at(self@.prefixes, qv, qv.len() as int, plen as int);
                            let cv = self.countries@[entry.0 as int]@;
                            assert(spec_template(cv) =~= cv);
                            assert(self@.prefixes[qv.take(plen as int)] == (
                                cv,
                                ovs_view(entry.1@),
                            ));
                        }
                        Some(c)
                    },
                    None => {
                        proof {
                            assert(self@.prefixes.dom() =~= trie_map(self.prefix_trie).dom());
                            lemma_lookup_len_none(self@.prefixes, qv, qv.len() as int);
                        }
                        None
                    },
                }
            },
        }
    }
}

} // verus!
