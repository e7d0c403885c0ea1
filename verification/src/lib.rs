//! A verified parser and resolver for the CTY.DAT amateur-radio country file.
//!
//! The library turns the raw text of a country file into a sequence of
//! [`Country`] records, indexes every alias entry into two longest-prefix
//! structures, and answers, for a given callsign, which country it belongs
//! to and with what per-alias field overrides applied.
//!
//! [`Ctydat::from_str`] is the only ingestion path and [`parse_countries`]
//! exposes the parse alone; [`Ctydat::find_country_for_callsign`] is the
//! only query path.

pub mod grammar;
pub mod index;
pub mod laws;
pub mod parse;
pub mod records;
pub mod trie;

pub use grammar::{Expected, ParseError};
pub use index::Ctydat;
pub use parse::parse_countries;
pub use records::{Country, CountryView, Decimal, Override, OverrideView, Prefix, PrefixView};
