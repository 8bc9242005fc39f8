//! Portfolio grouping for city parcels.
//!
//! A parcel is identified by its BBL (borough, block and lot).  The library
//! provides the identifier type with its canonical ten-character text form,
//! and a portfolio graph builder that accumulates pairwise "same portfolio"
//! associations and partitions the parcels into connected components,
//! deterministically: components sorted by their smallest member, members
//! sorted by the BBL order, plus a reverse index from BBL to component.

pub mod bbl;
pub mod portfolio_map;
pub mod wow_api;
