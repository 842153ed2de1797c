//! Conversion engine between the paired binary weight-system files and the
//! per-tier columnar layout: varint codec, three-tier merge, tier
//! containers, index rendering and parsing, columnar layouts, nested-list
//! coordinate levels and the PALP text format.
pub mod binary;
pub mod columnar;
pub mod error;
pub mod index;
pub mod merge;
pub mod nested;
pub mod ordering;
pub mod palp;
pub mod roundtrip;
pub mod text;
pub mod tiers;
pub mod varint;

