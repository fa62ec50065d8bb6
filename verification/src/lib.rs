//! Decoding of XDCC pack listings.
//!
//! A listing arrives as eight parallel columns of text. [`sunxdcc`] turns
//! the columns into records and decodes the unit-suffixed fields of each
//! record into numbers; [`text`], [`integer`] and [`decimal`] hold the
//! grammar that the field decoders are built from.
pub mod decimal;
pub mod integer;
pub mod sunxdcc;
pub mod text;
