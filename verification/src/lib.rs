//! Numeric text utilities: a digit-grouping formatter that rewrites a decimal
//! numeral into fixed-width groups separated by `_`, and a generator for the
//! base-b Champernowne constant.

pub mod digits;
pub mod errors;
pub mod grouping;
pub mod laws;
pub mod number_formatting;
pub mod number_theory_functions;
pub mod parse;
pub mod text;
