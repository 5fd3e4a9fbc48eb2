//! Lexical conversion between numbers and ASCII text.
//!
//! A format descriptor says how a number is spelled: its radix, the base
//! and radix of its exponent, its digit separator, and what the syntax
//! asks for or forbids. Cursors over the bytes of a number skip digit
//! separators where the format lets them stand. Integers and floats are
//! written into a caller's buffer and read from bytes, floats rounded to
//! the nearest one: with machine integers where the number is small, and
//! with big integers where it is not.
//!
//! Every function states its result over a mathematical model, and the
//! laws that tie writing to reading are proved: what was written reads
//! back as the same number, the digits of a float are the fewest that do,
//! and separators that a format allows change nothing.
//!
//! The format and the text:
//! [`format`], [`digit`], [`options`], [`error`], [`buffer`], [`size`].
//!
//! Cursors: [`iterator`], [`skip`].
//!
//! Integers: [`compact`], [`algorithm`], [`integer`], [`parse`], with the
//! laws of [`round_trip`] and [`separator`].
//!
//! Writing floats: [`float`], [`write`] with its back-ends [`decimal`],
//! [`binary`] and [`hex`]; [`shortest`] with the laws of [`reads_back`]
//! and [`no_shorter`].
//!
//! Reading floats: [`lex`], [`parse_float`], [`fast_path`] and
//! [`nearest`], with the laws of [`digits_text`], [`float_round_trip`],
//! [`binary_round_trip`] and [`float_separator`], and the readings of
//! [`known`] texts.
//!
//! Big integers: [`bigint`], [`power`], [`large_powers`].

pub mod algorithm;
pub mod bigint;
pub mod binary;
pub mod binary_round_trip;
pub mod buffer;
pub mod compact;
pub mod decimal;
pub mod digit;
pub mod digits_text;
pub mod error;
pub mod fast_path;
pub mod float;
pub mod float_round_trip;
pub mod float_separator;
pub mod format;
pub mod hex;
pub mod integer;
pub mod iterator;
pub mod known;
pub mod large_powers;
pub mod lex;
pub mod nearest;
pub mod no_shorter;
pub mod options;
pub mod parse;
pub mod parse_float;
pub mod power;
pub mod reads_back;
pub mod round_trip;
pub mod separator;
pub mod shortest;
pub mod size;
pub mod skip;
pub mod write;
