//! A self-describing interchange format for typed byte strings and lists of
//! them, with a compact binary form and a readable text form.
//!
//! The crate has three layers. [`zbase`] renders bytes as digits of one of
//! seven alphabets behind a one-character prefix. [`ztype`] holds the eight
//! kinds of atom with their optional width. [`zexpr`] builds expressions from
//! the two and carries the binary and text codecs.
//!
//! Beside them, [`radix`] says what it is to carry digits from one radix to
//! another, [`length`] writes lengths in the fewest bytes, [`input`] holds
//! what the parsers share, above all the rule by which failures are ranked,
//! and [`laws`] states what holds of the codecs as a whole.
//!
//! Every function says in its contract what it returns, over a function of
//! the same purpose on sequences: `parse` over `Expr::parse`, `serialize`
//! over `Expr::serialize`. Two functions are trusted and not proved, those in
//! [`zbase`] that call the crate `base_x` for the digits.

pub mod input;
pub mod laws;
pub mod length;
pub mod radix;
pub mod zbase;
pub mod zexpr;
pub mod ztype;

pub use length::number_of_bytes;
pub use zexpr::parse;
pub use zexpr::parse_atom;
pub use zexpr::ZExpr;
pub use zexpr::ZExprDeserialError;
pub use zexpr::ZExprError;
