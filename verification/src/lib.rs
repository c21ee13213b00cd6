//! Ruleset: a bottom-up, online chart parser for monotonic (context-sensitive) grammars.
//!
//! Rules are written inverted: `A, B => C` reads "an `A` followed by a `B` makes a `C`". Each
//! step of a rule is a [`Matcher`]; the [`Chart`] plots every input and everything it causes,
//! row by row, and a [`Parser`] searches it for interpretations and turns them into [`Tree`]s.
//! Every step can be undone.
pub mod chart;
pub mod derivation;
pub mod determine;
pub mod digest;
pub mod grammar;
pub mod item_text;
pub mod items;
pub mod iterator_reducer_ext;
pub mod parser;
pub mod syntactic_category;
pub mod syntax;
pub mod text;
pub mod tree;

pub use crate::chart::{pair_flagged, Chart, Endpoint};
pub use crate::digest::Digest;
pub use crate::grammar::{
    Consequence, Consequent, Match, Matcher, Reductum, Rule, Ruleset, Subrule, ZeroLength,
};
pub use crate::item_text::{reducer_item_line, reduction_item_line};
pub use crate::items::{Conclusion, Input, Item, Reducer, Reducible, Reduction};
pub use crate::iterator_reducer_ext::{IteratorReducerExt, Sealed};
pub use crate::parser::Parser;
pub use crate::syntactic_category::SyntacticCategory;
pub use crate::tree::{Tree, ValueDigests};
