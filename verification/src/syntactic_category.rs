//! Syntactic categories: how input words enter the chart.
use std::hash::Hash;
use vstd::prelude::*;
use vstd::std_specs::convert::FromSpec;

verus! {

/// Types that formulate the syntactic categories of a grammar.
///
/// `Hash` is required to tell values apart when searching the chart and flattening trees.
///
/// `spec_lexical` and `spec_unknown` say what `lexical` and `unknown` give; code compiled without
/// Verus implements them with the bodies of `lexical` and `unknown`.
pub trait SyntacticCategory<W>: Sized + Hash {
    /// Whether `lexical` gives what `spec_lexical` says.
    spec fn obeys_lexical_spec() -> bool;

    /// The variant `lexical` gives for the word.
    spec fn spec_lexical(word: W) -> Self;

    /// The fallback `unknown` gives for the word.
    spec fn spec_unknown(word: W) -> Option<Self>;

    /// The variant of `Self` that injects the input word: the label of the leaves of parsed
    /// syntax trees.
    fn lexical(word: W) -> (r: Self)
        ensures
            Self::obeys_lexical_spec() ==> r == Self::spec_lexical(word),
    ;

    /// A fallback for a word whose lexical variant caused no reduction, if the type has one.
    /// This is to handle unknown words and to recover from errors.
    fn unknown(word: W) -> (r: Option<Self>)
        ensures
            r == Self::spec_unknown(word),
    ;
}

impl<W, T: Hash + From<W>> SyntacticCategory<W> for T {
    open spec fn obeys_lexical_spec() -> bool {
        T::obeys_from_spec()
    }

    open spec fn spec_lexical(word: W) -> T {
        T::from_spec(word)
    }

    open spec fn spec_unknown(word: W) -> Option<T> {
        None
    }

    /// The value `From` makes of the word.
    fn lexical(word: W) -> (r: Self) {
        T::from(word)
    }

    /// There is no fallback.
    fn unknown(word: W) -> (r: Option<Self>) {
        None
    }
}

} // verus!
