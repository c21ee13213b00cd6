//! The building blocks of a grammar: matchers, subrules, consequences, rules and rulesets.
use std::marker::PhantomData;
use std::rc::Rc;
use vstd::prelude::*;

verus! {

/// Types that implement the steps of [`Subrule`]s.
///
/// A matcher looks at one input symbol and tells whether the step it stands for accepts it;
/// on a hit it hands back what is left of the rule: either the next step (a [`Subrule`]) or
/// the symbols the rule yields (a [`Consequence`]). A whole ruleset is written with one matcher
/// type whose values stand for the individual steps, together with whatever they captured from
/// earlier inputs.
///
/// `spec_reduce` says what `reduce` gives; the chart's contracts speak of it. Verified code is
/// held to it; code compiled without Verus implements it with the body of `reduce`.
pub trait Matcher<T>: Sized {
    /// What this step gives on the input symbol.
    spec fn spec_reduce(&self, input: T) -> Match<T, Self>;

    /// Tries this step of a rule against one input symbol.
    fn reduce(&self, input: &T) -> (r: Match<T, Self>)
        ensures
            r == self.spec_reduce(*input),
    ;
}

/// A trial of a reduction.
pub enum Match<T, M> {
    Hit { reductum: Reductum<T, M> },
    Miss,
    Error { reason: String },
}

impl<T, M> Match<T, M> {
    /// Whether this trial succeeded.
    pub fn is_hit(&self) -> (r: bool)
        ensures
            r == (self is Hit),
    {
        match self {
            Match::Hit { .. } => true,
            _ => false,
        }
    }
}

impl<T, M> Default for Match<T, M> {
    fn default() -> (r: Self)
        ensures
            r is Miss,
    {
        Match::Miss
    }
}

impl<T, M> From<Option<Reductum<T, M>>> for Match<T, M> {
    fn from(option: Option<Reductum<T, M>>) -> (r: Self) {
        match option {
            Some(reductum) => Match::Hit { reductum },
            None => Match::Miss,
        }
    }
}

impl<T, M> vstd::std_specs::convert::FromSpecImpl<Option<Reductum<T, M>>> for Match<T, M> {
    open spec fn obeys_from_spec() -> bool {
        true
    }

    open spec fn from_spec(option: Option<Reductum<T, M>>) -> Self {
        match option {
            Some(reductum) => Match::Hit { reductum },
            None => Match::Miss,
        }
    }
}

impl<T, M> From<Result<Reductum<T, M>, String>> for Match<T, M> {
    fn from(result: Result<Reductum<T, M>, String>) -> (r: Self) {
        match result {
            Ok(reductum) => Match::Hit { reductum },
            Err(reason) => Match::Error { reason },
        }
    }
}

impl<T, M> vstd::std_specs::convert::FromSpecImpl<Result<Reductum<T, M>, String>> for Match<T, M> {
    open spec fn obeys_from_spec() -> bool {
        true
    }

    open spec fn from_spec(result: Result<Reductum<T, M>, String>) -> Self {
        match result {
            Ok(reductum) => Match::Hit { reductum },
            Err(reason) => Match::Error { reason },
        }
    }
}

/// A non-zero-antecedent suffix of a syntactic rule.
pub struct Subrule<T, M> {
    pub(crate) matcher: Rc<M>,
    pub(crate) debug_text: Option<String>,
    pub(crate) marker: PhantomData<T>,
}

impl<T, M> Subrule<T, M> {
    /// The matcher that implements this step.
    pub open(crate) spec fn spec_matcher(self) -> M {
        *self.matcher
    }

    /// The optional textual representation of this subrule.
    pub open(crate) spec fn spec_debug_text(self) -> Option<String> {
        self.debug_text
    }

    /// Creates a new [`Subrule`] from a [`Matcher`] and an optional debug text, which is
    /// typically how the subrule would be written down as a rule.
    pub fn new(matcher: M, debug_text: Option<String>) -> (r: Self)
        ensures
            r.spec_matcher() == matcher,
            r.spec_debug_text() == debug_text,
    {
        Subrule { matcher: Rc::new(matcher), debug_text, marker: PhantomData }
    }

    /// The debug text, if one was given.
    pub fn debug_text(&self) -> (r: &Option<String>)
        ensures
            *r == self.spec_debug_text(),
    {
        &self.debug_text
    }

    /// Performs a reduction based on this [`Subrule`] with an input.
    pub fn reduce(&self, input: &T) -> (r: Match<T, M>) where M: Matcher<T>
        ensures
            r == self.spec_matcher().spec_reduce(*input),
    {
        self.matcher.reduce(input)
    }
}

impl<T, M> Clone for Subrule<T, M> {
    fn clone(&self) -> (r: Self)
        ensures
            r == *self,
    {
        Subrule {
            matcher: Rc::clone(&self.matcher),
            debug_text: self.debug_text.clone(),
            marker: PhantomData,
        }
    }
}

/// The error of building a [`Consequent`] that would cover no antecedent.
#[derive(Debug, PartialEq, Eq, Structural)]
pub struct ZeroLength;

/// A single consequent symbol of a syntactic rule.
pub struct Consequent<T> {
    pub(crate) len: usize,
    pub(crate) value: T,
}

impl<T> Consequent<T> {
    /// How many antecedents this consequent covers.
    pub open(crate) spec fn spec_len(self) -> nat {
        self.len as nat
    }

    /// The symbol this consequent yields.
    pub open(crate) spec fn spec_value(self) -> T {
        self.value
    }

    /// A consequent always covers at least one antecedent.
    pub open(crate) spec fn wf(self) -> bool {
        self.len > 0
    }

    /// The consequent yielding `value` over `len` antecedents.
    pub closed spec fn spec_new(len: usize, value: T) -> Self {
        Consequent { len, value }
    }

    /// Creates a consequent covering `len` antecedents, or fails when `len` is zero.
    pub fn try_new(len: usize, value: T) -> (r: Result<Self, ZeroLength>)
        ensures
            len == 0 <==> r is Err,
            r == (if len == 0 { Err(ZeroLength) } else { Ok(Self::spec_new(len, value)) }),
            r matches Ok(c) ==> c.wf() && c.spec_len() == len && c.spec_value() == value && c
                == Self::spec_new(len, value),
    {
        if len == 0 {
            Err(ZeroLength)
        } else {
            Ok(Consequent { len, value })
        }
    }

    /// Returns how many antecedents are covered by this consequent.
    pub fn len(&self) -> (r: usize)
        ensures
            r == self.spec_len(),
    {
        self.len
    }

    /// Returns a reference to the value.
    pub fn value(&self) -> (r: &T)
        ensures
            *r == self.spec_value(),
    {
        &self.value
    }
}

impl<T> TryFrom<(usize, T)> for Consequent<T> {
    type Error = ZeroLength;

    fn try_from(pair: (usize, T)) -> Result<Self, ZeroLength> {
        let (len, value) = pair;
        Consequent::try_new(len, value)
    }
}

impl<T> vstd::std_specs::convert::TryFromSpecImpl<(usize, T)> for Consequent<T> {
    open spec fn obeys_try_from_spec() -> bool {
        true
    }

    open spec fn try_from_spec(pair: (usize, T)) -> Result<Self, ZeroLength> {
        if pair.0 == 0 {
            Err(ZeroLength)
        } else {
            Ok(Consequent::spec_new(pair.0, pair.1))
        }
    }
}

/// A zero-antecedent suffix of a syntactic rule: the symbols the rule yields.
///
/// Each entry either yields a symbol over the next few antecedents (`Some`), or leaves the next
/// antecedent as it was (`None`).
pub struct Consequence<T> {
    pub(crate) consequents: Rc<Vec<Option<Consequent<T>>>>,
    pub(crate) debug_text: Option<String>,
}

/// How many antecedents a sequence of consequents covers: an absent consequent covers one.
pub open spec fn consequents_width<T>(s: Seq<Option<Consequent<T>>>) -> nat
    decreases s.len(),
{
    if s.len() == 0 {
        0
    } else {
        consequents_width(s.drop_last()) + match s.last() {
            Some(c) => c.spec_len(),
            None => 1nat,
        }
    }
}

impl<T> Consequence<T> {
    /// The entries of this consequence.
    pub open(crate) spec fn spec_consequents(self) -> Seq<Option<Consequent<T>>> {
        self.consequents@
    }

    /// The optional textual representation of this consequence.
    pub open(crate) spec fn spec_debug_text(self) -> Option<String> {
        self.debug_text
    }

    /// Every present consequent covers at least one antecedent.
    pub open(crate) spec fn wf(self) -> bool {
        forall|i: int|
            0 <= i < self.spec_consequents().len() ==> match #[trigger] self.spec_consequents()[i] {
                Some(c) => c.wf(),
                None => true,
            }
    }

    /// Creates a new `Consequence` from a sequence of `Consequent`s.
    pub fn new(consequents: Vec<Option<Consequent<T>>>) -> (r: Self)
        ensures
            r.spec_consequents() == consequents@,
            r.spec_debug_text() is None,
    {
        Consequence { consequents: Rc::new(consequents), debug_text: None }
    }

    /// Creates a new `Consequence` with a debug text, which is usually how the consequence would
    /// be written down in a rule, without the `=>`.
    pub fn new_with_debug_text(consequents: Vec<Option<Consequent<T>>>, debug_text: String) -> (r:
        Self)
        ensures
            r.spec_consequents() == consequents@,
            r.spec_debug_text() == Some(debug_text),
    {
        Consequence { consequents: Rc::new(consequents), debug_text: Some(debug_text) }
    }

    /// Enumerates the contents of this consequence.
    pub fn consequents(&self) -> (r: &Vec<Option<Consequent<T>>>)
        ensures
            r@ == self.spec_consequents(),
    {
        &self.consequents
    }
}

impl<T> Clone for Consequence<T> {
    fn clone(&self) -> (r: Self)
        ensures
            r == *self,
    {
        Consequence { consequents: Rc::clone(&self.consequents), debug_text: self.debug_text.clone() }
    }
}

/// Either a [`Subrule`] or a [`Consequence`]: what is left of a rule after a reduction.
pub enum Reductum<T, M> {
    Subrule(Subrule<T, M>),
    Consequence(Consequence<T>),
}

impl<T, M> Reductum<T, M> {
    /// Returns a reference to the inner value if this is a subrule.
    pub fn subrule(&self) -> (r: Option<&Subrule<T, M>>)
        ensures
            match self {
                Reductum::Subrule(s) => r == Some(s),
                _ => r is None,
            },
    {
        match self {
            Reductum::Subrule(s) => Some(s),
            _ => None,
        }
    }

    /// Returns whether this is a subrule.
    pub fn is_subrule(&self) -> (r: bool)
        ensures
            r == (self is Subrule),
    {
        match self {
            Reductum::Subrule(_) => true,
            _ => false,
        }
    }

    /// Returns the inner value if this is a subrule.
    pub fn into_subrule(self) -> (r: Option<Subrule<T, M>>)
        ensures
            match self {
                Reductum::Subrule(s) => r == Some(s),
                _ => r is None,
            },
    {
        match self {
            Reductum::Subrule(s) => Some(s),
            _ => None,
        }
    }

    /// Returns a reference to the inner value if this is a consequence.
    pub fn consequence(&self) -> (r: Option<&Consequence<T>>)
        ensures
            match self {
                Reductum::Consequence(c) => r == Some(c),
                _ => r is None,
            },
    {
        match self {
            Reductum::Consequence(c) => Some(c),
            _ => None,
        }
    }

    /// Returns whether this is a consequence.
    pub fn is_consequence(&self) -> (r: bool)
        ensures
            r == (self is Consequence),
    {
        match self {
            Reductum::Consequence(_) => true,
            _ => false,
        }
    }

    /// Returns the inner value if this is a consequence.
    pub fn into_consequence(self) -> (r: Option<Consequence<T>>)
        ensures
            match self {
                Reductum::Consequence(c) => r == Some(c),
                _ => r is None,
            },
    {
        match self {
            Reductum::Consequence(c) => Some(c),
            _ => None,
        }
    }
}

impl<T, M> From<Subrule<T, M>> for Reductum<T, M> {
    fn from(subrule: Subrule<T, M>) -> (r: Self) {
        Reductum::Subrule(subrule)
    }
}

impl<T, M> vstd::std_specs::convert::FromSpecImpl<Subrule<T, M>> for Reductum<T, M> {
    open spec fn obeys_from_spec() -> bool {
        true
    }

    open spec fn from_spec(subrule: Subrule<T, M>) -> Self {
        Reductum::Subrule(subrule)
    }
}

impl<T, M> From<Consequence<T>> for Reductum<T, M> {
    fn from(consequence: Consequence<T>) -> (r: Self) {
        Reductum::Consequence(consequence)
    }
}

impl<T, M> vstd::std_specs::convert::FromSpecImpl<Consequence<T>> for Reductum<T, M> {
    open spec fn obeys_from_spec() -> bool {
        true
    }

    open spec fn from_spec(consequence: Consequence<T>) -> Self {
        Reductum::Consequence(consequence)
    }
}

impl<T, M> Clone for Reductum<T, M> {
    fn clone(&self) -> (r: Self)
        ensures
            r == *self,
    {
        match self {
            Reductum::Subrule(s) => Reductum::Subrule(s.clone()),
            Reductum::Consequence(c) => Reductum::Consequence(c.clone()),
        }
    }
}

/// A sequence of syntactic rules.
///
/// This is the semantic unit of a single syntax (or language construct), which is sometimes
/// composed of several rules; a Kleene plus, for example, takes `A => B` and `A, B => B`.
/// Cloning a `Ruleset` is cheap: clones share the same rules, and a ruleset is told apart from
/// another by that sharing, not by its contents.
pub struct Ruleset<T, M> {
    pub(crate) subrules: Rc<Vec<Subrule<T, M>>>,
}

impl<T, M> Ruleset<T, M> {
    /// The rules of this ruleset, each given by its first step.
    pub open(crate) spec fn spec_subrules(self) -> Seq<Subrule<T, M>> {
        self.subrules@
    }

    /// Creates a new [`Ruleset`] from a sequence of [`Subrule`]s.
    pub fn new(subrules: Vec<Subrule<T, M>>) -> (r: Self)
        ensures
            r.spec_subrules() == subrules@,
    {
        Ruleset { subrules: Rc::new(subrules) }
    }

    /// The number of rules.
    pub fn len(&self) -> (r: usize)
        ensures
            r == self.spec_subrules().len(),
    {
        self.subrules.len()
    }

    /// The first step of the rule at `index`.
    pub fn get(&self, index: usize) -> (r: &Subrule<T, M>)
        requires
            index < self.spec_subrules().len(),
        ensures
            *r == self.spec_subrules()[index as int],
    {
        &self.subrules[index]
    }

    /// Enumerates rules that belong to this ruleset.
    pub fn rules(&self) -> (r: Vec<Rule<T, M>>)
        ensures
            r@.len() == self.spec_subrules().len(),
            forall|i: int|
                0 <= i < r@.len() ==> (#[trigger] r@[i]).spec_ruleset() == *self
                    && r@[i].spec_index() == i,
    {
        let mut rules: Vec<Rule<T, M>> = Vec::new();
        let n = self.subrules.len();
        let mut index: usize = 0;
        while index < n
            invariant
                n == self.spec_subrules().len(),
                index <= n,
                rules@.len() == index,
                forall|i: int|
                    0 <= i < index ==> (#[trigger] rules@[i]).spec_ruleset() == *self
                        && rules@[i].spec_index() == i,
            decreases n - index,
        {
            rules.push(Rule { container: self.clone(), index });
            index = index + 1;
        }
        rules
    }

    /// Whether `self` and `other` are the same ruleset (not merely equal in contents).
    pub fn is(&self, other: &Ruleset<T, M>) -> (r: bool)
        ensures
            r ==> *self == *other,
    {
        same_allocation(&self.subrules, &other.subrules)
    }
}

/// Whether two shared pointers point to the same allocation (`Rc::ptr_eq`). Pointers to the same
/// allocation point to the same value; nothing is claimed when they differ, as equal values may
/// lie in different allocations.
#[verifier::external_body]
fn same_allocation<X>(a: &Rc<X>, b: &Rc<X>) -> (r: bool)
    ensures
        r ==> **a == **b,
{
    Rc::ptr_eq(a, b)
}

impl<T, M> Clone for Ruleset<T, M> {
    fn clone(&self) -> (r: Self)
        ensures
            r == *self,
    {
        Ruleset { subrules: Rc::clone(&self.subrules) }
    }
}

/// A syntactic rule: a shared reference to one [`Subrule`] of a [`Ruleset`].
pub struct Rule<T, M> {
    pub(crate) container: Ruleset<T, M>,
    pub(crate) index: usize,
}

impl<T, M> Rule<T, M> {
    /// The ruleset this rule belongs to.
    pub open(crate) spec fn spec_ruleset(self) -> Ruleset<T, M> {
        self.container
    }

    /// The position of this rule in its ruleset.
    pub open(crate) spec fn spec_index(self) -> nat {
        self.index as nat
    }

    /// The rule points into its ruleset.
    pub open(crate) spec fn wf(self) -> bool {
        self.index < self.container.spec_subrules().len()
    }

    /// The first step of this rule.
    pub open(crate) spec fn spec_subrule(self) -> Subrule<T, M> {
        self.container.spec_subrules()[self.index as int]
    }

    /// Returns a reference to the `Ruleset` this rule belongs to.
    pub fn ruleset(&self) -> (r: &Ruleset<T, M>)
        ensures
            *r == self.spec_ruleset(),
    {
        &self.container
    }

    /// Returns a reference to the `Subrule` this rule points to.
    pub fn subrule(&self) -> (r: &Subrule<T, M>)
        requires
            self.wf(),
        ensures
            *r == self.spec_subrule(),
    {
        self.container.get(self.index)
    }
}

impl<T, M> Clone for Rule<T, M> {
    fn clone(&self) -> (r: Self)
        ensures
            r == *self,
    {
        Rule { container: self.container.clone(), index: self.index }
    }
}

} // verus!
