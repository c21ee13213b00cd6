//! The items a chart is made of: reducers (inputs and conclusions) and reductions.
use crate::grammar::{consequents_width, Consequent, Reductum, Rule, Ruleset, Subrule};
use std::rc::Rc;
use vstd::prelude::*;

verus! {

/// An input symbol, together with its position among the inputs.
pub struct Input<T>(pub(crate) Rc<InputContent<T>>);

pub(crate) struct InputContent<T> {
    pub(crate) value: T,
    pub(crate) cursor: usize,
}

impl<T> Input<T> {
    /// The symbol.
    pub open(crate) spec fn spec_value(self) -> T {
        self.0.value
    }

    /// The position of this input.
    pub open(crate) spec fn spec_cursor(self) -> nat {
        self.0.cursor as nat
    }

    pub(crate) fn new(value: T, cursor: usize) -> (r: Self)
        ensures
            r.spec_value() == value,
            r.spec_cursor() == cursor,
    {
        Input(Rc::new(InputContent { value, cursor }))
    }

    /// Returns a reference to the value.
    pub fn value(&self) -> (r: &T)
        ensures
            *r == self.spec_value(),
    {
        &self.0.value
    }

    /// Returns the position of this input.
    pub fn cursor(&self) -> (r: usize)
        ensures
            r == self.spec_cursor(),
    {
        self.0.cursor
    }
}

impl<T> Clone for Input<T> {
    fn clone(&self) -> (r: Self)
        ensures
            r == *self,
    {
        Input(Rc::clone(&self.0))
    }
}

/// The reducers cover the inputs from `start` to `end`, one right after another.
pub open spec fn spans<T, M>(s: Seq<Reducer<T, M>>, start: int, end: int) -> bool {
    &&& s.len() >= 1
    &&& s[0].spec_start() == start
    &&& s.last().spec_end() == end
    &&& forall|i: int| 0 <= i < s.len() - 1 ==> (#[trigger] s[i]).spec_end() == s[i + 1].spec_start()
}

/// A consequent symbol yielded from a reduction.
pub struct Conclusion<T, M>(pub(crate) Rc<ConclusionContent<T, M>>);

pub(crate) struct ConclusionContent<T, M> {
    pub(crate) reduction: Reduction<T, M>,
    pub(crate) index: usize,
    pub(crate) antecedents: Vec<Reducer<T, M>>,
    pub(crate) start: usize,
    pub(crate) end: usize,
}

impl<T, M> Conclusion<T, M> {
    /// The reduction this conclusion was yielded by.
    pub open(crate) spec fn spec_reduction(self) -> Reduction<T, M> {
        self.0.reduction
    }

    /// The position of the consequent among those of the reduction's consequence.
    pub open(crate) spec fn spec_index(self) -> nat {
        self.0.index as nat
    }

    /// The antecedents this conclusion covers.
    pub open(crate) spec fn spec_antecedents(self) -> Seq<Reducer<T, M>> {
        self.0.antecedents@
    }

    /// Where the covered inputs start.
    pub open(crate) spec fn spec_start(self) -> int {
        self.0.start as int
    }

    /// Where the covered inputs end (exclusively).
    pub open(crate) spec fn spec_end(self) -> int {
        self.0.end as int
    }

    /// The consequent this conclusion stands for.
    pub open(crate) spec fn spec_consequent(self) -> Option<Consequent<T>> {
        match self.0.reduction.spec_reductum() {
            Reductum::Consequence(c) => c.spec_consequents()[self.0.index as int],
            _ => None,
        }
    }

    /// The symbol of this conclusion.
    pub open(crate) spec fn spec_value(self) -> T {
        match self.spec_consequent() {
            Some(c) => c.spec_value(),
            None => arbitrary(),
        }
    }

    /// Where the antecedents this conclusion covers start among those of its reduction: after
    /// those covered by the consequents before its own.
    pub open(crate) spec fn spec_share_start(self) -> nat {
        consequents_width(
            self.0.reduction.spec_reductum()->Consequence_0.spec_consequents().take(self.0.index as int),
        )
    }

    /// The conclusion covers a non-empty range, its antecedents one after another from its
    /// start to its end, and stands for a consequent that is there; its antecedents are those of
    /// its reduction that its consequent covers, right after those the consequents before it
    /// cover.
    pub open(crate) spec fn wf(self) -> bool {
        &&& self.0.start < self.0.end
        &&& spans(self.0.antecedents@, self.0.start as int, self.0.end as int)
        &&& self.0.reduction.spec_reductum() is Consequence
        &&& self.0.index < self.0.reduction.spec_reductum()->Consequence_0.spec_consequents().len()
        &&& self.spec_consequent() is Some
        &&& self.spec_share_start() + self.spec_consequent()->0.spec_len()
            <= self.0.reduction.spec_antecedents().len()
        &&& self.0.antecedents@ == self.0.reduction.spec_antecedents().subrange(
            self.spec_share_start() as int,
            (self.spec_share_start() + self.spec_consequent()->0.spec_len()) as int,
        )
    }

    pub(crate) fn new(reduction: Reduction<T, M>, index: usize, antecedents: Vec<Reducer<T, M>>) -> (r:
        Self)
        requires
            antecedents@.len() > 0,
            forall|i: int| 0 <= i < antecedents@.len() ==> (#[trigger] antecedents@[i]).wf(),
            antecedents@[0].spec_start() < antecedents@.last().spec_end(),
            forall|i: int|
                0 <= i < antecedents@.len() - 1 ==> (#[trigger] antecedents@[i]).spec_end()
                    == antecedents@[i + 1].spec_start(),
            reduction.spec_reductum() is Consequence,
            index < reduction.spec_reductum()->Consequence_0.spec_consequents().len(),
            reduction.spec_reductum()->Consequence_0.spec_consequents()[index as int] is Some,
            consequents_width(
                reduction.spec_reductum()->Consequence_0.spec_consequents().take(index as int),
            ) + reduction.spec_reductum()->Consequence_0.spec_consequents()[index as int]->0.spec_len()
                <= reduction.spec_antecedents().len(),
            antecedents@ == reduction.spec_antecedents().subrange(
                consequents_width(
                    reduction.spec_reductum()->Consequence_0.spec_consequents().take(index as int),
                ) as int,
                (consequents_width(
                    reduction.spec_reductum()->Consequence_0.spec_consequents().take(index as int),
                ) + reduction.spec_reductum()->Consequence_0.spec_consequents()[index as int]->0.spec_len())
                    as int,
            ),
        ensures
            r.wf(),
            Reducer::Conclusion(r).wf(),
            r.spec_reduction() == reduction,
            r.spec_index() == index,
            r.spec_antecedents() == antecedents@,
            r.spec_start() == antecedents@[0].spec_start(),
            r.spec_end() == antecedents@.last().spec_end(),
    {
        let start = antecedents[0].start();
        let end = antecedents[antecedents.len() - 1].end();
        proof {
            lemma_reducers_wf(antecedents@);
        }
        Conclusion(Rc::new(ConclusionContent { reduction, index, antecedents, start, end }))
    }

    /// Returns a reference to the value.
    pub fn value(&self) -> (r: &T)
        requires
            self.wf(),
        ensures
            *r == self.spec_value(),
    {
        let consequence = self.0.reduction.reductum().consequence().unwrap();
        let consequent = consequence.consequents()[self.0.index].as_ref().unwrap();
        consequent.value()
    }

    /// Returns a reference to the ruleset this is originated from.
    pub fn origin(&self) -> (r: &Ruleset<T, M>)
        ensures
            *r == self.spec_reduction().spec_origin(),
    {
        self.0.reduction.origin()
    }

    /// Returns a reference to the reduction this is originated from.
    pub fn reduction(&self) -> (r: &Reduction<T, M>)
        ensures
            *r == self.spec_reduction(),
    {
        &self.0.reduction
    }

    /// Enumerates the antecedents this conclusion covers.
    pub fn antecedents(&self) -> (r: &[Reducer<T, M>])
        ensures
            r@ == self.spec_antecedents(),
    {
        self.0.antecedents.as_slice()
    }
}

impl<T, M> Clone for Conclusion<T, M> {
    fn clone(&self) -> (r: Self)
        ensures
            r == *self,
    {
        Conclusion(Rc::clone(&self.0))
    }
}

/// Either an [`Input`] or a [`Conclusion`]: a symbol placed in the chart, which can cause
/// further reductions.
///
/// This can be viewed as a parsed syntax tree; see [`crate::tree::Tree`].
pub enum Reducer<T, M> {
    Input(Input<T>),
    Conclusion(Conclusion<T, M>),
}

impl<T, M> Reducer<T, M> {
    /// Where the covered inputs start.
    pub open(crate) spec fn spec_start(self) -> int {
        match self {
            Reducer::Input(i) => i.spec_cursor() as int,
            Reducer::Conclusion(c) => c.spec_start(),
        }
    }

    /// Where the covered inputs end (exclusively).
    pub open(crate) spec fn spec_end(self) -> int {
        match self {
            Reducer::Input(i) => i.spec_cursor() as int + 1,
            Reducer::Conclusion(c) => c.spec_end(),
        }
    }

    /// The reducer covers a non-empty range that fits in `usize`, and so do, throughout, the
    /// antecedents it covers.
    pub open(crate) spec fn wf(self) -> bool
        decreases self,
    {
        match self {
            Reducer::Input(i) => i.spec_cursor() < usize::MAX,
            Reducer::Conclusion(c) => c.wf() && reducers_wf(c.0.antecedents@),
        }
    }

    /// The symbol of this reducer.
    pub open(crate) spec fn spec_value(self) -> T {
        match self {
            Reducer::Input(i) => i.spec_value(),
            Reducer::Conclusion(c) => c.spec_value(),
        }
    }

    /// The antecedents this reducer covers: none for an input.
    pub open(crate) spec fn spec_antecedents(self) -> Seq<Reducer<T, M>> {
        match self {
            Reducer::Input(_) => Seq::empty(),
            Reducer::Conclusion(c) => c.spec_antecedents(),
        }
    }

    /// The ruleset this reducer originates from, if any.
    pub open(crate) spec fn spec_origin(self) -> Option<Ruleset<T, M>> {
        match self {
            Reducer::Input(_) => None,
            Reducer::Conclusion(c) => Some(c.spec_reduction().spec_origin()),
        }
    }

    /// Where the covered inputs start.
    pub fn start(&self) -> (r: usize)
        ensures
            r == self.spec_start(),
    {
        match self {
            Reducer::Input(i) => i.0.cursor,
            Reducer::Conclusion(c) => c.0.start,
        }
    }

    /// Where the covered inputs end (exclusively).
    pub fn end(&self) -> (r: usize)
        requires
            self.wf(),
        ensures
            r == self.spec_end(),
    {
        match self {
            Reducer::Input(i) => i.0.cursor + 1,
            Reducer::Conclusion(c) => c.0.end,
        }
    }

    /// Whether the ranges of inputs the two reducers cover share an input.
    pub fn overlaps(&self, other: &Self) -> (r: bool)
        requires
            self.wf(),
            other.wf(),
        ensures
            r == (self.spec_start() < other.spec_end() && other.spec_start() < self.spec_end()),
    {
        self.start() < other.end() && self.end() > other.start()
    }

    /// Accesses the value in this variant transparently.
    pub fn value(&self) -> (r: &T)
        requires
            self.wf(),
        ensures
            *r == self.spec_value(),
    {
        match self {
            Reducer::Input(i) => i.value(),
            Reducer::Conclusion(c) => c.value(),
        }
    }

    /// Enumerates the antecedents this reducer covers.
    pub fn antecedents(&self) -> (r: Vec<Reducer<T, M>>)
        ensures
            r@ == self.spec_antecedents(),
    {
        match self {
            Reducer::Input(_) => Vec::new(),
            Reducer::Conclusion(c) => {
                let ants = c.antecedents();
                let mut r: Vec<Reducer<T, M>> = Vec::new();
                let mut i: usize = 0;
                while i < ants.len()
                    invariant
                        i <= ants@.len(),
                        r@ == ants@.subrange(0, i as int),
                    decreases ants@.len() - i,
                {
                    r.push(ants[i].clone());
                    i = i + 1;
                    assert(r@ =~= ants@.subrange(0, i as int));
                }
                assert(r@ =~= ants@);
                r
            },
        }
    }

    /// Returns a reference to the ruleset this is originated from, if any.
    pub fn origin(&self) -> (r: Option<&Ruleset<T, M>>)
        ensures
            match self.spec_origin() {
                Some(o) => r == Some(&o),
                None => r is None,
            },
    {
        match self {
            Reducer::Input(_) => None,
            Reducer::Conclusion(c) => Some(c.origin()),
        }
    }

    /// Returns a reference to the inner value if this is an input.
    pub fn input(&self) -> (r: Option<&Input<T>>)
        ensures
            match self {
                Reducer::Input(i) => r == Some(i),
                _ => r is None,
            },
    {
        match self {
            Reducer::Input(i) => Some(i),
            _ => None,
        }
    }

    /// Returns whether this is an input.
    pub fn is_input(&self) -> (r: bool)
        ensures
            r == (self is Input),
    {
        match self {
            Reducer::Input(_) => true,
            _ => false,
        }
    }

    /// Returns the inner value if this is an input.
    pub fn into_input(self) -> (r: Option<Input<T>>)
        ensures
            match self {
                Reducer::Input(i) => r == Some(i),
                _ => r is None,
            },
    {
        match self {
            Reducer::Input(i) => Some(i),
            _ => None,
        }
    }

    /// Returns a reference to the inner value if this is a conclusion.
    pub fn conclusion(&self) -> (r: Option<&Conclusion<T, M>>)
        ensures
            match self {
                Reducer::Conclusion(c) => r == Some(c),
                _ => r is None,
            },
    {
        match self {
            Reducer::Conclusion(c) => Some(c),
            _ => None,
        }
    }

    /// Returns whether this is a conclusion.
    pub fn is_conclusion(&self) -> (r: bool)
        ensures
            r == (self is Conclusion),
    {
        match self {
            Reducer::Conclusion(_) => true,
            _ => false,
        }
    }

    /// Returns the inner value if this is a conclusion.
    pub fn into_conclusion(self) -> (r: Option<Conclusion<T, M>>)
        ensures
            match self {
                Reducer::Conclusion(c) => r == Some(c),
                _ => r is None,
            },
    {
        match self {
            Reducer::Conclusion(c) => Some(c),
            _ => None,
        }
    }
}

impl<T, M> Clone for Reducer<T, M> {
    fn clone(&self) -> (r: Self)
        ensures
            r == *self,
    {
        match self {
            Reducer::Input(i) => Reducer::Input(i.clone()),
            Reducer::Conclusion(c) => Reducer::Conclusion(c.clone()),
        }
    }
}

impl<T, M> From<Input<T>> for Reducer<T, M> {
    fn from(input: Input<T>) -> (r: Self) {
        Reducer::Input(input)
    }
}

impl<T, M> vstd::std_specs::convert::FromSpecImpl<Input<T>> for Reducer<T, M> {
    open spec fn obeys_from_spec() -> bool {
        true
    }

    open spec fn from_spec(input: Input<T>) -> Self {
        Reducer::Input(input)
    }
}

impl<T, M> From<Conclusion<T, M>> for Reducer<T, M> {
    fn from(conclusion: Conclusion<T, M>) -> (r: Self) {
        Reducer::Conclusion(conclusion)
    }
}

impl<T, M> vstd::std_specs::convert::FromSpecImpl<Conclusion<T, M>> for Reducer<T, M> {
    open spec fn obeys_from_spec() -> bool {
        true
    }

    open spec fn from_spec(conclusion: Conclusion<T, M>) -> Self {
        Reducer::Conclusion(conclusion)
    }
}

/// Every reducer of the sequence is well formed.
pub open(crate) spec fn reducers_wf<T, M>(s: Seq<Reducer<T, M>>) -> bool
    decreases s,
{
    if s.len() == 0 {
        true
    } else {
        s[0].wf() && reducers_wf(s.drop_first())
    }
}

/// A sequence of reducers is well formed when each of them is.
pub proof fn lemma_reducers_wf<T, M>(s: Seq<Reducer<T, M>>)
    ensures
        reducers_wf(s) <==> forall|i: int| 0 <= i < s.len() ==> (#[trigger] s[i]).wf(),
    decreases s.len(),
{
    if s.len() > 0 {
        lemma_reducers_wf(s.drop_first());
        if forall|i: int| 0 <= i < s.len() ==> (#[trigger] s[i]).wf() {
            assert forall|i: int| 0 <= i < s.drop_first().len() implies (#[trigger] s.drop_first()[i]).wf() by {
                assert(s.drop_first()[i] == s[i + 1]);
            }
        }
        if reducers_wf(s) {
            assert forall|i: int| 0 <= i < s.len() implies (#[trigger] s[i]).wf() by {
                if i > 0 {
                    assert(s[i] == s.drop_first()[i - 1]);
                }
            }
        }
    }
}

/// Either a [`Rule`] or a [`Reduction`] whose reductum is a [`Subrule`]: something a reducer can
/// be reduced upon.
pub enum Reducible<T, M> {
    Rule(Rule<T, M>),
    Reduction(Reduction<T, M>),
}

impl<T, M> Reducible<T, M> {
    /// The ruleset this reducible originates from.
    pub open(crate) spec fn spec_origin(self) -> Ruleset<T, M>
        decreases self,
    {
        match self {
            Reducible::Rule(rule) => rule.spec_ruleset(),
            Reducible::Reduction(r) => r.spec_origin(),
        }
    }

    /// The step this reducible is to match next.
    pub open(crate) spec fn spec_subrule(self) -> Subrule<T, M> {
        match self {
            Reducible::Rule(rule) => rule.spec_subrule(),
            Reducible::Reduction(r) => r.spec_reductum()->Subrule_0,
        }
    }

    /// A rule points into its ruleset; a reduction is well formed and ends with a subrule.
    pub open(crate) spec fn wf(self) -> bool {
        match self {
            Reducible::Rule(rule) => rule.wf(),
            Reducible::Reduction(r) => r.wf() && r.spec_reductum() is Subrule,
        }
    }

    /// Returns a reference to the ruleset this is originated from.
    pub fn origin(&self) -> (r: &Ruleset<T, M>)
        ensures
            *r == self.spec_origin(),
    {
        match self {
            Reducible::Rule(rule) => rule.ruleset(),
            Reducible::Reduction(reduction) => reduction.origin(),
        }
    }

    /// Accesses a reference to the subrule in this variant transparently.
    pub fn subrule(&self) -> (r: &Subrule<T, M>)
        requires
            self.wf(),
        ensures
            *r == self.spec_subrule(),
    {
        match self {
            Reducible::Rule(rule) => rule.subrule(),
            Reducible::Reduction(reduction) => reduction.reductum().subrule().unwrap(),
        }
    }

    /// Whether this is a rule.
    pub fn is_rule(&self) -> (r: bool)
        ensures
            r == (self is Rule),
    {
        match self {
            Reducible::Rule(_) => true,
            _ => false,
        }
    }

    /// Returns a reference to the inner value if this is a reduction.
    pub fn reduction(&self) -> (r: Option<&Reduction<T, M>>)
        ensures
            match self {
                Reducible::Reduction(x) => r == Some(x),
                _ => r is None,
            },
    {
        match self {
            Reducible::Reduction(x) => Some(x),
            _ => None,
        }
    }

    /// Turns a reduction into a reducible, when its reductum is a subrule.
    pub fn try_from_reduction(reduction: Reduction<T, M>) -> (r: Option<Self>)
        ensures
            reduction.spec_reductum() is Subrule <==> r is Some,
            r matches Some(x) ==> x == Reducible::Reduction(reduction),
    {
        if reduction.reductum().is_subrule() {
            Some(Reducible::Reduction(reduction))
        } else {
            None
        }
    }
}

impl<T, M> From<Rule<T, M>> for Reducible<T, M> {
    fn from(rule: Rule<T, M>) -> (r: Self) {
        Reducible::Rule(rule)
    }
}

impl<T, M> vstd::std_specs::convert::FromSpecImpl<Rule<T, M>> for Reducible<T, M> {
    open spec fn obeys_from_spec() -> bool {
        true
    }

    open spec fn from_spec(rule: Rule<T, M>) -> Self {
        Reducible::Rule(rule)
    }
}

impl<T, M> Clone for Reducible<T, M> {
    fn clone(&self) -> (r: Self)
        ensures
            r == *self,
    {
        match self {
            Reducible::Rule(rule) => Reducible::Rule(rule.clone()),
            Reducible::Reduction(reduction) => Reducible::Reduction(reduction.clone()),
        }
    }
}

/// A triple of a [`Reducible`], a [`Reducer`], and a [`Reductum`]: a single step of derivation.
pub struct Reduction<T, M>(pub(crate) Rc<ReductionContent<T, M>>);

pub(crate) struct ReductionContent<T, M> {
    pub(crate) reducible: Reducible<T, M>,
    pub(crate) reducer: Reducer<T, M>,
    pub(crate) reductum: Reductum<T, M>,
}

impl<T, M> Reduction<T, M> {
    /// The reducible this reduction was performed upon.
    pub open(crate) spec fn spec_reducible(self) -> Reducible<T, M> {
        self.0.reducible
    }

    /// The reducer that caused this reduction.
    pub open(crate) spec fn spec_reducer(self) -> Reducer<T, M> {
        self.0.reducer
    }

    /// The result of this reduction.
    pub open(crate) spec fn spec_reductum(self) -> Reductum<T, M> {
        self.0.reductum
    }

    /// The ruleset this reduction originates from.
    pub open(crate) spec fn spec_origin(self) -> Ruleset<T, M>
        decreases self,
    {
        match self.0.reducible {
            Reducible::Rule(rule) => rule.spec_ruleset(),
            Reducible::Reduction(r) => r.spec_origin(),
        }
    }

    /// Where the covered inputs start.
    pub open(crate) spec fn spec_start(self) -> int
        decreases self,
    {
        match self.0.reducible {
            Reducible::Rule(_) => self.0.reducer.spec_start(),
            Reducible::Reduction(r) => r.spec_start(),
        }
    }

    /// Where the covered inputs end (exclusively).
    pub open(crate) spec fn spec_end(self) -> int {
        self.0.reducer.spec_end()
    }

    /// The antecedents this reduction was performed upon, in order.
    pub open(crate) spec fn spec_antecedents(self) -> Seq<Reducer<T, M>>
        decreases self,
    {
        match self.0.reducible {
            Reducible::Rule(_) => seq![self.0.reducer],
            Reducible::Reduction(r) => r.spec_antecedents().push(self.0.reducer),
        }
    }

    /// The reducer is well formed, and the reducible is a rule of its ruleset or a well-formed
    /// reduction ending with a subrule, right where the reducer starts.
    pub open(crate) spec fn wf(self) -> bool
        decreases self,
    {
        &&& self.0.reducer.wf()
        &&& match self.0.reducible {
            Reducible::Rule(rule) => rule.wf(),
            Reducible::Reduction(r) => {
                &&& r.wf()
                &&& r.spec_reductum() is Subrule
                &&& r.spec_end() == self.0.reducer.spec_start()
            },
        }
    }

    pub(crate) fn new(reducible: Reducible<T, M>, reducer: Reducer<T, M>, reductum: Reductum<T, M>) -> (r:
        Self)
        ensures
            r.spec_reducible() == reducible,
            r.spec_reducer() == reducer,
            r.spec_reductum() == reductum,
    {
        Reduction(Rc::new(ReductionContent { reducible, reducer, reductum }))
    }

    /// Returns a reference to the reducible, the first parent of this derivation.
    pub fn reducible(&self) -> (r: &Reducible<T, M>)
        ensures
            *r == self.spec_reducible(),
    {
        &self.0.reducible
    }

    /// Returns a reference to the reducer, the second parent of this derivation.
    pub fn reducer(&self) -> (r: &Reducer<T, M>)
        ensures
            *r == self.spec_reducer(),
    {
        &self.0.reducer
    }

    /// Returns a reference to the reductum, the child of this derivation.
    pub fn reductum(&self) -> (r: &Reductum<T, M>)
        ensures
            *r == self.spec_reductum(),
    {
        &self.0.reductum
    }

    /// Returns a reference to the ruleset this reduction originates from.
    pub fn origin(&self) -> (r: &Ruleset<T, M>)
        ensures
            *r == self.spec_origin(),
        decreases self,
    {
        match &self.0.reducible {
            Reducible::Rule(rule) => rule.ruleset(),
            Reducible::Reduction(r) => {
                proof {
                    assert(decreases_to!(*self => (*self).0));
                    assert(decreases_to!((*self).0 => (*self).0.reducible));
                }
                r.origin()
            },
        }
    }

    /// Where the covered inputs start.
    pub fn start(&self) -> (r: usize)
        ensures
            r == self.spec_start(),
        decreases self,
    {
        match &self.0.reducible {
            Reducible::Rule(_) => self.0.reducer.start(),
            Reducible::Reduction(r) => {
                proof {
                    assert(decreases_to!(*self => (*self).0));
                    assert(decreases_to!((*self).0 => (*self).0.reducible));
                }
                r.start()
            },
        }
    }

    /// Where the covered inputs end (exclusively).
    pub fn end(&self) -> (r: usize)
        requires
            self.wf(),
        ensures
            r == self.spec_end(),
    {
        self.0.reducer.end()
    }

    /// Enumerates the antecedents this reduction was performed upon.
    pub fn antecedents(&self) -> (r: Vec<Reducer<T, M>>)
        ensures
            r@ == self.spec_antecedents(),
        decreases self,
    {
        match &self.0.reducible {
            Reducible::Rule(_) => {
                let mut v: Vec<Reducer<T, M>> = Vec::new();
                v.push(self.0.reducer.clone());
                assert(v@ =~= seq![self.0.reducer]);
                v
            },
            Reducible::Reduction(r) => {
                proof {
                    assert(decreases_to!(*self => (*self).0));
                    assert(decreases_to!((*self).0 => (*self).0.reducible));
                }
                let mut v = r.antecedents();
                v.push(self.0.reducer.clone());
                v
            },
        }
    }
}

impl<T, M> Clone for Reduction<T, M> {
    fn clone(&self) -> (r: Self)
        ensures
            r == *self,
    {
        Reduction(Rc::clone(&self.0))
    }
}

/// The range a well-formed reduction covers is non-empty, and its antecedents are well-formed
/// reducers that cover it one after another.
pub proof fn lemma_reduction_antecedents<T, M>(r: Reduction<T, M>)
    requires
        r.wf(),
    ensures
        r.spec_start() < r.spec_end(),
        r.spec_antecedents().len() >= 1,
        r.spec_antecedents()[0].spec_start() == r.spec_start(),
        r.spec_antecedents().last().spec_end() == r.spec_end(),
        r.spec_antecedents().last() == r.spec_reducer(),
        forall|i: int|
            0 <= i < r.spec_antecedents().len() ==> (#[trigger] r.spec_antecedents()[i]).wf()
                && r.spec_antecedents()[i].spec_start() < r.spec_antecedents()[i].spec_end(),
        forall|i: int|
            0 <= i < r.spec_antecedents().len() - 1 ==> (#[trigger] r.spec_antecedents()[i]).spec_end()
                == r.spec_antecedents()[i + 1].spec_start(),
    decreases r,
{
    lemma_reducer_range(r.spec_reducer());
    match r.spec_reducible() {
        Reducible::Rule(_) => {},
        Reducible::Reduction(p) => {
            lemma_reduction_antecedents(p);
        },
    }
}

/// A well-formed reducer covers a non-empty range.
pub proof fn lemma_reducer_range<T, M>(r: Reducer<T, M>)
    requires
        r.wf(),
    ensures
        r.spec_start() < r.spec_end(),
        0 <= r.spec_start(),
        r.spec_end() <= usize::MAX,
{
}

/// Either a [`Reducer`] or a [`Reduction`]: the contents of a chart's cells.
pub enum Item<T, M> {
    Reducer(Reducer<T, M>),
    Reduction(Reduction<T, M>),
}

impl<T, M> Item<T, M> {
    /// Where the covered inputs start.
    pub open(crate) spec fn spec_start(self) -> int {
        match self {
            Item::Reducer(r) => r.spec_start(),
            Item::Reduction(r) => r.spec_start(),
        }
    }

    /// Where the covered inputs end (exclusively).
    pub open(crate) spec fn spec_end(self) -> int {
        match self {
            Item::Reducer(r) => r.spec_end(),
            Item::Reduction(r) => r.spec_end(),
        }
    }

    /// The row of the chart this item belongs to.
    pub open(crate) spec fn spec_cursor(self) -> int {
        self.spec_end() - 1
    }

    /// The column of the chart this item belongs to.
    pub open(crate) spec fn spec_offset(self) -> int {
        self.spec_end() - self.spec_start() - 1
    }

    /// The item is well formed.
    pub open(crate) spec fn wf(self) -> bool {
        match self {
            Item::Reducer(r) => r.wf(),
            Item::Reduction(r) => r.wf(),
        }
    }

    /// The ruleset this item originates from, if any.
    pub open(crate) spec fn spec_origin(self) -> Option<Ruleset<T, M>> {
        match self {
            Item::Reducer(r) => r.spec_origin(),
            Item::Reduction(r) => Some(r.spec_origin()),
        }
    }

    /// Returns the row and the column of the chart this item belongs to.
    pub fn address(&self) -> (r: (usize, usize))
        requires
            self.wf(),
        ensures
            r.0 == self.spec_cursor(),
            r.1 == self.spec_offset(),
    {
        match self {
            Item::Reducer(x) => {
                proof {
                    lemma_reducer_range(*x);
                }
                let end = x.end();
                (end - 1, end - x.start() - 1)
            },
            Item::Reduction(x) => {
                proof {
                    lemma_reduction_antecedents(*x);
                    lemma_reducer_range(x.spec_reducer());
                }
                let end = x.end();
                (end - 1, end - x.start() - 1)
            },
        }
    }

    /// Returns a reference to the ruleset this is originated from, if any.
    pub fn origin(&self) -> (r: Option<&Ruleset<T, M>>)
        ensures
            match self.spec_origin() {
                Some(o) => r == Some(&o),
                None => r is None,
            },
    {
        match self {
            Item::Reduction(reduction) => Some(reduction.origin()),
            Item::Reducer(reducer) => reducer.origin(),
        }
    }

    /// Returns a reference to the inner value if this is a reducer.
    pub fn reducer(&self) -> (r: Option<&Reducer<T, M>>)
        ensures
            match self {
                Item::Reducer(x) => r == Some(x),
                _ => r is None,
            },
    {
        match self {
            Item::Reducer(x) => Some(x),
            _ => None,
        }
    }

    /// Returns whether this is a reducer.
    pub fn is_reducer(&self) -> (r: bool)
        ensures
            r == (self is Reducer),
    {
        match self {
            Item::Reducer(_) => true,
            _ => false,
        }
    }

    /// Returns the inner value if this is a reducer.
    pub fn into_reducer(self) -> (r: Option<Reducer<T, M>>)
        ensures
            match self {
                Item::Reducer(x) => r == Some(x),
                _ => r is None,
            },
    {
        match self {
            Item::Reducer(x) => Some(x),
            _ => None,
        }
    }

    /// Returns a reference to the inner value if this is a reduction.
    pub fn reduction(&self) -> (r: Option<&Reduction<T, M>>)
        ensures
            match self {
                Item::Reduction(x) => r == Some(x),
                _ => r is None,
            },
    {
        match self {
            Item::Reduction(x) => Some(x),
            _ => None,
        }
    }

    /// Returns whether this is a reduction.
    pub fn is_reduction(&self) -> (r: bool)
        ensures
            r == (self is Reduction),
    {
        match self {
            Item::Reduction(_) => true,
            _ => false,
        }
    }
}

impl<T, M> Clone for Item<T, M> {
    fn clone(&self) -> (r: Self)
        ensures
            r == *self,
    {
        match self {
            Item::Reduction(reduction) => Item::Reduction(reduction.clone()),
            Item::Reducer(reducer) => Item::Reducer(reducer.clone()),
        }
    }
}

} // verus!
