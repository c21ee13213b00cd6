//! A featureful wrapper around a chart: it keeps the input words, turns them into symbols, and
//! searches the chart for interpretations.
use crate::chart::{
    clamp, diagonal_items, end_of, lemma_cells_determined_by_history, pushed, start_of, Chart,
    Endpoint,
};
use crate::digest::xxh3_digest;
use crate::grammar::{Matcher, Ruleset};
use crate::items::{Item, Reducer, Reduction};
use crate::syntactic_category::SyntacticCategory;
use std::hash::Hash;
use std::ops::Range;
use vstd::prelude::*;

verus! {

/// The item is an input.
pub open spec fn is_input_item<T, M>(x: Item<T, M>) -> bool {
    x matches Item::Reducer(Reducer::Input(_))
}

/// `lexical` is what the category makes of a clone of the word, where the category's `lexical`
/// follows its specification.
pub open spec fn lexical_of<W: Clone, P: SyntacticCategory<W>>(word: W, lexical: P) -> bool {
    P::obeys_lexical_spec() ==> exists|c: W| #[trigger] cloned(word, c) && lexical == P::spec_lexical(c)
}

/// What a parsing step of `before` on the word gives: the word goes into the history, and the
/// chart gets a step whose input is the word's lexical category; when that step holds nothing
/// but inputs on its row and the category has a fallback for the word, the step is taken with
/// the fallback in its place.
pub open spec fn parsed<W: Clone, P: SyntacticCategory<W>, M: Matcher<P>>(
    before: Parser<W, P, M>,
    word: W,
    after: Parser<W, P, M>,
    grammar: Seq<&Ruleset<P, M>>,
) -> bool {
    &&& after.wf()
    &&& after.spec_history().len() == before.spec_history().len() + 1
    &&& after.spec_history().drop_last() == before.spec_history()
    &&& cloned(word, after.spec_history().last())
    &&& exists|lexical: P, first: Chart<P, M>|
        lexical_of(word, lexical) && #[trigger] pushed(before.spec_chart(), lexical, first, grammar)
            && if only_inputs(first.row_view(first.spec_len() - 1)) && P::spec_unknown(word) is Some {
            pushed(before.spec_chart(), P::spec_unknown(word)->0, after.spec_chart(), grammar)
        } else {
            after.spec_chart() == first
        }
}

/// Every one of the items is an input.
pub open spec fn only_inputs<T, M>(items: Seq<Item<T, M>>) -> bool {
    forall|j: int| 0 <= j < items.len() ==> #[trigger] is_input_item(items[j])
}

/// The reducers among `items`, in order.
pub open spec fn reducers_in<T, M>(items: Seq<Item<T, M>>) -> Seq<Reducer<T, M>>
    decreases items.len(),
{
    if items.len() == 0 {
        Seq::empty()
    } else {
        let rest = reducers_in(items.drop_last());
        match items.last() {
            Item::Reducer(r) => rest.push(r),
            _ => rest,
        }
    }
}

/// The reductions among `items` whose reductum is a subrule (those still expecting more), in
/// order.
pub open spec fn open_reductions_in<T, M>(items: Seq<Item<T, M>>) -> Seq<Reduction<T, M>>
    decreases items.len(),
{
    if items.len() == 0 {
        Seq::empty()
    } else {
        let rest = open_reductions_in(items.drop_last());
        match items.last() {
            Item::Reduction(r) => if r.spec_reductum() is Subrule {
                rest.push(r)
            } else {
                rest
            },
            _ => rest,
        }
    }
}

/// `x` clamped to at most `len`.
pub open spec fn clamp_to(x: int, len: nat) -> int {
    if x < len {
        x
    } else {
        len as int
    }
}

/// The reducers that cover exactly the inputs from `start` to `end` (exclusively).
pub open(crate) spec fn interpretations<T, M>(chart: Chart<T, M>, start: int, end: int) -> Seq<
    Reducer<T, M>,
> {
    if start < end {
        reducers_in(chart.cell_view(end - 1, end - start - 1))
    } else {
        Seq::empty()
    }
}

/// The reducers among well-formed items are well formed.
proof fn lemma_reducers_in_wf<T, M>(items: Seq<Item<T, M>>)
    requires
        forall|j: int| 0 <= j < items.len() ==> (#[trigger] items[j]).wf(),
    ensures
        forall|i: int| 0 <= i < reducers_in(items).len() ==> (#[trigger] reducers_in(items)[i]).wf(),
    decreases items.len(),
{
    if items.len() > 0 {
        let rest = items.drop_last();
        assert forall|j: int| 0 <= j < rest.len() implies (#[trigger] rest[j]).wf() by {
            assert(rest[j] == items[j]);
        }
        lemma_reducers_in_wf(rest);
        let all = reducers_in(items);
        assert forall|i: int| 0 <= i < all.len() implies (#[trigger] all[i]).wf() by {
            if i < reducers_in(rest).len() {
                assert(all[i] == reducers_in(rest)[i]);
            } else {
                assert(items.last() == items[items.len() - 1]);
            }
        }
    }
}

/// Reducers picked out of items that all cover the inputs from `start` to `end` cover them too.
proof fn lemma_reducers_in_cover<T, M>(items: Seq<Item<T, M>>, start: int, end: int)
    requires
        forall|j: int|
            0 <= j < items.len() ==> (#[trigger] items[j]).spec_start() == start && items[j].spec_end()
                == end,
    ensures
        forall|i: int|
            0 <= i < reducers_in(items).len() ==> (#[trigger] reducers_in(items)[i]).spec_start()
                == start && reducers_in(items)[i].spec_end() == end,
    decreases items.len(),
{
    if items.len() > 0 {
        let rest = items.drop_last();
        assert forall|j: int| 0 <= j < rest.len() implies (#[trigger] rest[j]).spec_start() == start
            && rest[j].spec_end() == end by {
            assert(rest[j] == items[j]);
        }
        lemma_reducers_in_cover(rest, start, end);
        let all = reducers_in(items);
        assert forall|i: int| 0 <= i < all.len() implies (#[trigger] all[i]).spec_start() == start
            && all[i].spec_end() == end by {
            if i < reducers_in(rest).len() {
                assert(all[i] == reducers_in(rest)[i]);
            } else {
                assert(items.last() == items[items.len() - 1]);
            }
        }
    }
}

/// Open reductions picked out of items that all start at `start` start there too.
proof fn lemma_open_reductions_in_start<T, M>(items: Seq<Item<T, M>>, start: int)
    requires
        forall|j: int| 0 <= j < items.len() ==> (#[trigger] items[j]).spec_start() == start,
    ensures
        forall|i: int|
            0 <= i < open_reductions_in(items).len() ==> (#[trigger] open_reductions_in(
                items,
            )[i]).spec_start() == start,
    decreases items.len(),
{
    if items.len() > 0 {
        let rest = items.drop_last();
        assert forall|j: int| 0 <= j < rest.len() implies (#[trigger] rest[j]).spec_start() == start by {
            assert(rest[j] == items[j]);
        }
        lemma_open_reductions_in_start(rest, start);
        let all = open_reductions_in(items);
        assert forall|i: int| 0 <= i < all.len() implies (#[trigger] all[i]).spec_start() == start by {
            if i < open_reductions_in(rest).len() {
                assert(all[i] == open_reductions_in(rest)[i]);
            } else {
                assert(items.last() == items[items.len() - 1]);
            }
        }
    }
}

/// The items on the diagonal from row `start` of a consistent chart all start at `start`.
proof fn lemma_diagonal_items_start<T, M>(chart: Chart<T, M>, start: int, end: int)
    requires
        chart.consistent(),
        0 <= start,
    ensures
        forall|j: int|
            0 <= j < diagonal_items(chart, start, end).len() ==> (#[trigger] diagonal_items(
                chart,
                start,
                end,
            )[j]).spec_start() == start,
    decreases end - start,
{
    if end > start {
        lemma_diagonal_items_start(chart, start, end - 1);
        let prev = diagonal_items(chart, start, end - 1);
        let cell = chart.cell_view(end - 1, end - 1 - start);
        let all = diagonal_items(chart, start, end);
        assert(all == prev + cell);
        assert forall|j: int| 0 <= j < all.len() implies (#[trigger] all[j]).spec_start() == start by {
            if j < prev.len() {
                assert(all[j] == prev[j]);
            } else {
                let k = j - prev.len();
                assert(all[j] == cell[k]);
                let x = chart.table@[end - 1]@[end - 1 - start]@[k];
                assert(x == cell[k]);
                assert(x.spec_cursor() == end - 1 && x.spec_offset() == end - 1 - start);
            }
        }
    }
}

/// The interpretations of a consistent chart are well formed.
proof fn lemma_interpretations_wf<T, M>(chart: Chart<T, M>, start: int, end: int)
    requires
        chart.consistent(),
    ensures
        forall|i: int|
            0 <= i < interpretations(chart, start, end).len() ==> (#[trigger] interpretations(
                chart,
                start,
                end,
            )[i]).wf(),
{
    if start < end {
        let items = chart.cell_view(end - 1, end - start - 1);
        assert forall|j: int| 0 <= j < items.len() implies (#[trigger] items[j]).wf() by {
            assert(chart.table@[end - 1]@[end - start - 1]@[j] == items[j]);
        }
        lemma_reducers_in_wf(items);
    }
}

/// The entries of `items` whose digest (the entry of `digests` at the same position) is
/// `target`, in order.
pub open spec fn select_by_digest<X>(items: Seq<X>, digests: Seq<u64>, target: u64) -> Seq<X>
    decreases items.len(),
{
    if items.len() == 0 {
        Seq::empty()
    } else {
        let rest = select_by_digest(items.drop_last(), digests.drop_last(), target);
        if digests.last() == target {
            rest.push(items.last())
        } else {
            rest
        }
    }
}

/// The entries of `items` at the positions where `keep` holds, in order.
pub open spec fn select_where<X>(items: Seq<X>, keep: Seq<bool>) -> Seq<X>
    decreases items.len(),
{
    if items.len() == 0 {
        Seq::empty()
    } else {
        let rest = select_where(items.drop_last(), keep.drop_last());
        if keep.last() {
            rest.push(items.last())
        } else {
            rest
        }
    }
}

/// The reducers among `items`, in order.
fn collect_reducers<T, M>(items: &Vec<Item<T, M>>) -> (r: Vec<Reducer<T, M>>)
    ensures
        r@ == reducers_in(items@),
{
    let mut r: Vec<Reducer<T, M>> = Vec::new();
    let mut i: usize = 0;
    while i < items.len()
        invariant
            i <= items@.len(),
            r@ == reducers_in(items@.subrange(0, i as int)),
        decreases items@.len() - i,
    {
        proof {
            assert(items@.subrange(0, i + 1).drop_last() =~= items@.subrange(0, i as int));
        }
        match &items[i] {
            Item::Reducer(x) => r.push(x.clone()),
            _ => {},
        }
        i = i + 1;
    }
    assert(items@.subrange(0, i as int) =~= items@);
    r
}

/// The reductions among `items` still expecting more, in order.
fn collect_open_reductions<T, M>(items: &Vec<Item<T, M>>) -> (r: Vec<Reduction<T, M>>)
    ensures
        r@ == open_reductions_in(items@),
{
    let mut r: Vec<Reduction<T, M>> = Vec::new();
    let mut i: usize = 0;
    while i < items.len()
        invariant
            i <= items@.len(),
            r@ == open_reductions_in(items@.subrange(0, i as int)),
        decreases items@.len() - i,
    {
        proof {
            assert(items@.subrange(0, i + 1).drop_last() =~= items@.subrange(0, i as int));
        }
        match &items[i] {
            Item::Reduction(x) => {
                if x.reductum().is_subrule() {
                    r.push(x.clone());
                }
            },
            _ => {},
        }
        i = i + 1;
    }
    assert(items@.subrange(0, i as int) =~= items@);
    r
}

/// Keeps the entries of `items` whose digest is `target`.
pub fn keep_by_digest<X: Clone>(items: &Vec<X>, digests: &Vec<u64>, target: u64) -> (r: Vec<X>)
    requires
        items@.len() == digests@.len(),
    ensures
        r@.len() == select_by_digest(items@, digests@, target).len(),
        forall|i: int|
            0 <= i < r@.len() ==> cloned(
                #[trigger] select_by_digest(items@, digests@, target)[i],
                r@[i],
            ),
{
    let mut r: Vec<X> = Vec::new();
    let mut i: usize = 0;
    while i < items.len()
        invariant
            i <= items@.len(),
            items@.len() == digests@.len(),
            r@.len() == select_by_digest(
                items@.subrange(0, i as int),
                digests@.subrange(0, i as int),
                target,
            ).len(),
            forall|j: int|
                0 <= j < r@.len() ==> cloned(
                    #[trigger] select_by_digest(
                        items@.subrange(0, i as int),
                        digests@.subrange(0, i as int),
                        target,
                    )[j],
                    r@[j],
                ),
        decreases items@.len() - i,
    {
        let ghost prev = select_by_digest(
            items@.subrange(0, i as int),
            digests@.subrange(0, i as int),
            target,
        );
        proof {
            assert(items@.subrange(0, i + 1).drop_last() =~= items@.subrange(0, i as int));
            assert(digests@.subrange(0, i + 1).drop_last() =~= digests@.subrange(0, i as int));
        }
        if digests[i] == target {
            let x = items[i].clone();
            r.push(x);
        }
        i = i + 1;
        proof {
            let now = select_by_digest(
                items@.subrange(0, i as int),
                digests@.subrange(0, i as int),
                target,
            );
            assert forall|j: int| 0 <= j < r@.len() implies cloned(#[trigger] now[j], r@[j]) by {
                if j < prev.len() {
                    assert(now[j] == prev[j]);
                }
            }
        }
    }
    assert(items@.subrange(0, i as int) =~= items@);
    assert(digests@.subrange(0, i as int) =~= digests@);
    r
}

/// Keeps the entries of `items` at the positions where `keep` holds.
pub fn keep_where<X: Clone>(items: &Vec<X>, keep: &Vec<bool>) -> (r: Vec<X>)
    requires
        items@.len() == keep@.len(),
    ensures
        r@.len() == select_where(items@, keep@).len(),
        forall|i: int| 0 <= i < r@.len() ==> cloned(#[trigger] select_where(items@, keep@)[i], r@[i]),
{
    let mut r: Vec<X> = Vec::new();
    let mut i: usize = 0;
    while i < items.len()
        invariant
            i <= items@.len(),
            items@.len() == keep@.len(),
            r@.len() == select_where(items@.subrange(0, i as int), keep@.subrange(0, i as int)).len(),
            forall|j: int|
                0 <= j < r@.len() ==> cloned(
                    #[trigger] select_where(items@.subrange(0, i as int), keep@.subrange(0, i as int))[j],
                    r@[j],
                ),
        decreases items@.len() - i,
    {
        let ghost prev = select_where(items@.subrange(0, i as int), keep@.subrange(0, i as int));
        proof {
            assert(items@.subrange(0, i + 1).drop_last() =~= items@.subrange(0, i as int));
            assert(keep@.subrange(0, i + 1).drop_last() =~= keep@.subrange(0, i as int));
        }
        if keep[i] {
            let x = items[i].clone();
            r.push(x);
        }
        i = i + 1;
        proof {
            let now = select_where(items@.subrange(0, i as int), keep@.subrange(0, i as int));
            assert forall|j: int| 0 <= j < r@.len() implies cloned(#[trigger] now[j], r@[j]) by {
                if j < prev.len() {
                    assert(now[j] == prev[j]);
                }
            }
        }
    }
    assert(items@.subrange(0, i as int) =~= items@);
    assert(keep@.subrange(0, i as int) =~= keep@);
    r
}

/// A featureful wrapper around a [`Chart`]: it keeps the history of input words besides.
pub struct Parser<W, P, M> {
    pub(crate) chart: Chart<P, M>,
    pub(crate) history: Vec<W>,
}

impl<W, P, M> Parser<W, P, M> {
    /// The chart.
    pub open(crate) spec fn spec_chart(self) -> Chart<P, M> {
        self.chart
    }

    /// The input words, in order.
    pub open(crate) spec fn spec_history(self) -> Seq<W> {
        self.history@
    }

    /// The chart is well formed and has a row for each input word.
    pub open(crate) spec fn wf(self) -> bool {
        &&& self.chart.wf()
        &&& self.chart.spec_len() == self.history@.len()
    }

    /// Creates an empty parser.
    pub fn new() -> (r: Self)
        ensures
            r.wf(),
            r.spec_chart().spec_len() == 0,
            r.spec_history() == Seq::<W>::empty(),
            r.spec_chart().history_view() == Seq::<Seq<Item<P, M>>>::empty(),
    {
        Parser { chart: Chart::new(), history: Vec::new() }
    }

    /// Returns a reference to the chart.
    pub fn chart(&self) -> (r: &Chart<P, M>)
        ensures
            *r == self.spec_chart(),
    {
        &self.chart
    }

    /// Returns a slice of the history of inputs.
    pub fn history(&self) -> (r: &[W])
        ensures
            r@ == self.spec_history(),
    {
        self.history.as_slice()
    }

    /// Enumerates reducers that cover the given range of inputs, clamped to the chart: those in
    /// the cell of the last covered input, at the column of how many more inputs they cover.
    /// An empty range covers nothing.
    pub fn interpret_within(&self, bounds: Range<usize>) -> (r: Vec<Reducer<P, M>>)
        ensures
            r@ == interpretations(
                self.spec_chart(),
                clamp(bounds.start, self.spec_chart().spec_len()),
                clamp(bounds.end, self.spec_chart().spec_len()),
            ),
            self.wf() ==> forall|i: int|
                0 <= i < r@.len() ==> (#[trigger] r@[i]).spec_start() == clamp(
                    bounds.start,
                    self.spec_chart().spec_len(),
                ) && r@[i].spec_end() == clamp(bounds.end, self.spec_chart().spec_len()),
    {
        let len = self.chart.len();
        let start = if bounds.start < len { bounds.start } else { len };
        let end = if bounds.end < len { bounds.end } else { len };
        if start >= end {
            return Vec::new();
        }
        let cursor = end - 1;
        let offset = end - start - 1;
        proof {
            if self.wf() {
                let items = self.chart.cell_view(cursor as int, offset as int);
                assert forall|j: int| 0 <= j < items.len() implies (#[trigger] items[j]).spec_start()
                    == start && items[j].spec_end() == end by {
                    let x = self.chart.table@[cursor as int]@[offset as int]@[j];
                    assert(x == items[j]);
                    assert(x.spec_cursor() == cursor && x.spec_offset() == offset);
                }
                lemma_reducers_in_cover(items, start as int, end as int);
            }
        }
        match self.chart.cell(cursor, offset) {
            Some(cell) => collect_reducers(cell),
            None => {
                assert(self.chart.cell_view(cursor as int, offset as int) =~= Seq::<
                    Item<P, M>,
                >::empty());
                Vec::new()
            },
        }
    }

    /// Enumerates reducers that cover the inputs between the two ends, each clamped to the
    /// chart; see [`Parser::interpret_within`].
    pub fn interpret_between(&self, start: Endpoint, end: Endpoint) -> (r: Vec<Reducer<P, M>>)
        requires
            start != Endpoint::Excluded(usize::MAX),
            end != Endpoint::Included(usize::MAX),
        ensures
            r@ == interpretations(
                self.spec_chart(),
                clamp_to(start_of(start), self.spec_chart().spec_len()),
                clamp_to(end_of(end, self.spec_chart().spec_len()), self.spec_chart().spec_len()),
            ),
    {
        let range = self.chart.range_from(start, end);
        self.interpret_within(range)
    }

    /// Enumerates reducers that cover the entire inputs. This is `interpret_within(0..len)`.
    pub fn interpret(&self) -> (r: Vec<Reducer<P, M>>)
        ensures
            r@ == interpretations(self.spec_chart(), 0, self.spec_chart().spec_len() as int),
            self.wf() ==> forall|i: int|
                0 <= i < r@.len() ==> (#[trigger] r@[i]).spec_start() == 0 && r@[i].spec_end()
                    == self.spec_chart().spec_len(),
    {
        self.interpret_within(0..self.chart.len())
    }

    /// Enumerates reducers that cover the entire inputs and whose value has the digest of the
    /// given one: `interpret()` filtered by digest. What the digests are depends on the user's
    /// `Hash` impl, so the contract says that the result is the selection of `interpret()` by
    /// some digests, one per reducer; see [`Parser::interpret_as_by`] for the selection itself.
    pub fn interpret_as(&self, value: &P) -> (r: Vec<Reducer<P, M>>)
        where
            P: Hash,
        requires
            self.wf(),
        ensures
            exists|digests: Seq<u64>, target: u64|
                #![trigger select_by_digest(
                    interpretations(self.spec_chart(), 0, self.spec_chart().spec_len() as int),
                    digests,
                    target,
                )]
                digests.len() == interpretations(self.spec_chart(), 0, self.spec_chart().spec_len() as int).len() && r@ == select_by_digest(
                    interpretations(self.spec_chart(), 0, self.spec_chart().spec_len() as int),
                    digests,
                    target,
                ),
    {
        let digest = |x: &P| -> (d: u64) { xxh3_digest(x) };
        self.interpret_as_by(value, digest)
    }

    /// Enumerates reducers that cover the entire inputs and whose value has the digest of the
    /// given one, digests being what `digest` gives: each reducer of `interpret()`, in order, is
    /// kept exactly when the digest of its own value equals that of `value`.
    pub fn interpret_as_by<F: Fn(&P) -> u64>(&self, value: &P, digest: F) -> (r: Vec<Reducer<P, M>>)
        requires
            self.wf(),
            forall|x: &P| #[trigger] digest.requires((x,)),
        ensures
            exists|digests: Seq<u64>, target: u64|
                #![trigger select_by_digest(
                    interpretations(self.spec_chart(), 0, self.spec_chart().spec_len() as int),
                    digests,
                    target,
                )]
                {
                    let all = interpretations(self.spec_chart(), 0, self.spec_chart().spec_len() as int);
                    &&& digest.ensures((value,), target)
                    &&& digests.len() == all.len()
                    &&& forall|i: int|
                        0 <= i < all.len() ==> digest.ensures((&all[i].spec_value(),), #[trigger] digests[i])
                    &&& r@ == select_by_digest(all, digests, target)
                },
            forall|g: spec_fn(P) -> u64|
                (forall|x: &P, d: u64| #[trigger] digest.ensures((x,), d) ==> d == g(*x)) ==> r@
                    == #[trigger] with_value_digest(interpretations(self.spec_chart(), 0, self.spec_chart().spec_len() as int), g, *value),
    {
        let all = self.interpret();
        proof {
            lemma_interpretations_wf(self.spec_chart(), 0, self.spec_chart().spec_len() as int);
        }
        let target = digest(value);
        let mut digests: Vec<u64> = Vec::new();
        let mut i: usize = 0;
        while i < all.len()
            invariant
                i <= all@.len(),
                digests@.len() == i,
                all@ == interpretations(self.spec_chart(), 0, self.spec_chart().spec_len() as int),
                self.wf(),
                forall|j: int| 0 <= j < all@.len() ==> (#[trigger] all@[j]).wf(),
                forall|x: &P| #[trigger] digest.requires((x,)),
                forall|j: int| 0 <= j < i ==> digest.ensures((&all@[j].spec_value(),), #[trigger] digests@[j]),
            decreases all@.len() - i,
        {
            let d = digest(all[i].value());
            digests.push(d);
            i = i + 1;
        }
        let r = keep_by_digest(&all, &digests, target);
        proof {
            assert forall|j: int| 0 <= j < r@.len() implies r@[j] == select_by_digest(all@, digests@, target)[j] by {
                assert(cloned(select_by_digest(all@, digests@, target)[j], r@[j]));
            }
            assert(r@ =~= select_by_digest(all@, digests@, target));
            assert forall|g: spec_fn(P) -> u64|
                (forall|x: &P, d: u64| #[trigger] digest.ensures((x,), d) ==> d == g(*x)) implies r@
                    == #[trigger] with_value_digest(all@, g, *value) by {
                let pred = |x: Reducer<P, M>| g(x.spec_value()) == g(*value);
                assert forall|j: int| 0 <= j < all@.len() implies (digests@[j] == target) == pred(all@[j]) by {
                    assert(digest.ensures((&all@[j].spec_value(),), digests@[j]));
                }
                law_selection_by_digest_is_filter(all@, digests@, target, pred);
            }
        }
        r
    }

    /// Enumerates the reductions still expecting more that lie on the diagonal going from the
    /// first cell of the row at the start of the range to the row at its end: the reductions
    /// that can be continued to cover the given range.
    pub fn analyze_within(&self, bounds: Range<usize>) -> (r: Vec<Reduction<P, M>>)
        ensures
            r@ == open_reductions_in(
                diagonal_items(
                    self.spec_chart(),
                    clamp(bounds.start, self.spec_chart().spec_len()),
                    clamp(bounds.end, self.spec_chart().spec_len()),
                ),
            ),
            self.wf() ==> forall|i: int|
                0 <= i < r@.len() ==> (#[trigger] r@[i]).spec_start() == clamp(
                    bounds.start,
                    self.spec_chart().spec_len(),
                ),
    {
        let items = self.chart.items_diagonally_within(bounds);
        proof {
            if self.wf() {
                let start = clamp(bounds.start, self.spec_chart().spec_len());
                let end = clamp(bounds.end, self.spec_chart().spec_len());
                lemma_diagonal_items_start(self.chart, start, end);
                lemma_open_reductions_in_start(diagonal_items(self.chart, start, end), start);
            }
        }
        collect_open_reductions(&items)
    }

    /// Enumerates the reductions still expecting more that lie on the diagonal between the two
    /// ends, each clamped to the chart; see [`Parser::analyze_within`].
    pub fn analyze_between(&self, start: Endpoint, end: Endpoint) -> (r: Vec<Reduction<P, M>>)
        requires
            start != Endpoint::Excluded(usize::MAX),
            end != Endpoint::Included(usize::MAX),
        ensures
            r@ == open_reductions_in(
                diagonal_items(
                    self.spec_chart(),
                    clamp_to(start_of(start), self.spec_chart().spec_len()),
                    clamp_to(end_of(end, self.spec_chart().spec_len()), self.spec_chart().spec_len()),
                ),
            ),
    {
        let range = self.chart.range_from(start, end);
        self.analyze_within(range)
    }

    /// Enumerates the reductions still expecting more that can cover the entire inputs. This
    /// is `analyze_within(0..len)`.
    pub fn analyze(&self) -> (r: Vec<Reduction<P, M>>)
        ensures
            r@ == open_reductions_in(
                diagonal_items(self.spec_chart(), 0, self.spec_chart().spec_len() as int),
            ),
            self.wf() ==> forall|i: int| 0 <= i < r@.len() ==> (#[trigger] r@[i]).spec_start() == 0,
    {
        self.analyze_within(0..self.chart.len())
    }

    /// Enumerates the reductions of `analyze()` that originate from the given ruleset (the same
    /// ruleset, not merely an equal one), in order. Whether two rulesets are the same is told by
    /// their allocation, which the contract cannot see: it says that the result is the selection
    /// of `analyze()` by some choice of entries, each chosen one originating from an equal
    /// ruleset.
    pub fn analyze_for(&self, ruleset: &Ruleset<P, M>) -> (r: Vec<Reduction<P, M>>)
        ensures
            exists|keep: Seq<bool>|
                #![trigger select_where(
                    open_reductions_in(
                        diagonal_items(self.spec_chart(), 0, self.spec_chart().spec_len() as int),
                    ),
                    keep,
                )]
                {
                    let all = open_reductions_in(
                        diagonal_items(self.spec_chart(), 0, self.spec_chart().spec_len() as int),
                    );
                    &&& keep.len() == all.len()
                    &&& forall|i: int|
                        0 <= i < all.len() && #[trigger] keep[i] ==> all[i].spec_origin()
                            == *ruleset
                    &&& r@ == select_where(all, keep)
                },
    {
        let same = |a: &Ruleset<P, M>, b: &Ruleset<P, M>| -> (k: bool)
            ensures
                k ==> *a == *b,
            { a.is(b) };
        let r = self.analyze_for_by(ruleset, same);
        proof {
            let all = open_reductions_in(diagonal_items(self.spec_chart(), 0, self.spec_chart().spec_len() as int));
            let keep = choose|keep: Seq<bool>|
                #![trigger select_where(all, keep)]
                keep.len() == all.len() && (forall|i: int|
                    0 <= i < all.len() ==> same.ensures((&all[i].spec_origin(), ruleset), #[trigger] keep[i]))
                    && r@ == select_where(all, keep);
            assert forall|i: int| 0 <= i < all.len() && #[trigger] keep[i] implies all[i].spec_origin() == *ruleset by {
                assert(same.ensures((&all[i].spec_origin(), ruleset), keep[i]));
            }
        }
        r
    }

    /// Enumerates the reductions of `analyze()` whose ruleset `same` tells to be the given one:
    /// each reduction, in order, is kept exactly when `same` says so of its ruleset.
    pub fn analyze_for_by<F: Fn(&Ruleset<P, M>, &Ruleset<P, M>) -> bool>(&self, ruleset: &Ruleset<P, M>, same: F) -> (r:
        Vec<Reduction<P, M>>)
        requires
            forall|a: &Ruleset<P, M>, b: &Ruleset<P, M>| #[trigger] same.requires((a, b)),
        ensures
            exists|keep: Seq<bool>|
                #![trigger select_where(open_reductions_in(diagonal_items(self.spec_chart(), 0, self.spec_chart().spec_len() as int)), keep)]
                {
                    let all = open_reductions_in(diagonal_items(self.spec_chart(), 0, self.spec_chart().spec_len() as int));
                    &&& keep.len() == all.len()
                    &&& forall|i: int|
                        0 <= i < all.len() ==> same.ensures((&all[i].spec_origin(), ruleset), #[trigger] keep[i])
                    &&& r@ == select_where(all, keep)
                },
            forall|s: spec_fn(Ruleset<P, M>, Ruleset<P, M>) -> bool|
                (forall|a: &Ruleset<P, M>, b: &Ruleset<P, M>, k: bool|
                    #[trigger] same.ensures((a, b), k) ==> k == s(*a, *b)) ==> r@
                    == #[trigger] with_origin(open_reductions_in(diagonal_items(self.spec_chart(), 0, self.spec_chart().spec_len() as int)), s, *ruleset),
    {
        let all = self.analyze();
        let mut keep: Vec<bool> = Vec::new();
        let mut i: usize = 0;
        while i < all.len()
            invariant
                i <= all@.len(),
                keep@.len() == i,
                all@ == open_reductions_in(diagonal_items(self.spec_chart(), 0, self.spec_chart().spec_len() as int)),
                forall|a: &Ruleset<P, M>, b: &Ruleset<P, M>| #[trigger] same.requires((a, b)),
                forall|j: int| 0 <= j < i ==> same.ensures((&all@[j].spec_origin(), ruleset), #[trigger] keep@[j]),
            decreases all@.len() - i,
        {
            let k = same(all[i].origin(), ruleset);
            keep.push(k);
            i = i + 1;
        }
        let r = keep_where(&all, &keep);
        proof {
            assert forall|j: int| 0 <= j < r@.len() implies r@[j] == select_where(all@, keep@)[j] by {
                assert(cloned(select_where(all@, keep@)[j], r@[j]));
            }
            assert(r@ =~= select_where(all@, keep@));
            assert forall|s: spec_fn(Ruleset<P, M>, Ruleset<P, M>) -> bool|
                (forall|a: &Ruleset<P, M>, b: &Ruleset<P, M>, k: bool|
                    #[trigger] same.ensures((a, b), k) ==> k == s(*a, *b)) implies r@
                    == #[trigger] with_origin(all@, s, *ruleset) by {
                let pred = |q: Reduction<P, M>| s(q.spec_origin(), *ruleset);
                assert forall|j: int| 0 <= j < all@.len() implies keep@[j] == pred(all@[j]) by {
                    assert(same.ensures((&all@[j].spec_origin(), ruleset), keep@[j]));
                }
                law_selection_is_filter(all@, keep@, pred);
            }
        }
        r
    }

    /// Returns whether the last step caused no reduction: the last row holds nothing but inputs.
    fn is_rejecting(&self) -> (r: bool)
        requires
            self.chart.spec_len() > 0,
        ensures
            r == only_inputs(self.chart.row_view(self.chart.spec_len() - 1)),
    {
        let items = self.chart.items_horizontally_on(self.chart.len() - 1);
        let ghost row = self.chart.row_view(self.chart.spec_len() - 1);
        let mut i: usize = 0;
        while i < items.len()
            invariant
                i <= items@.len(),
                items@ == row,
                row == self.chart.row_view(self.chart.spec_len() - 1),
                forall|j: int| 0 <= j < i ==> #[trigger] is_input_item(items@[j]),
            decreases items@.len() - i,
        {
            match &items[i] {
                Item::Reducer(Reducer::Input(_)) => {},
                _ => {
                    assert(!is_input_item(items@[i as int]));
                    return false;
                },
            }
            i = i + 1;
        }
        true
    }

    /// Returns whether no reducer covers the entire inputs.
    pub fn is_incomplete(&self) -> (r: bool)
        ensures
            r == (interpretations(self.spec_chart(), 0, self.spec_chart().spec_len() as int).len()
                == 0),
    {
        self.interpret().len() == 0
    }
}

impl<W: Clone, P: SyntacticCategory<W>, M: Matcher<P>> Parser<W, P, M> {
    /// Performs a single parsing step: the word's lexical category goes into the chart; when it
    /// caused no reduction and the category has a fallback for unknown words, the step is redone
    /// with the fallback.
    pub fn parse(&mut self, word: W, grammar: &[&Ruleset<P, M>])
        requires
            old(self).wf(),
            old(self).spec_history().len() + 1 < usize::MAX,
        ensures
            parsed(*old(self), word, *final(self), grammar@),
    {
        let lexical_word = word.clone();
        let ghost lw = lexical_word;
        let phrase = P::lexical(lexical_word);
        let ghost lexical = phrase;
        let copy = word.clone();
        self.history.push(copy);
        let ghost h1 = self.history@;
        let ghost c0 = self.chart;
        self.chart.push(phrase, grammar);
        let ghost first = self.chart;
        assert(cloned(word, lw));
        assert(lexical_of(word, lexical));
        assert(pushed(old(self).spec_chart(), lexical, first, grammar@));
        let ghost word_ = word;
        if self.is_rejecting() {
            let fallback = P::unknown(word);
            match fallback {
                Some(phrase) => {
                    let ghost c1 = self.chart;
                    let popped = self.unparse();
                    match popped {
                        Some(w) => {
                            self.history.push(w);
                            proof {
                                assert(self.history@ =~= h1);
                                assert(self.chart.history_view() == c0.history_view());
                            }
                            let ghost c2 = self.chart;
                            self.chart.push(phrase, grammar);
                            proof {
                                assert(c2.spec_len() == c2.history_view().len());
                                assert(c0.spec_len() == c0.history_view().len());
                                assert(pushed(c0, P::spec_unknown(word_)->0, self.chart, grammar@));
                            }
                        },
                        None => {},
                    }
                },
                None => {},
            }
        }
        proof {
            assert(old(self).spec_chart() == c0);
            if only_inputs(first.row_view(first.spec_len() - 1)) && P::spec_unknown(word_) is Some {
                assert(pushed(old(self).spec_chart(), P::spec_unknown(word_)->0, self.spec_chart(), grammar@));
            } else {
                assert(self.spec_chart() == first);
            }
            assert(pushed(old(self).spec_chart(), lexical, first, grammar@));
            assert(self.wf());
            assert(self.spec_history().len() == old(self).spec_history().len() + 1);
            assert(self.spec_history().drop_last() == old(self).spec_history());
            assert(cloned(word_, self.spec_history().last()));
        }
    }

    /// Undoes the last parsing step, and returns its word, or `None` if there was none.
    pub fn unparse(&mut self) -> (r: Option<W>)
        requires
            old(self).wf(),
        ensures
            final(self).wf(),
            old(self).spec_history().len() == 0 ==> r is None && final(self).spec_history()
                == old(self).spec_history() && final(self).spec_chart().history_view() == old(
                self,
            ).spec_chart().history_view(),
            old(self).spec_history().len() > 0 ==> {
                &&& r == Some(old(self).spec_history().last())
                &&& final(self).spec_history() == old(self).spec_history().drop_last()
                &&& final(self).spec_chart().history_view() == old(
                    self,
                ).spec_chart().history_view().drop_last()
            },
    {
        let _ = self.chart.pop();
        self.history.pop()
    }

    /// Performs parsing on each of the words, in order.
    pub fn parse_all(&mut self, words: Vec<W>, grammar: &[&Ruleset<P, M>])
        requires
            old(self).wf(),
            old(self).spec_history().len() + words@.len() + 1 < usize::MAX,
        ensures
            final(self).wf(),
            final(self).spec_history().len() == old(self).spec_history().len() + words@.len(),
            final(self).spec_history().subrange(0, old(self).spec_history().len() as int) == old(
                self,
            ).spec_history(),
            forall|i: int|
                0 <= i < words@.len() ==> cloned(
                    words@[i],
                    #[trigger] final(self).spec_history()[old(self).spec_history().len() + i],
                ),
            exists|steps: Seq<Parser<W, P, M>>|
                steps.len() == words@.len() + 1 && steps[0] == *old(self) && steps.last() == *final(self)
                    && forall|i: int|
                    0 <= i < words@.len() ==> #[trigger] parsed(steps[i], words@[i], steps[i + 1], grammar@),
    {
        let ghost ws = words@;
        let mut words = words;
        let mut pending: Vec<W> = Vec::new();
        while words.len() > 0
            invariant
                words@.len() + pending@.len() == ws.len(),
                forall|j: int| 0 <= j < words@.len() ==> #[trigger] words@[j] == ws[j],
                forall|j: int|
                    0 <= j < pending@.len() ==> #[trigger] pending@[j] == ws[ws.len() - 1 - j],
            decreases words@.len(),
        {
            let w = words.pop().unwrap();
            pending.push(w);
        }
        let mut i: usize = 0;
        let ghost h0 = self.history@;
        let ghost mut steps: Seq<Parser<W, P, M>> = seq![*self];
        while pending.len() > 0
            invariant
                self.wf(),
                i + pending@.len() == ws.len(),
                self.history@.len() == h0.len() + i,
                h0.len() + ws.len() + 1 < usize::MAX,
                self.history@.subrange(0, h0.len() as int) == h0,
                forall|j: int|
                    0 <= j < pending@.len() ==> #[trigger] pending@[j] == ws[ws.len() - 1 - j],
                forall|j: int| 0 <= j < i ==> cloned(ws[j], #[trigger] self.history@[h0.len() + j]),
                steps.len() == i + 1,
                steps[0] == *old(self),
                steps.last() == *self,
                forall|j: int| 0 <= j < i ==> #[trigger] parsed(steps[j], ws[j], steps[j + 1], grammar@),
            decreases pending@.len(),
        {
            let ghost before = self.history@;
            let ghost previous = *self;
            let w = pending.pop().unwrap();
            assert(w == ws[i as int]);
            self.parse(w, grammar);
            proof {
                let old_steps = steps;
                steps = steps.push(*self);
                assert forall|j: int| 0 <= j < i + 1 implies #[trigger] parsed(steps[j], ws[j], steps[j + 1], grammar@) by {
                    if j < i {
                        assert(steps[j] == old_steps[j]);
                        assert(steps[j + 1] == old_steps[j + 1]);
                    } else {
                        assert(steps[j] == previous);
                    }
                }
                assert forall|j: int| 0 <= j < h0.len() implies self.history@[j] == h0[j] by {
                    assert(self.history@[j] == before[j]);
                    assert(before.subrange(0, h0.len() as int)[j] == before[j]);
                }
                assert(self.history@.subrange(0, h0.len() as int) =~= h0);
                assert forall|j: int| 0 <= j < i + 1 implies cloned(
                    ws[j],
                    #[trigger] self.history@[h0.len() + j],
                ) by {
                    if j < i {
                        assert(self.history@[h0.len() + j] == before[h0.len() + j]);
                    }
                }
            }
            i = i + 1;
        }
    }
}

impl<W, P, M> Default for Parser<W, P, M> {
    fn default() -> (r: Self)
        ensures
            r.wf(),
            r.spec_history() == Seq::<W>::empty(),
            r.spec_chart().history_view() == Seq::<Seq<Item<P, M>>>::empty(),
    {
        Parser::new()
    }
}

/// Undoing a parsing step restores the parser: when `parsed` is what [`Parser::parse`] made of
/// `before`, and `restored` is what [`Parser::unparse`] then made of `parsed`, `restored` has
/// the words, the chart history and the cells of `before`, and the word handed back is the one
/// that was parsed (a clone of it).
pub proof fn law_unparse_undoes_parse<W: Clone, P, M>(
    before: Parser<W, P, M>,
    word: W,
    parsed: Parser<W, P, M>,
    restored: Parser<W, P, M>,
    returned: Option<W>,
)
    requires
        before.wf(),
        parsed.wf(),
        restored.wf(),
        parsed.spec_history().len() == before.spec_history().len() + 1,
        parsed.spec_history().drop_last() == before.spec_history(),
        cloned(word, parsed.spec_history().last()),
        parsed.spec_chart().history_view().drop_last() == before.spec_chart().history_view(),
        returned == Some(parsed.spec_history().last()),
        restored.spec_history() == parsed.spec_history().drop_last(),
        restored.spec_chart().history_view() == parsed.spec_chart().history_view().drop_last(),
    ensures
        restored.spec_history() == before.spec_history(),
        restored.spec_chart().history_view() == before.spec_chart().history_view(),
        restored.spec_chart().spec_len() == before.spec_chart().spec_len(),
        forall|r: int, o: int| #[trigger]
            restored.spec_chart().cell_view(r, o) == before.spec_chart().cell_view(r, o),
        returned matches Some(w) && cloned(word, w),
{
    lemma_cells_determined_by_history(restored.spec_chart(), before.spec_chart());
}

/// Interpreting is interpreting within the whole range: `interpret_within` with bounds that
/// start at the first input and reach the last one or beyond gives what `interpret` gives, and
/// likewise `analyze_within` and `analyze`.
pub proof fn law_whole_range<T, M>(chart: Chart<T, M>, bounds: Range<usize>)
    requires
        bounds.start == 0,
        bounds.end >= chart.spec_len(),
    ensures
        interpretations(chart, clamp(bounds.start, chart.spec_len()), clamp(bounds.end, chart.spec_len()))
            == interpretations(chart, 0, chart.spec_len() as int),
        open_reductions_in(
            diagonal_items(chart, clamp(bounds.start, chart.spec_len()), clamp(bounds.end, chart.spec_len())),
        ) == open_reductions_in(diagonal_items(chart, 0, chart.spec_len() as int)),
{
}

/// The reducers whose value has, under the digest function `g`, the digest of `value`, in order.
pub open spec fn with_value_digest<T, M>(reducers: Seq<Reducer<T, M>>, g: spec_fn(T) -> u64, value: T) -> Seq<
    Reducer<T, M>,
> {
    reducers.filter(|x: Reducer<T, M>| g(x.spec_value()) == g(value))
}

/// The reductions whose ruleset `same` relates to `ruleset`, in order.
pub open spec fn with_origin<T, M>(
    reductions: Seq<Reduction<T, M>>,
    same: spec_fn(Ruleset<T, M>, Ruleset<T, M>) -> bool,
    ruleset: Ruleset<T, M>,
) -> Seq<Reduction<T, M>> {
    reductions.filter(|q: Reduction<T, M>| same(q.spec_origin(), ruleset))
}

/// Selecting by digests keeps exactly the items that meet a condition, in order, where the
/// digest of each item equals the target just when the item meets it.
pub proof fn law_selection_by_digest_is_filter<X>(
    items: Seq<X>,
    digests: Seq<u64>,
    target: u64,
    pred: spec_fn(X) -> bool,
)
    requires
        digests.len() == items.len(),
        forall|i: int| 0 <= i < items.len() ==> (digests[i] == target) == pred(#[trigger] items[i]),
    ensures
        select_by_digest(items, digests, target) == items.filter(pred),
    decreases items.len(),
{
    reveal(Seq::filter);
    if items.len() > 0 {
        law_selection_by_digest_is_filter(items.drop_last(), digests.drop_last(), target, pred);
        assert(pred(items[items.len() - 1]) == (digests[items.len() - 1] == target));
    }
}

/// Selecting by flags keeps exactly the items that meet a condition, in order, where the flag of
/// each item is set just when the item meets it.
pub proof fn law_selection_is_filter<X>(items: Seq<X>, keep: Seq<bool>, pred: spec_fn(X) -> bool)
    requires
        keep.len() == items.len(),
        forall|i: int| 0 <= i < items.len() ==> keep[i] == pred(#[trigger] items[i]),
    ensures
        select_where(items, keep) == items.filter(pred),
    decreases items.len(),
{
    reveal(Seq::filter);
    if items.len() > 0 {
        law_selection_is_filter(items.drop_last(), keep.drop_last(), pred);
        assert(pred(items[items.len() - 1]) == keep[items.len() - 1]);
    }
}

/// Picking entries by digest keeps some of the entries, in order: every entry picked is one of
/// them, and no more are picked than there are. So `interpret_as` gives some of what
/// `interpret` gives.
pub proof fn law_selection_by_digest_keeps_entries<X>(items: Seq<X>, digests: Seq<u64>, target: u64)
    requires
        digests.len() == items.len(),
    ensures
        select_by_digest(items, digests, target).len() <= items.len(),
        forall|i: int|
            0 <= i < select_by_digest(items, digests, target).len() ==> items.contains(
                #[trigger] select_by_digest(items, digests, target)[i],
            ),
    decreases items.len(),
{
    if items.len() > 0 {
        law_selection_by_digest_keeps_entries(items.drop_last(), digests.drop_last(), target);
        let rest = select_by_digest(items.drop_last(), digests.drop_last(), target);
        let all = select_by_digest(items, digests, target);
        assert forall|i: int| 0 <= i < all.len() implies items.contains(#[trigger] all[i]) by {
            if i < rest.len() {
                assert(all[i] == rest[i]);
                let j = choose|j: int| 0 <= j < items.drop_last().len() && items.drop_last()[j] == rest[i];
                assert(items[j] == rest[i]);
            } else {
                assert(all[i] == items.last());
                assert(items[items.len() - 1] == items.last());
            }
        }
    }
}

/// Picking entries where a choice holds keeps some of the entries, in order: every entry
/// picked is one of them, and no more are picked than there are. So `analyze_for` gives some of
/// what `analyze` gives.
pub proof fn law_selection_keeps_entries<X>(items: Seq<X>, keep: Seq<bool>)
    requires
        keep.len() == items.len(),
    ensures
        select_where(items, keep).len() <= items.len(),
        forall|i: int|
            0 <= i < select_where(items, keep).len() ==> items.contains(
                #[trigger] select_where(items, keep)[i],
            ),
    decreases items.len(),
{
    if items.len() > 0 {
        law_selection_keeps_entries(items.drop_last(), keep.drop_last());
        let rest = select_where(items.drop_last(), keep.drop_last());
        let all = select_where(items, keep);
        assert forall|i: int| 0 <= i < all.len() implies items.contains(#[trigger] all[i]) by {
            if i < rest.len() {
                assert(all[i] == rest[i]);
                let j = choose|j: int| 0 <= j < items.drop_last().len() && items.drop_last()[j] == rest[i];
                assert(items[j] == rest[i]);
            } else {
                assert(all[i] == items.last());
                assert(items[items.len() - 1] == items.last());
            }
        }
    }
}

} // verus!
