//! The well-formed substring table and the parsing algorithm that fills it.
use crate::grammar::{consequents_width, Consequent, Matcher, Match, Reductum, Rule, Ruleset};
use crate::items::{
    lemma_reducer_range, lemma_reduction_antecedents, Conclusion, Input, Item, Reducer, Reducible,
    Reduction,
};
use crate::derivation::{
    derived, lemma_cell_item_plotted, lemma_derived_drop_last, lemma_derived_grows,
    lemma_parents_plotted_grows, lemma_plotted_by_grows, parents_plotted, plotted_by,
};
use crate::parser::reducers_in;
use std::ops::Range;
use vstd::prelude::*;

verus! {

/// The items among `items` that belong to the cell at row `r` and column `o`, in order.
pub open spec fn items_at<T, M>(items: Seq<Item<T, M>>, r: int, o: int) -> Seq<Item<T, M>>
    decreases items.len(),
{
    if items.len() == 0 {
        Seq::empty()
    } else {
        let rest = items_at(items.drop_last(), r, o);
        if items.last().spec_cursor() == r && items.last().spec_offset() == o {
            rest.push(items.last())
        } else {
            rest
        }
    }
}

/// What the steps recorded in `hist` have plotted into the cell at row `r` and column `o`:
/// the items of each step that belong there, step after step.
pub open spec fn plotted<T, M>(hist: Seq<Seq<Item<T, M>>>, r: int, o: int) -> Seq<Item<T, M>>
    decreases hist.len(),
{
    if hist.len() == 0 {
        Seq::empty()
    } else {
        plotted(hist.drop_last(), r, o) + items_at(hist.last(), r, o)
    }
}

/// Every item of `items` is well formed and lies on a row before `bound`.
pub open spec fn items_below<T, M>(items: Seq<Item<T, M>>, bound: int) -> bool {
    forall|j: int|
        0 <= j < items.len() ==> (#[trigger] items[j]).wf() && items[j].spec_end() <= bound
}

/// The items of `items` that belong to `(r, o)` when no item there lies on row `r`.
proof fn lemma_items_at_other_row<T, M>(items: Seq<Item<T, M>>, r: int, o: int)
    requires
        forall|j: int| 0 <= j < items.len() ==> (#[trigger] items[j]).spec_cursor() != r,
    ensures
        items_at(items, r, o) == Seq::<Item<T, M>>::empty(),
    decreases items.len(),
{
    if items.len() > 0 {
        lemma_items_at_other_row(items.drop_last(), r, o);
    }
}

/// Nothing has been plotted on a row that no recorded step reached.
proof fn lemma_plotted_beyond<T, M>(hist: Seq<Seq<Item<T, M>>>, r: int, o: int)
    requires
        r >= hist.len(),
        forall|k: int| 0 <= k < hist.len() ==> items_below(#[trigger] hist[k], k + 1),
    ensures
        plotted(hist, r, o) == Seq::<Item<T, M>>::empty(),
    decreases hist.len(),
{
    if hist.len() > 0 {
        let last = hist.last();
        assert(items_below(hist[hist.len() - 1], hist.len() as int));
        assert forall|j: int| 0 <= j < last.len() implies (#[trigger] last[j]).spec_cursor() != r by {
            assert(last[j] == hist[hist.len() - 1][j]);
        }
        lemma_items_at_other_row(last, r, o);
        assert forall|k: int| 0 <= k < hist.drop_last().len() implies items_below(
            #[trigger] hist.drop_last()[k],
            k + 1,
        ) by {
            assert(hist.drop_last()[k] == hist[k]);
        }
        lemma_plotted_beyond(hist.drop_last(), r, o);
    }
}

/// Appending an item to the last step appends it to the cell it belongs to.
proof fn lemma_plotted_push<T, M>(hist: Seq<Seq<Item<T, M>>>, x: Item<T, M>, r: int, o: int)
    requires
        hist.len() > 0,
    ensures
        plotted(hist.update(hist.len() - 1, hist.last().push(x)), r, o) == if x.spec_cursor() == r
            && x.spec_offset() == o {
            plotted(hist, r, o).push(x)
        } else {
            plotted(hist, r, o)
        },
{
    let h2 = hist.update(hist.len() - 1, hist.last().push(x));
    assert(h2.drop_last() =~= hist.drop_last());
    assert(h2.last() == hist.last().push(x));
    assert(hist.last().push(x).drop_last() =~= hist.last());
    if x.spec_cursor() == r && x.spec_offset() == o {
        assert(plotted(h2, r, o) =~= plotted(hist, r, o).push(x));
    }
}

/// Recording a new, empty step plots nothing.
proof fn lemma_plotted_new_step<T, M>(hist: Seq<Seq<Item<T, M>>>, r: int, o: int)
    ensures
        plotted(hist.push(Seq::empty()), r, o) == plotted(hist, r, o),
{
    assert(hist.push(Seq::empty()).drop_last() =~= hist);
    assert(plotted(hist.push(Seq::empty()), r, o) =~= plotted(hist, r, o));
}

/// Items that go one after another over the inputs end no earlier than those before them.
proof fn lemma_contiguous_monotone<T, M>(a: Seq<Reducer<T, M>>, i: int, j: int)
    requires
        0 <= i <= j < a.len(),
        forall|k: int| 0 <= k < a.len() ==> (#[trigger] a[k]).spec_start() < a[k].spec_end(),
        forall|k: int| 0 <= k < a.len() - 1 ==> (#[trigger] a[k]).spec_end() == a[k + 1].spec_start(),
    ensures
        a[i].spec_end() <= a[j].spec_end(),
    decreases j - i,
{
    if i < j {
        lemma_contiguous_monotone(a, i, j - 1);
        assert(a[j - 1].spec_end() == a[j].spec_start());
    }
}

/// The consequents of a longer prefix cover no fewer antecedents.
proof fn lemma_width_prefix<T>(s: Seq<Option<Consequent<T>>>, i: int, j: int)
    requires
        0 <= i <= j <= s.len(),
    ensures
        consequents_width(s.take(i)) <= consequents_width(s.take(j)),
    decreases j - i,
{
    if i < j {
        lemma_width_prefix(s, i, j - 1);
        assert(s.take(j).drop_last() =~= s.take(j - 1));
    }
}

/// A well-formed substring table.
///
/// Row `r` holds the items that end right after input `r`; the column of an item tells how many
/// more inputs it covers before that one. The chart also records, step by step, which items each
/// step has plotted, so that a step can be undone.
pub struct Chart<T, M> {
    pub(crate) table: Vec<Vec<Vec<Item<T, M>>>>,
    pub(crate) history: Vec<Vec<Item<T, M>>>,
}

impl<T, M> Chart<T, M> {
    /// The items plotted by each step, in order.
    pub open(crate) spec fn history_view(self) -> Seq<Seq<Item<T, M>>> {
        self.history@.map_values(|v: Vec<Item<T, M>>| v@)
    }

    /// The rows of the table.
    pub open(crate) spec fn spec_table(self) -> Vec<Vec<Vec<Item<T, M>>>> {
        self.table
    }

    /// The items of row `r`, cell after cell.
    pub open(crate) spec fn row_view(self, r: int) -> Seq<Item<T, M>> {
        row_items(self.table@[r]@.map_values(|c: Vec<Item<T, M>>| c@))
    }

    /// The number of rows.
    pub open(crate) spec fn spec_len(self) -> nat {
        self.table@.len()
    }

    /// The contents of the cell at row `r` and column `o`; empty where there is no such cell.
    pub open(crate) spec fn cell_view(self, r: int, o: int) -> Seq<Item<T, M>> {
        if 0 <= r < self.table@.len() && 0 <= o < self.table@[r]@.len() {
            self.table@[r]@[o]@
        } else {
            Seq::empty()
        }
    }

    /// The table is exactly what the recorded steps have plotted, each item in the cell of its
    /// address; each step has plotted only well-formed items on its own row or on earlier ones.
    pub open(crate) spec fn consistent(self) -> bool {
        &&& self.table@.len() == self.history@.len()
        &&& forall|r: int| 0 <= r < self.table@.len() ==> #[trigger] self.table@[r]@.len() <= r + 1
        &&& forall|k: int|
            0 <= k < self.history@.len() ==> items_below(#[trigger] self.history@[k]@, k + 1)
        &&& forall|r: int, o: int| #[trigger] self.cell_view(r, o) == plotted(self.history_view(), r, o)
        &&& forall|r: int, o: int, i: int|
            0 <= r < self.table@.len() && 0 <= o < self.table@[r]@.len() && 0 <= i
                < self.table@[r]@[o]@.len() ==> {
                let x = #[trigger] self.table@[r]@[o]@[i];
                &&& x.wf()
                &&& x.spec_cursor() == r
                &&& x.spec_offset() == o
            }
    }

    /// A consistent chart whose every step began by plotting its input at the first cell of its
    /// own row, and whose every item was plotted by the step that plotted the items it was
    /// derived from, or by a later one.
    pub open(crate) spec fn wf(self) -> bool {
        &&& self.consistent()
        &&& derived(self.history_view())
        &&& forall|k: int|
            0 <= k < self.history@.len() ==> {
                &&& (#[trigger] self.history@[k])@.len() >= 1
                &&& self.history@[k]@[0] matches Item::Reducer(Reducer::Input(i))
                &&& i.spec_cursor() == k
            }
    }

    /// `self` is `old` with more items plotted by its last step, and nothing else changed.
    pub open(crate) spec fn extends(self, old: Self) -> bool {
        &&& self.table@.len() == old.table@.len()
        &&& self.history@.len() == old.history@.len()
        &&& forall|k: int|
            0 <= k < self.history@.len() - 1 ==> (#[trigger] self.history@[k])@ == old.history@[k]@
        &&& self.history@.len() > 0 ==> {
            let n = self.history@.len() - 1;
            &&& old.history@[n]@.len() <= self.history@[n]@.len()
            &&& forall|j: int|
                0 <= j < old.history@[n]@.len() ==> #[trigger] self.history@[n]@[j]
                    == old.history@[n]@[j]
        }
    }

    /// `x` was plotted by one of the recorded steps.
    pub open(crate) spec fn has_plotted(self, x: Item<T, M>) -> bool {
        plotted_by(self.history_view(), self.history@.len() - 1, x)
    }

    /// The items `x` was derived from were plotted by the recorded steps.
    pub open(crate) spec fn has_parents_of(self, x: Item<T, M>) -> bool {
        parents_plotted(self.history_view(), self.history@.len() - 1, x)
    }

    /// The parents of a prospective reduction were plotted: the reducer and, when the reducible
    /// is a reduction, that reduction.
    pub open(crate) spec fn has_pair(self, p: (Reducible<T, M>, Reducer<T, M>)) -> bool {
        &&& self.has_plotted(Item::Reducer(p.1))
        &&& p.0 matches Reducible::Reduction(q) ==> self.has_plotted(Item::Reduction(q))
    }

    /// `x` was plotted by the last step.
    pub open(crate) spec fn in_last_step(self, x: Item<T, M>) -> bool {
        &&& self.history@.len() > 0
        &&& exists|j: int| 0 <= j < self.history@.last()@.len() && #[trigger] self.history@.last()@[j] == x
    }

    /// A conclusion of the reduction for its `index`-th consequent, covering the antecedents
    /// that consequent covers, was plotted by the last step.
    pub open(crate) spec fn has_conclusion(self, reduction: Reduction<T, M>, index: int) -> bool {
        let cs = reduction.spec_reductum()->Consequence_0.spec_consequents();
        exists|c: Conclusion<T, M>|
            #[trigger] self.in_last_step(Item::Reducer(Reducer::Conclusion(c)))
                && c.spec_reduction() == reduction && c.spec_index() == index
                && c.spec_antecedents() == reduction.spec_antecedents().subrange(
                consequents_width(cs.take(index)) as int,
                consequents_width(cs.take(index + 1)) as int,
            )
    }

    /// A reduction of the given reducible, reducer and reductum was plotted by the last step.
    pub open(crate) spec fn has_reduction(self, t: (Reducible<T, M>, Reducer<T, M>, Reductum<T, M>)) -> bool {
        exists|x: Reduction<T, M>|
            #[trigger] self.in_last_step(Item::Reduction(x)) && x.spec_reducible() == t.0
                && x.spec_reducer() == t.1 && x.spec_reductum() == t.2
    }

    /// With one trial for each pair of parents, the reduction of each pair whose trial hit was
    /// plotted.
    pub open(crate) spec fn has_hits(
        self,
        parents: Seq<(Reducible<T, M>, Reducer<T, M>)>,
        trials: Seq<Match<T, M>>,
    ) -> bool {
        &&& trials.len() == parents.len()
        &&& forall|k: int|
            0 <= k < hits(parents, trials).len() ==> self.has_reduction(#[trigger] hits(parents, trials)[k])
    }

    /// Creates an empty chart.
    pub fn new() -> (r: Self)
        ensures
            r.wf(),
            r.spec_len() == 0,
            r.history_view() == Seq::<Seq<Item<T, M>>>::empty(),
    {
        let r = Chart { table: Vec::new(), history: Vec::new() };
        assert(r.history_view() =~= Seq::<Seq<Item<T, M>>>::empty());
        assert forall|x: int, o: int| #[trigger] r.cell_view(x, o) == plotted(r.history_view(), x, o) by {}
        r
    }

    /// Returns the number of rows in the chart.
    pub fn len(&self) -> (r: usize)
        ensures
            r == self.spec_len(),
    {
        self.table.len()
    }

    /// Returns whether the chart is empty.
    pub fn is_empty(&self) -> (r: bool)
        ensures
            r == (self.spec_len() == 0),
    {
        self.table.len() == 0
    }

    /// Returns a reference to the table.
    pub fn rows(&self) -> (r: &Vec<Vec<Vec<Item<T, M>>>>)
        ensures
            *r == self.spec_table(),
    {
        &self.table
    }

    /// Returns a reference to the row.
    pub fn row(&self, cursor: usize) -> (r: Option<&Vec<Vec<Item<T, M>>>>)
        ensures
            cursor < self.spec_len() ==> r == Some(&self.spec_table()@[cursor as int]),
            cursor >= self.spec_len() ==> r is None,
    {
        if cursor < self.table.len() {
            Some(&self.table[cursor])
        } else {
            None
        }
    }

    /// Returns a reference to the cell.
    pub fn cell(&self, cursor: usize, offset: usize) -> (r: Option<&Vec<Item<T, M>>>)
        ensures
            (cursor < self.spec_len() && offset < self.spec_table()@[cursor as int]@.len()) ==> r
                == Some(&self.spec_table()@[cursor as int]@[offset as int]),
            !(cursor < self.spec_len() && offset < self.spec_table()@[cursor as int]@.len()) ==> r
                is None,
    {
        if cursor < self.table.len() && offset < self.table[cursor].len() {
            Some(&self.table[cursor][offset])
        } else {
            None
        }
    }

    /// Enumerates items on the row at the cursor.
    pub fn items_horizontally_on(&self, cursor: usize) -> (r: Vec<Item<T, M>>)
        ensures
            cursor < self.spec_len() ==> r@ == self.row_view(cursor as int),
            cursor >= self.spec_len() ==> r@ == Seq::<Item<T, M>>::empty(),
    {
        let mut r: Vec<Item<T, M>> = Vec::new();
        if cursor < self.table.len() {
            let row = &self.table[cursor];
            let ghost cells = row@.map_values(|c: Vec<Item<T, M>>| c@);
            let mut o: usize = 0;
            while o < row.len()
                invariant
                    cells == row@.map_values(|c: Vec<Item<T, M>>| c@),
                    o <= row@.len(),
                    r@ == row_items(cells.subrange(0, o as int)),
                decreases row@.len() - o,
            {
                let cell = &row[o];
                let mut i: usize = 0;
                let ghost before = r@;
                while i < cell.len()
                    invariant
                        i <= cell@.len(),
                        r@ == before + cell@.subrange(0, i as int),
                    decreases cell@.len() - i,
                {
                    r.push(cell[i].clone());
                    i = i + 1;
                    assert(r@ =~= before + cell@.subrange(0, i as int));
                }
                assert(cell@.subrange(0, i as int) =~= cell@);
                assert(cells.subrange(0, o + 1).drop_last() =~= cells.subrange(0, o as int));
                o = o + 1;
            }
            assert(cells.subrange(0, o as int) =~= cells);
        }
        r
    }

    /// Enumerates items diagonally, from the first cell of the row at the start of the range up
    /// to the row at the end of the range: the cell `(range.start + k, k)` for each `k`.
    pub fn items_diagonally_within(&self, bounds: Range<usize>) -> (r: Vec<Item<T, M>>)
        ensures
            r@ == diagonal_items(*self, clamp(bounds.start, self.spec_len()), clamp(bounds.end, self.spec_len())),
    {
        let len = self.table.len();
        let start = if bounds.start < len { bounds.start } else { len };
        let end = if bounds.end < len { bounds.end } else { len };
        let mut r: Vec<Item<T, M>> = Vec::new();
        let mut cursor = start;
        while cursor < end
            invariant
                end <= len == self.spec_len(),
                start <= len,
                start == clamp(bounds.start, self.spec_len()),
                end == clamp(bounds.end, self.spec_len()),
                start <= cursor,
                cursor <= end || cursor == start,
                r@ == diagonal_items(*self, start as int, cursor as int),
            decreases end - cursor,
        {
            let offset = cursor - start;
            let ghost before = r@;
            if offset < self.table[cursor].len() {
                let cell = &self.table[cursor][offset];
                let mut i: usize = 0;
                while i < cell.len()
                    invariant
                        i <= cell@.len(),
                        r@ == before + cell@.subrange(0, i as int),
                    decreases cell@.len() - i,
                {
                    r.push(cell[i].clone());
                    i = i + 1;
                    assert(r@ =~= before + cell@.subrange(0, i as int));
                }
                assert(cell@.subrange(0, i as int) =~= cell@);
            }
            assert(r@ =~= diagonal_items(*self, start as int, cursor + 1));
            cursor = cursor + 1;
        }
        r
    }
}

/// The reducible and the reducer of a prospective reduction fit together: the reducer is well
/// formed, and the reducible is a rule of its ruleset or a well-formed reduction ending with a
/// subrule right where the reducer starts.
pub open(crate) spec fn pair_ok<T, M>(p: (Reducible<T, M>, Reducer<T, M>)) -> bool {
    &&& p.1.wf()
    &&& match p.0 {
        Reducible::Rule(rule) => rule.wf(),
        Reducible::Reduction(red) => {
            &&& red.wf()
            &&& red.spec_reductum() is Subrule
            &&& red.spec_end() == p.1.spec_start()
        },
    }
}

/// A well-formed item covers a non-empty range of inputs that fits in `usize`.
proof fn lemma_item_range<T, M>(x: Item<T, M>)
    requires
        x.wf(),
    ensures
        0 <= x.spec_start() < x.spec_end() <= usize::MAX,
        0 <= x.spec_offset() <= x.spec_cursor(),
{
    match x {
        Item::Reducer(r) => lemma_reducer_range(r),
        Item::Reduction(r) => {
            lemma_reduction_antecedents(r);
            lemma_reducer_range(r.spec_antecedents()[0]);
            lemma_reducer_range(r.spec_reducer());
        },
    }
}

/// Nothing has been plotted on a row that no recorded step reached, nor on a negative one.
proof fn lemma_plotted_outside<T, M>(hist: Seq<Seq<Item<T, M>>>, r: int, o: int)
    requires
        r >= hist.len() || r < 0,
        forall|k: int| 0 <= k < hist.len() ==> items_below(#[trigger] hist[k], k + 1),
    ensures
        plotted(hist, r, o) == Seq::<Item<T, M>>::empty(),
    decreases hist.len(),
{
    if hist.len() > 0 {
        let last = hist.last();
        assert(items_below(hist[hist.len() - 1], hist.len() as int));
        assert forall|j: int| 0 <= j < last.len() implies (#[trigger] last[j]).spec_cursor() != r by {
            assert(last[j] == hist[hist.len() - 1][j]);
            lemma_item_range(last[j]);
        }
        lemma_items_at_other_row(last, r, o);
        assert forall|k: int| 0 <= k < hist.drop_last().len() implies items_below(
            #[trigger] hist.drop_last()[k],
            k + 1,
        ) by {
            assert(hist.drop_last()[k] == hist[k]);
        }
        lemma_plotted_outside(hist.drop_last(), r, o);
    }
}

/// Whether `origin` is one of the rulesets of `grammar`: the same ruleset, as told by `is`.
fn in_grammar<T, M>(origin: &Ruleset<T, M>, grammar: &[&Ruleset<T, M>]) -> (r: bool)
    ensures
        r ==> exists|g: int| 0 <= g < grammar@.len() && *grammar@[g] == *origin,
{
    let same = |a: &Ruleset<T, M>, b: &Ruleset<T, M>| -> (k: bool)
        ensures
            k ==> *a == *b,
        { a.is(b) };
    let r = in_grammar_by(origin, grammar, &same);
    proof {
        if r {
            let g = choose|g: int| 0 <= g < grammar@.len() && #[trigger] same.ensures((grammar@[g], origin), true);
            assert(*grammar@[g] == *origin);
        }
    }
    r
}

/// Whether `same` tells `origin` to be one of the rulesets of `grammar`, at any position: true
/// exactly when one of its answers on the grammar's rulesets is.
pub fn in_grammar_by<T, M, F: Fn(&Ruleset<T, M>, &Ruleset<T, M>) -> bool>(
    origin: &Ruleset<T, M>,
    grammar: &[&Ruleset<T, M>],
    same: &F,
) -> (r: bool)
    requires
        forall|a: &Ruleset<T, M>, b: &Ruleset<T, M>| #[trigger] same.requires((a, b)),
    ensures
        r ==> exists|g: int| 0 <= g < grammar@.len() && #[trigger] same.ensures((grammar@[g], origin), true),
        !r ==> forall|g: int| 0 <= g < grammar@.len() ==> #[trigger] same.ensures((grammar@[g], origin), false),
        forall|s: spec_fn(Ruleset<T, M>, Ruleset<T, M>) -> bool|
            (forall|a: &Ruleset<T, M>, b: &Ruleset<T, M>, k: bool|
                #[trigger] same.ensures((a, b), k) ==> k == s(*a, *b)) ==> (r == #[trigger] in_grammar_under(
                grammar@,
                s,
                *origin,
            )),
{
    let mut g: usize = 0;
    while g < grammar.len()
        invariant
            g <= grammar@.len(),
            forall|a: &Ruleset<T, M>, b: &Ruleset<T, M>| #[trigger] same.requires((a, b)),
            forall|h: int| 0 <= h < g ==> #[trigger] same.ensures((grammar@[h], origin), false),
        decreases grammar@.len() - g,
    {
        let k = same(grammar[g], origin);
        if k {
            proof {
                assert forall|s: spec_fn(Ruleset<T, M>, Ruleset<T, M>) -> bool|
                    (forall|a: &Ruleset<T, M>, b: &Ruleset<T, M>, k: bool|
                        #[trigger] same.ensures((a, b), k) ==> k == s(*a, *b)) implies #[trigger] in_grammar_under(
                    grammar@,
                    s,
                    *origin,
                ) by {
                    assert(same.ensures((grammar@[g as int], origin), true));
                    assert(s(*grammar@[g as int], *origin));
                }
            }
            return true;
        }
        g = g + 1;
    }
    proof {
        assert forall|s: spec_fn(Ruleset<T, M>, Ruleset<T, M>) -> bool|
            (forall|a: &Ruleset<T, M>, b: &Ruleset<T, M>, k: bool|
                #[trigger] same.ensures((a, b), k) ==> k == s(*a, *b)) implies !#[trigger] in_grammar_under(
            grammar@,
            s,
            *origin,
        ) by {
            assert forall|h: int| 0 <= h < grammar@.len() implies !s(*grammar@[h], *origin) by {
                assert(same.ensures((grammar@[h], origin), false));
            }
        }
    }
    false
}

/// Whether `same` relates some ruleset of the grammar, at any position, to `origin`.
pub open spec fn in_grammar_under<T, M>(
    grammar: Seq<&Ruleset<T, M>>,
    same: spec_fn(Ruleset<T, M>, Ruleset<T, M>) -> bool,
    origin: Ruleset<T, M>,
) -> bool {
    exists|g: int| 0 <= g < grammar.len() && same(*grammar[g], origin)
}

impl<T, M> Chart<T, M> {
    /// Makes sure the row at `cursor` has a cell at `offset`, adding empty cells as needed.
    fn ensure_cell(&mut self, cursor: usize, offset: usize)
        requires
            old(self).consistent(),
            cursor < old(self).table@.len(),
            offset <= cursor,
        ensures
            final(self).consistent(),
            final(self).history == old(self).history,
            final(self).table@.len() == old(self).table@.len(),
            offset < final(self).table@[cursor as int]@.len(),
            forall|r: int, o: int| #[trigger] final(self).cell_view(r, o) == old(self).cell_view(r, o),
    {
        let ghost old_table = self.table@;
        let ghost old_len = self.table@[cursor as int]@.len();
        if self.table[cursor].len() > offset {
            return;
        }
        while self.table[cursor].len() <= offset
            invariant
                self.history == old(self).history,
                self.table@.len() == old_table.len(),
                cursor < old_table.len(),
                offset <= cursor,
                old_len <= self.table@[cursor as int]@.len() <= offset + 1,
                old_len == old_table[cursor as int]@.len(),
                forall|r: int| 0 <= r < old_table.len() && r != cursor ==> #[trigger] self.table@[r] == old_table[r],
                forall|o: int| 0 <= o < old_len ==> #[trigger] self.table@[cursor as int]@[o] == old_table[cursor as int]@[o],
                forall|o: int| old_len <= o < self.table@[cursor as int]@.len() ==> (#[trigger] self.table@[cursor as int]@[o])@.len() == 0,
            decreases offset + 1 - self.table@[cursor as int]@.len(),
        {
            self.table[cursor].push(Vec::new());
        }
        assert forall|r: int, o: int| #[trigger] self.cell_view(r, o) == old(self).cell_view(r, o) by {
            if r == cursor && 0 <= o < self.table@[cursor as int]@.len() {
                if o >= old_len {
                    assert(self.cell_view(r, o) =~= Seq::<Item<T, M>>::empty());
                }
            }
        }
    }

    /// Plots an item into the chart, recording it as plotted by the last step.
    fn plot(&mut self, item: Item<T, M>)
        requires
            old(self).consistent(),
            old(self).history@.len() > 0,
            item.wf(),
            item.spec_end() <= old(self).table@.len(),
            derived(old(self).history_view()),
            old(self).has_parents_of(item),
        ensures
            final(self).consistent(),
            derived(final(self).history_view()),
            final(self).has_plotted(item),
            final(self).table@.len() == old(self).table@.len(),
            final(self).history@.len() == old(self).history@.len(),
            forall|k: int|
                0 <= k < final(self).history@.len() - 1 ==> (#[trigger] final(self).history@[k]) == old(self).history@[k],
            final(self).history@.last()@ == old(self).history@.last()@.push(item),
    {
        proof {
            lemma_item_range(item);
        }
        let (cursor, offset) = item.address();
        self.ensure_cell(cursor, offset);
        let ghost mid = *self;
        let ghost hv = self.history_view();
        self.table[cursor][offset].push(item.clone());
        let last = self.history.len() - 1;
        self.history[last].push(item);
        proof {
            assert(self.history_view() =~= hv.update(last as int, hv.last().push(item)));
            let nv = self.history_view();
            assert forall|k: int| 0 <= k < hv.len() implies hv[k].len() <= nv[k].len() && forall|j: int|
                0 <= j < hv[k].len() ==> #[trigger] nv[k][j] == hv[k][j] by {
                if k == last {
                    assert forall|j: int| 0 <= j < hv[k].len() implies #[trigger] nv[k][j] == hv[k][j] by {
                        assert(nv[k] == hv[k].push(item));
                    }
                }
            }
            assert(nv[last as int][hv[last as int].len() as int] == item);
            lemma_parents_plotted_grows(hv, nv, last as int, item);
            assert forall|k: int, j: int|
                0 <= k < nv.len() && 0 <= j < nv[k].len() && !(k < hv.len() && j < hv[k].len())
                    implies parents_plotted(nv, k, #[trigger] nv[k][j]) by {
                assert(k == last && j == hv[k].len());
            }
            lemma_derived_grows(hv, nv);
            assert forall|r: int, o: int| #[trigger]
                self.cell_view(r, o) == plotted(self.history_view(), r, o) by {
                lemma_plotted_push(hv, item, r, o);
                if r == cursor && o == offset {
                    assert(self.cell_view(r, o) =~= mid.cell_view(r, o).push(item));
                } else {
                    assert(self.cell_view(r, o) == mid.cell_view(r, o));
                }
            }
            assert forall|k: int| 0 <= k < self.history@.len() implies items_below(
                #[trigger] self.history@[k]@,
                k + 1,
            ) by {
                if k == last {
                    assert forall|j: int| 0 <= j < self.history@[k]@.len() implies (
                    #[trigger] self.history@[k]@[j]).wf() && self.history@[k]@[j].spec_end() <= k + 1 by {
                        if j < mid.history@[k]@.len() {
                            assert(self.history@[k]@[j] == mid.history@[k]@[j]);
                            assert(items_below(mid.history@[k]@, k + 1));
                        }
                    }
                } else {
                    assert(self.history@[k] == mid.history@[k]);
                    assert(items_below(mid.history@[k]@, k + 1));
                }
            }
            assert forall|r: int, o: int, i: int|
                0 <= r < self.table@.len() && 0 <= o < self.table@[r]@.len() && 0 <= i
                    < self.table@[r]@[o]@.len() implies {
                let x = #[trigger] self.table@[r]@[o]@[i];
                &&& x.wf()
                &&& x.spec_cursor() == r
                &&& x.spec_offset() == o
            } by {
                if r == cursor && o == offset && i < mid.table@[r]@[o]@.len() {
                    assert(self.table@[r]@[o]@[i] == mid.table@[r]@[o]@[i]);
                } else if r != cursor || o != offset {
                    assert(self.table@[r]@[o] == mid.table@[r]@[o]);
                }
            }
            assert forall|r: int| 0 <= r < self.table@.len() implies #[trigger] self.table@[r]@.len()
                <= r + 1 by {
                assert(self.table@[r]@.len() == mid.table@[r]@.len());
            }
        }
    }

    /// Removes the empty cells at the end of the row at the cursor.
    fn shrink_to_fit(&mut self, cursor: usize)
        requires
            old(self).consistent(),
        ensures
            final(self).consistent(),
            final(self).history == old(self).history,
            final(self).table@.len() == old(self).table@.len(),
            forall|r: int, o: int| #[trigger] final(self).cell_view(r, o) == old(self).cell_view(r, o),
            forall|r: int|
                0 <= r < old(self).table@.len() && r != cursor ==> #[trigger] final(self).table@[r]
                    == old(self).table@[r],
            cursor < old(self).table@.len() ==> {
                let row = final(self).table@[cursor as int]@;
                &&& row.len() <= old(self).table@[cursor as int]@.len()
                &&& forall|o: int| 0 <= o < row.len() ==> #[trigger] row[o] == old(self).table@[cursor as int]@[o]
                &&& (row.len() == 0 || row.last()@.len() > 0)
            },
    {
        if cursor < self.table.len() {
            let ghost old_table = self.table@;
            while self.table[cursor].len() > 0 && self.table[cursor][self.table[cursor].len() - 1].len() == 0
                invariant
                    self.history == old(self).history,
                    self.table@.len() == old_table.len(),
                    cursor < old_table.len(),
                    self.table@[cursor as int]@.len() <= old_table[cursor as int]@.len(),
                    forall|r: int| 0 <= r < old_table.len() && r != cursor ==> #[trigger] self.table@[r] == old_table[r],
                    forall|o: int| 0 <= o < self.table@[cursor as int]@.len() ==> #[trigger] self.table@[cursor as int]@[o] == old_table[cursor as int]@[o],
                    forall|o: int| self.table@[cursor as int]@.len() <= o < old_table[cursor as int]@.len() ==> (#[trigger] old_table[cursor as int]@[o])@.len() == 0,
                decreases self.table@[cursor as int]@.len(),
            {
                self.table[cursor].pop();
            }
            assert forall|r: int, o: int| #[trigger] self.cell_view(r, o) == old(self).cell_view(r, o) by {
                if r == cursor && self.table@[cursor as int]@.len() <= o < old_table[cursor as int]@.len() {
                    assert(old(self).cell_view(r, o) =~= Seq::<Item<T, M>>::empty());
                }
            }
        }
    }

    /// Pairs each rule of the grammar with the reducer.
    fn reduce_from_grammar(&self, reducer: &Reducer<T, M>, grammar: &[&Ruleset<T, M>]) -> (r: Vec<
        (Reducible<T, M>, Reducer<T, M>),
    >)
        requires
            reducer.wf(),
        ensures
            r@ == rules_paired_with(grammar_rules(grammar@), *reducer),
            forall|i: int| 0 <= i < r@.len() ==> pair_ok(#[trigger] r@[i]) && r@[i].1 == *reducer,
            forall|i: int| 0 <= i < r@.len() ==> (#[trigger] r@[i]).0 is Rule,
    {
        let mut r: Vec<(Reducible<T, M>, Reducer<T, M>)> = Vec::new();
        let mut g: usize = 0;
        while g < grammar.len()
            invariant
                g <= grammar@.len(),
                reducer.wf(),
                r@ == rules_paired_with(grammar_rules(grammar@.subrange(0, g as int)), *reducer),
                forall|i: int| 0 <= i < r@.len() ==> pair_ok(#[trigger] r@[i]) && r@[i].1 == *reducer,
                forall|i: int| 0 <= i < r@.len() ==> (#[trigger] r@[i]).0 is Rule,
            decreases grammar@.len() - g,
        {
            let rules = grammar[g].rules();
            let ghost before = grammar_rules(grammar@.subrange(0, g as int));
            let ghost mine = rules_of(*grammar@[g as int]);
            proof {
                assert(grammar@.subrange(0, g + 1).drop_last() =~= grammar@.subrange(0, g as int));
                assert(rules@ =~= mine) by {
                    assert forall|i: int| 0 <= i < rules@.len() implies rules@[i] == mine[i] by {
                        assert(rules@[i].spec_ruleset() == *grammar@[g as int]);
                    }
                }
            }
            let mut k: usize = 0;
            while k < rules.len()
                invariant
                    k <= rules@.len(),
                    reducer.wf(),
                    rules@ == mine,
                    forall|i: int| 0 <= i < rules@.len() ==> (#[trigger] rules@[i]).wf(),
                    r@ == rules_paired_with(before + mine.subrange(0, k as int), *reducer),
                    forall|i: int| 0 <= i < r@.len() ==> pair_ok(#[trigger] r@[i]) && r@[i].1 == *reducer,
                    forall|i: int| 0 <= i < r@.len() ==> (#[trigger] r@[i]).0 is Rule,
                decreases rules@.len() - k,
            {
                r.push((Reducible::Rule(rules[k].clone()), reducer.clone()));
                k = k + 1;
                assert(r@ =~= rules_paired_with(before + mine.subrange(0, k as int), *reducer));
            }
            assert(before + mine.subrange(0, k as int) =~= grammar_rules(grammar@.subrange(0, g + 1)));
            g = g + 1;
        }
        assert(grammar@.subrange(0, g as int) =~= grammar@);
        r
    }

    /// Pairs the reducer with each reduction of the grammar that ends right where the reducer
    /// starts and is still expecting more.
    fn reduce_from_chart<F: Fn(&Ruleset<T, M>, &Ruleset<T, M>) -> bool>(
        &self,
        reducer: &Reducer<T, M>,
        grammar: &[&Ruleset<T, M>],
        same: &F,
    ) -> (r: Vec<(Reducible<T, M>, Reducer<T, M>)>)
        requires
            self.consistent(),
            reducer.wf(),
            self.has_plotted(Item::Reducer(*reducer)),
            forall|a: &Ruleset<T, M>, b: &Ruleset<T, M>| #[trigger] same.requires((a, b)),
            tells_only_equal(*same),
        ensures
            forall|i: int| 0 <= i < r@.len() ==> pair_ok(#[trigger] r@[i]) && r@[i].1 == *reducer,
            forall|i: int| 0 <= i < r@.len() ==> self.has_pair(#[trigger] r@[i]),
            reducer.spec_start() == 0 || reducer.spec_start() > self.spec_len() ==> r@.len() == 0,
            0 < reducer.spec_start() <= self.spec_len() ==> exists|keep: Seq<bool>|
                kept_open_in(self.row_view(reducer.spec_start() - 1), keep, grammar@)
                    && flags_by(self.row_view(reducer.spec_start() - 1), keep, grammar@, *same)
                    && #[trigger] kept_pairs(self.row_view(reducer.spec_start() - 1), keep, *reducer)
                    == r@,
    {
        let start = reducer.start();
        if start == 0 || start - 1 >= self.table.len() {
            return Vec::new();
        }
        let cursor = start - 1;
        let row = &self.table[cursor];
        let ghost cells = self.table@[cursor as int]@.map_values(|c: Vec<Item<T, M>>| c@);
        let mut items: Vec<Item<T, M>> = Vec::new();
        let mut keep: Vec<bool> = Vec::new();
        let mut o: usize = 0;
        proof {
            assert(cells.take(0) =~= Seq::<Seq<Item<T, M>>>::empty());
        }
        while o < row.len()
            invariant
                self.consistent(),
                reducer.wf(),
                cursor < self.table@.len(),
                cursor == reducer.spec_start() - 1,
                *row == self.table@[cursor as int],
                cells == self.table@[cursor as int]@.map_values(|c: Vec<Item<T, M>>| c@),
                o <= row@.len(),
                items@ == row_items(cells.take(o as int)),
                keep@.len() == items@.len(),
                kept_open_in(items@, keep@, grammar@),
                flags_by(items@, keep@, grammar@, *same),
                forall|a: &Ruleset<T, M>, b: &Ruleset<T, M>| #[trigger] same.requires((a, b)),
                tells_only_equal(*same),
                forall|k: int|
                    0 <= k < keep@.len() && #[trigger] keep@[k] ==> (items@[k] matches Item::Reduction(q)
                        && self.has_plotted(Item::Reduction(q)) && q.wf() && q.spec_end() == reducer.spec_start()),
            decreases row@.len() - o,
        {
            let cell = &row[o];
            let ghost done = items@;
            let mut i: usize = 0;
            proof {
                assert(done + cell@.take(0) =~= done);
            }
            while i < cell.len()
                invariant
                    self.consistent(),
                    reducer.wf(),
                    cursor < self.table@.len(),
                    cursor == reducer.spec_start() - 1,
                    *row == self.table@[cursor as int],
                    o < row@.len(),
                    *cell == row@[o as int],
                    i <= cell@.len(),
                    items@ == done + cell@.take(i as int),
                    keep@.len() == items@.len(),
                    kept_open_in(items@, keep@, grammar@),
                    flags_by(items@, keep@, grammar@, *same),
                    forall|a: &Ruleset<T, M>, b: &Ruleset<T, M>| #[trigger] same.requires((a, b)),
                    tells_only_equal(*same),
                    forall|k: int|
                        0 <= k < keep@.len() && #[trigger] keep@[k] ==> (items@[k] matches Item::Reduction(q)
                            && self.has_plotted(Item::Reduction(q)) && q.wf() && q.spec_end() == reducer.spec_start()),
                decreases cell@.len() - i,
            {
                let ghost before_items = items@;
                let ghost before_keep = keep@;
                let flag = match &cell[i] {
                    Item::Reduction(red) => {
                        let f = in_grammar_by(red.origin(), grammar, same) && red.reductum().is_subrule();
                        if f {
                            proof {
                                let x = self.table@[cursor as int]@[o as int]@[i as int];
                                assert(x.wf() && x.spec_cursor() == cursor);
                                assert(self.cell_view(cursor as int, o as int)[i as int] == x);
                                lemma_cell_item_plotted(*self, cursor as int, o as int, i as int);
                            }
                        }
                        f
                    },
                    _ => false,
                };
                items.push(cell[i].clone());
                keep.push(flag);
                proof {
                    assert(done + cell@.take(i + 1) =~= before_items.push(cell@[i as int]));
                    assert forall|k: int| 0 <= k < keep@.len() && #[trigger] keep@[k] implies open_in(items@[k], grammar@) by {
                        if k < before_keep.len() {
                            assert(keep@[k] == before_keep[k]);
                            assert(items@[k] == before_items[k]);
                        } else {
                            if let Item::Reduction(q) = items@[k] {
                                let g = choose|g: int| 0 <= g < grammar@.len() && #[trigger] same.ensures((grammar@[g], &q.spec_origin()), true);
                                assert(*grammar@[g] == q.spec_origin());
                            }
                        }
                    }
                    assert forall|k: int| 0 <= k < items@.len() implies #[trigger] flag_by(items@[k], keep@[k], grammar@, *same) by {
                        if k < before_keep.len() {
                            assert(keep@[k] == before_keep[k]);
                            assert(items@[k] == before_items[k]);
                        }
                    }
                    assert forall|k: int|
                        0 <= k < keep@.len() && #[trigger] keep@[k] implies (items@[k] matches Item::Reduction(q)
                            && self.has_plotted(Item::Reduction(q)) && q.wf() && q.spec_end() == reducer.spec_start()) by {
                        if k < before_keep.len() {
                            assert(keep@[k] == before_keep[k]);
                            assert(items@[k] == before_items[k]);
                        }
                    }
                }
                i = i + 1;
            }
            proof {
                assert(cell@.take(i as int) =~= cell@);
                let next = cells.take(o + 1);
                assert(next.drop_last() =~= cells.take(o as int));
                assert(next.last() == cell@);
            }
            o = o + 1;
        }
        proof {
            assert(cells.take(o as int) =~= cells);
            assert(self.row_view(cursor as int) == row_items(cells));
        }
        let r = pair_flagged(&items, &keep, reducer);
        assert(flags_by(self.row_view(reducer.spec_start() - 1), keep@, grammar@, *same));
        proof {
            assert forall|i: int| 0 <= i < r@.len() implies pair_ok(#[trigger] r@[i]) && r@[i].1 == *reducer
                && self.has_pair(r@[i]) by {
                lemma_kept_pairs_member(items@, keep@, *reducer, i);
            }
        }
        r
    }

    /// Enumerates the reducers that start right where the reduction ends: those on the cells
    /// going diagonally from the first cell of the next row towards the bottom right.
    fn reducers_for(&self, reduction: &Reduction<T, M>) -> (r: Vec<Reducer<T, M>>)
        requires
            self.consistent(),
            reduction.wf(),
        ensures
            r@ == reducers_in(diagonal_items(*self, reduction.spec_end(), self.spec_len() as int)),
            forall|i: int|
                0 <= i < r@.len() ==> (#[trigger] r@[i]).wf() && r@[i].spec_start()
                    == reduction.spec_end() && r@[i].spec_end() <= self.table@.len(),
            forall|i: int| 0 <= i < r@.len() ==> self.has_plotted(Item::Reducer(#[trigger] r@[i])),
    {
        let begin = reduction.end();
        let mut r: Vec<Reducer<T, M>> = Vec::new();
        let mut row = begin;
        while row < self.table.len()
            invariant
                self.consistent(),
                begin == reduction.spec_end(),
                begin <= row,
                row <= self.table@.len() || row == begin,
                r@ == reducers_in(diagonal_items(*self, begin as int, row as int)),
                forall|i: int|
                    0 <= i < r@.len() ==> (#[trigger] r@[i]).wf() && r@[i].spec_start() == begin
                        && r@[i].spec_end() <= self.table@.len(),
                forall|i: int| 0 <= i < r@.len() ==> self.has_plotted(Item::Reducer(#[trigger] r@[i])),
            decreases self.table@.len() - row,
        {
            let offset = row - begin;
            let ghost before = r@;
            let ghost cellv = self.cell_view(row as int, offset as int);
            if offset < self.table[row].len() {
                let cell = &self.table[row][offset];
                let mut i: usize = 0;
                while i < cell.len()
                    invariant
                        self.consistent(),
                        begin == reduction.spec_end(),
                        begin <= row < self.table@.len(),
                        offset == row - begin,
                        offset < self.table@[row as int]@.len(),
                        *cell == self.table@[row as int]@[offset as int],
                        cellv == cell@,
                        i <= cell@.len(),
                        r@ == before + reducers_in(cell@.subrange(0, i as int)),
                        forall|j: int|
                            0 <= j < r@.len() ==> (#[trigger] r@[j]).wf() && r@[j].spec_start() == begin
                                && r@[j].spec_end() <= self.table@.len(),
                        forall|j: int| 0 <= j < r@.len() ==> self.has_plotted(Item::Reducer(#[trigger] r@[j])),
                    decreases cell@.len() - i,
                {
                    proof {
                        assert(cell@.subrange(0, i + 1).drop_last() =~= cell@.subrange(0, i as int));
                    }
                    match &cell[i] {
                        Item::Reducer(x) => {
                            proof {
                                let y = self.table@[row as int]@[offset as int]@[i as int];
                                assert(y.wf() && y.spec_cursor() == row && y.spec_offset() == offset);
                                assert(self.cell_view(row as int, offset as int)[i as int] == y);
                                lemma_cell_item_plotted(*self, row as int, offset as int, i as int);
                                assert(self.has_plotted(Item::Reducer(*x)));
                            }
                            r.push(x.clone());
                            assert(r@ =~= before + reducers_in(cell@.subrange(0, i + 1)));
                        },
                        _ => {},
                    }
                    i = i + 1;
                }
                assert(cell@.subrange(0, i as int) =~= cell@);
            } else {
                assert(cellv =~= Seq::<Item<T, M>>::empty());
                assert(reducers_in(cellv) =~= Seq::<Reducer<T, M>>::empty());
                assert(r@ =~= before + reducers_in(cellv));
            }
            proof {
                lemma_reducers_in_concat(diagonal_items(*self, begin as int, row as int), cellv);
                assert(diagonal_items(*self, begin as int, row + 1) == diagonal_items(*self, begin as int, row as int) + cellv);
            }
            row = row + 1;
        }
        r
    }

    /// Pairs a reduction still expecting more with each reducer that could continue it.
    fn reduce_from_subrule(&self, reduction: &Reduction<T, M>) -> (r: Vec<
        (Reducible<T, M>, Reducer<T, M>),
    >)
        requires
            self.consistent(),
            reduction.wf(),
            self.has_plotted(Item::Reduction(*reduction)),
        ensures
            forall|i: int|
                0 <= i < r@.len() ==> pair_ok(#[trigger] r@[i]) && r@[i].1.spec_end()
                    <= self.table@.len(),
            forall|i: int| 0 <= i < r@.len() ==> self.has_pair(#[trigger] r@[i]),
            r@ == (if reduction.spec_reductum() is Subrule {
                paired_with(
                    Reducible::Reduction(*reduction),
                    reducers_in(diagonal_items(*self, reduction.spec_end(), self.spec_len() as int)),
                )
            } else {
                Seq::empty()
            }),
    {
        let reducers = self.reducers_for(reduction);
        let mut r: Vec<(Reducible<T, M>, Reducer<T, M>)> = Vec::new();
        match Reducible::try_from_reduction(reduction.clone()) {
            Some(reducible) => {
                let mut i: usize = 0;
                while i < reducers.len()
                    invariant
                        i <= reducers@.len(),
                        reducible == Reducible::Reduction(*reduction),
                        reduction.wf(),
                        reduction.spec_reductum() is Subrule,
                        forall|j: int|
                            0 <= j < reducers@.len() ==> (#[trigger] reducers@[j]).wf()
                                && reducers@[j].spec_start() == reduction.spec_end()
                                && reducers@[j].spec_end() <= self.table@.len(),
                        forall|j: int|
                            0 <= j < r@.len() ==> pair_ok(#[trigger] r@[j]) && r@[j].1.spec_end()
                                <= self.table@.len(),
                        self.has_plotted(Item::Reduction(*reduction)),
                        forall|j: int| 0 <= j < reducers@.len() ==> self.has_plotted(Item::Reducer(#[trigger] reducers@[j])),
                        forall|j: int| 0 <= j < r@.len() ==> self.has_pair(#[trigger] r@[j]),
                        r@ == paired_with(reducible, reducers@.subrange(0, i as int)),
                    decreases reducers@.len() - i,
                {
                    r.push((reducible.clone(), reducers[i].clone()));
                    i = i + 1;
                    assert(r@ =~= paired_with(reducible, reducers@.subrange(0, i as int)));
                }
                assert(reducers@.subrange(0, i as int) =~= reducers@);
            },
            None => {
                assert(r@ =~= Seq::<(Reducible<T, M>, Reducer<T, M>)>::empty());
            },
        }
        r
    }
}

impl<T, M: Matcher<T>> Chart<T, M> {
    /// Each rule of the grammar whose first step hits the reducer's value has had the reduction
    /// of that hit plotted.
    pub open(crate) spec fn has_rule_hits(self, x: Reducer<T, M>, grammar: Seq<&Ruleset<T, M>>) -> bool {
        forall|k: int|
            0 <= k < grammar_rules(grammar).len() ==> (
            #[trigger] grammar_rules(grammar)[k].spec_subrule().spec_matcher().spec_reduce(x.spec_value())
                matches Match::Hit { reductum } ==> self.has_reduction(
                (Reducible::Rule(grammar_rules(grammar)[k]), x, reductum),
            ))
    }

    /// What the item causes by itself has been plotted: for a reducer, the hits of the grammar's
    /// rules on it; for a reduction that reached a consequence that fits its antecedents, a
    /// conclusion for each present consequent.
    pub open(crate) spec fn causes_plotted(self, x: Item<T, M>, grammar: Seq<&Ruleset<T, M>>) -> bool {
        match x {
            Item::Reducer(r) => self.has_rule_hits(r, grammar),
            Item::Reduction(q) => consequence_fits(q) ==> forall|index: int|
                0 <= index < q.spec_reductum()->Consequence_0.spec_consequents().len()
                    && q.spec_reductum()->Consequence_0.spec_consequents()[index] is Some
                    ==> #[trigger] self.has_conclusion(q, index),
        }
    }

    /// The `j`-th item of the last step has been continued with what had been plotted when it
    /// was: a reducer, with the reductions still expecting more that end where it starts, for
    /// flags set only on reductions of the grammar's rulesets; a reduction still expecting more,
    /// with each reducer on the diagonal from its end.
    pub open(crate) spec fn continued_at(self, j: int, grammar: Seq<&Ruleset<T, M>>) -> bool {
        let hist = history_upto(self.history_view(), j + 1);
        match self.history@.last()@[j] {
            Item::Reducer(r) => exists|keep: Seq<bool>|
                flags_fit(hist, r, keep, grammar) && #[trigger] self.has_hits(
                    flagged_pairs(hist, r, keep),
                    trials_of(flagged_pairs(hist, r, keep)),
                ),
            Item::Reduction(q) => q.spec_reductum() is Subrule ==> self.has_hits(
                continuations(hist, q),
                trials_of(continuations(hist, q)),
            ),
        }
    }

    /// Every item that the last step plotted from position `from` on has had what it causes by
    /// itself plotted, and has been continued.
    pub open(crate) spec fn saturated_from(self, from: int, grammar: Seq<&Ruleset<T, M>>) -> bool {
        forall|j: int|
            from <= j < self.history@.last()@.len() ==> self.causes_plotted(
                #[trigger] self.history@.last()@[j],
                grammar,
            ) && self.continued_at(j, grammar)
    }

    /// The `j`-th item of the last step has been continued with what had been plotted when it
    /// was, as `continued_at` says, with flags that `same` set exactly: on the reductions still
    /// expecting more whose ruleset it found among the grammar's, at any position.
    pub open(crate) spec fn continued_by<F: Fn(&Ruleset<T, M>, &Ruleset<T, M>) -> bool>(
        self,
        j: int,
        grammar: Seq<&Ruleset<T, M>>,
        same: F,
    ) -> bool {
        let hist = history_upto(self.history_view(), j + 1);
        match self.history@.last()@[j] {
            Item::Reducer(r) => exists|keep: Seq<bool>|
                flags_fit(hist, r, keep, grammar) && flags_fit_by(hist, r, keep, grammar, same)
                    && #[trigger] self.has_hits(flagged_pairs(hist, r, keep), trials_of(flagged_pairs(hist, r, keep))),
            Item::Reduction(q) => q.spec_reductum() is Subrule ==> self.has_hits(
                continuations(hist, q),
                trials_of(continuations(hist, q)),
            ),
        }
    }

    /// Every item that the last step plotted from position `from` on has had what it causes by
    /// itself plotted, and has been continued as `continued_by` says.
    pub open(crate) spec fn saturated_by_from<F: Fn(&Ruleset<T, M>, &Ruleset<T, M>) -> bool>(
        self,
        from: int,
        grammar: Seq<&Ruleset<T, M>>,
        same: F,
    ) -> bool {
        forall|j: int|
            from <= j < self.history@.last()@.len() ==> self.causes_plotted(
                #[trigger] self.history@.last()@[j],
                grammar,
            ) && self.continued_by(j, grammar, same)
    }

    /// Performs reductions by the given pairs of parents, keeping those that hit.
    fn reduce(&self, parents: Vec<(Reducible<T, M>, Reducer<T, M>)>, Ghost(bound): Ghost<int>) -> (r:
        Vec<Reduction<T, M>>)
        requires
            forall|i: int|
                0 <= i < parents@.len() ==> pair_ok(#[trigger] parents@[i]) && parents@[i].1.spec_end()
                    <= bound,
            forall|i: int| 0 <= i < parents@.len() ==> self.has_pair(#[trigger] parents@[i]),
        ensures
            forall|i: int| 0 <= i < r@.len() ==> (#[trigger] r@[i]).wf() && r@[i].spec_end() <= bound,
            forall|i: int| 0 <= i < r@.len() ==> self.has_parents_of(Item::Reduction(#[trigger] r@[i])),
            triples(r@) == hits(parents@, trials_of(parents@)),
    {
        let mut reductions: Vec<Reduction<T, M>> = Vec::new();
        let mut i: usize = 0;
        let ghost mut trials: Seq<Match<T, M>> = Seq::empty();
        assert(trials =~= trials_of(parents@.take(0)));
        assert(parents@.take(0) =~= Seq::<(Reducible<T, M>, Reducer<T, M>)>::empty());
        assert(triples(reductions@) =~= Seq::<(Reducible<T, M>, Reducer<T, M>, Reductum<T, M>)>::empty());
        assert(forall|j: int|
                    0 <= j < parents@.len() ==> pair_ok(#[trigger] parents@[j]));
        assert(forall|j: int|
                    0 <= j < parents@.len() ==> parents@[j].1.spec_end() <= bound);
        while i < parents.len()
            invariant
                i <= parents@.len(),
                forall|j: int|
                    0 <= j < parents@.len() ==> pair_ok(#[trigger] parents@[j]) && parents@[j].1.spec_end()
                        <= bound,
                forall|j: int|
                    0 <= j < reductions@.len() ==> (#[trigger] reductions@[j]).wf()
                        && reductions@[j].spec_end() <= bound,
                forall|j: int| 0 <= j < parents@.len() ==> self.has_pair(#[trigger] parents@[j]),
                forall|j: int| 0 <= j < reductions@.len() ==> self.has_parents_of(Item::Reduction(#[trigger] reductions@[j])),
                trials == trials_of(parents@.take(i as int)),
                triples(reductions@) == hits(parents@.take(i as int), trials),
            decreases parents@.len() - i,
        {
            let reducible = &parents[i].0;
            let reducer = &parents[i].1;
            proof {
                assert(pair_ok(parents@[i as int]));
                assert(self.has_pair(parents@[i as int]));
            }
            let ghost before = reductions@;
            let trial = reducible.subrule().reduce(reducer.value());
            let ghost this_trial = trial;
            match trial {
                Match::Hit { reductum } => {
                    let reduction = Reduction::new(reducible.clone(), reducer.clone(), reductum);
                    reductions.push(reduction);
                    assert(triples(reductions@) =~= triples(before).push(
                        (parents@[i as int].0, parents@[i as int].1, reductum),
                    ));
                },
                _ => {},
            }
            proof {
                let taken = parents@.take(i + 1);
                assert(taken.drop_last() =~= parents@.take(i as int));
                assert(taken.last() == parents@[i as int]);
                assert(trials.push(this_trial).drop_last() =~= trials);
                trials = trials.push(this_trial);
                assert(trials =~= trials_of(taken));
            }
            i = i + 1;
        }
        assert(parents@.take(i as int) =~= parents@);
        reductions
    }

    /// Plots a reducer into the chart, then the reductions it causes.
    fn plot_reducer<F: Fn(&Ruleset<T, M>, &Ruleset<T, M>) -> bool>(
        &mut self,
        reducer: Reducer<T, M>,
        grammar: &[&Ruleset<T, M>],
        same: &F,
        fuel: usize,
    ) -> (rest: usize)
        requires
            forall|a: &Ruleset<T, M>, b: &Ruleset<T, M>| #[trigger] same.requires((a, b)),
            tells_only_equal(*same),
            old(self).consistent(),
            old(self).history@.len() > 0,
            reducer.wf(),
            reducer.spec_end() <= old(self).table@.len(),
            derived(old(self).history_view()),
            old(self).has_parents_of(Item::Reducer(reducer)),
        ensures
            final(self).consistent(),
            final(self).extends(*old(self)),
            derived(final(self).history_view()),
            rest <= fuel,
            final(self).history@.last()@.len() > old(self).history@.last()@.len(),
            final(self).history@.last()@[old(self).history@.last()@.len() as int] == Item::Reducer(reducer),
            rest > 0 ==> final(self).saturated_by_from(old(self).history@.last()@.len() as int, grammar@, *same),
            fuel - rest + 2 <= 2 * (final(self).history@.last()@.len() - old(self).history@.last()@.len()),
        decreases fuel, 4int,
    {
        self.plot(Item::Reducer(reducer.clone()));
        let ghost mid = *self;
        let rest = self.seminate_reductions(reducer, grammar, same, fuel);
        proof {
            let n = self.history@.len() - 1;
            let p = old(self).history@[n]@.len() as int;
            assert(self.history@[n]@[p] == mid.history@[n]@[p]);
            assert(self.history@.last() == self.history@[n]);
            assert(mid.history@.last() == mid.history@[n]);
            assert(old(self).history@.last() == old(self).history@[n]);
            if rest > 0 {
                lemma_upto_extends(*self, mid);
                assert forall|j: int| p <= j < self.history@.last()@.len() implies self.causes_plotted(
                    #[trigger] self.history@.last()@[j],
                    grammar@,
                ) && self.continued_by(j, grammar@, *same) by {
                    if j == p {
                        assert(self.history@.last()@[j] == Item::Reducer(reducer));
                        assert(history_upto(self.history_view(), p + 1) == mid.history_view());
                    }
                }
            }
        }
        rest
    }

    /// Plots the reductions the reducer causes with the rules of the grammar and with the
    /// reductions already in the chart.
    fn seminate_reductions<F: Fn(&Ruleset<T, M>, &Ruleset<T, M>) -> bool>(
        &mut self,
        reducer: Reducer<T, M>,
        grammar: &[&Ruleset<T, M>],
        same: &F,
        fuel: usize,
    ) -> (rest: usize)
        requires
            forall|a: &Ruleset<T, M>, b: &Ruleset<T, M>| #[trigger] same.requires((a, b)),
            tells_only_equal(*same),
            old(self).consistent(),
            old(self).history@.len() > 0,
            reducer.wf(),
            reducer.spec_end() <= old(self).table@.len(),
            derived(old(self).history_view()),
            old(self).has_plotted(Item::Reducer(reducer)),
        ensures
            final(self).consistent(),
            final(self).extends(*old(self)),
            derived(final(self).history_view()),
            rest <= fuel,
            fuel > 0 && rest == 0 ==> final(self).history@.last()@.len() > old(self).history@.last()@.len(),
            rest > 0 ==> final(self).saturated_by_from(old(self).history@.last()@.len() as int, grammar@, *same) && final(self).has_rule_hits(reducer, grammar@),
            rest > 0 ==> exists|keep: Seq<bool>|
                flags_fit(old(self).history_view(), reducer, keep, grammar@) && flags_fit_by(
                    old(self).history_view(),
                    reducer,
                    keep,
                    grammar@,
                    *same,
                ) && #[trigger] final(self).has_hits(
                    flagged_pairs(old(self).history_view(), reducer, keep),
                    trials_of(flagged_pairs(old(self).history_view(), reducer, keep)),
                ),
            fuel - rest <= 2 * (final(self).history@.last()@.len() - old(self).history@.last()@.len()),
        decreases fuel, 3int,
    {
        let mut parents = self.reduce_from_grammar(&reducer, grammar);
        let mut from_chart = self.reduce_from_chart(&reducer, grammar, same);
        let ghost p1 = parents@;
        let ghost p2 = from_chart@;
        let ghost keep: Seq<bool> = if 0 < reducer.spec_start() <= self.spec_len() {
            choose|keep: Seq<bool>|
                kept_open_in(self.row_view(reducer.spec_start() - 1), keep, grammar@)
                    && flags_by(self.row_view(reducer.spec_start() - 1), keep, grammar@, *same)
                    && #[trigger] kept_pairs(self.row_view(reducer.spec_start() - 1), keep, reducer)
                    == p2
        } else {
            Seq::empty()
        };
        proof {
            if 0 < reducer.spec_start() <= self.spec_len() {
                lemma_row_plotted(*self, reducer.spec_start() - 1);
            }
        }
        assert(flags_fit(self.history_view(), reducer, keep, grammar@));
        assert(flags_fit_by(self.history_view(), reducer, keep, grammar@, *same));
        assert(p2 =~= flagged_pairs(self.history_view(), reducer, keep));
        parents.append(&mut from_chart);
        proof {
            assert forall|i: int| 0 <= i < parents@.len() implies #[trigger] pair_ok(parents@[i])
                && parents@[i].1.spec_end() <= self.table@.len() && self.has_pair(parents@[i]) by {
                if i < p1.len() {
                    assert(parents@[i] == p1[i]);
                    assert(p1[i].0 is Rule);
                } else {
                    assert(parents@[i] == p2[i - p1.len()]);
                }
            }
        }
        let ghost all = parents@;
        assert(all == p1 + p2);
        let reductions = self.reduce(parents, Ghost(self.table@.len() as int));
        let ghost trials = trials_of(all);
        let rest = self.plot_reductions(reductions, grammar, same, fuel);
        proof {
            if rest > 0 {
                lemma_hits_plotted(*self, reductions@, all, trials);
                lemma_rule_hits(*self, reductions@, reducer, grammar@, p2);
                lemma_has_hits_suffix(*self, p1, p2);
                assert(self.has_hits(
                    flagged_pairs(old(self).history_view(), reducer, keep),
                    trials_of(flagged_pairs(old(self).history_view(), reducer, keep)),
                ));
            }
        }
        rest
    }

    /// Plots each of the reductions, one after another.
    fn plot_reductions<F: Fn(&Ruleset<T, M>, &Ruleset<T, M>) -> bool>(
        &mut self,
        reductions: Vec<Reduction<T, M>>,
        grammar: &[&Ruleset<T, M>],
        same: &F,
        fuel: usize,
    ) -> (rest: usize)
        requires
            forall|a: &Ruleset<T, M>, b: &Ruleset<T, M>| #[trigger] same.requires((a, b)),
            tells_only_equal(*same),
            old(self).consistent(),
            old(self).history@.len() > 0,
            forall|i: int|
                0 <= i < reductions@.len() ==> (#[trigger] reductions@[i]).wf()
                    && reductions@[i].spec_end() <= old(self).table@.len(),
            derived(old(self).history_view()),
            forall|i: int| 0 <= i < reductions@.len() ==> old(self).has_parents_of(Item::Reduction(#[trigger] reductions@[i])),
        ensures
            final(self).consistent(),
            final(self).extends(*old(self)),
            derived(final(self).history_view()),
            rest <= fuel,
            fuel > 0 && reductions@.len() > 0 ==> final(self).history@.last()@.len() > old(self).history@.last()@.len()
                && final(self).history@.last()@[old(self).history@.last()@.len() as int] == Item::Reduction(reductions@[0]),
            rest > 0 ==> forall|i: int| 0 <= i < reductions@.len() ==> final(self).in_last_step(Item::Reduction(#[trigger] reductions@[i])),
            fuel > 0 && rest == 0 ==> final(self).history@.last()@.len() > old(self).history@.last()@.len(),
            rest > 0 ==> final(self).saturated_by_from(old(self).history@.last()@.len() as int, grammar@, *same),
            fuel - rest <= 2 * (final(self).history@.last()@.len() - old(self).history@.last()@.len()),
        decreases fuel, 2int,
    {
        let mut rest = fuel;
        let mut i: usize = 0;
        while i < reductions.len()
            invariant
                self.consistent(),
                self.history@.len() > 0,
                self.extends(*old(self)),
                rest <= fuel,
                i <= reductions@.len(),
                forall|j: int|
                    0 <= j < reductions@.len() ==> (#[trigger] reductions@[j]).wf()
                        && reductions@[j].spec_end() <= self.table@.len(),
                derived(self.history_view()),
                forall|j: int| 0 <= j < reductions@.len() ==> self.has_parents_of(Item::Reduction(#[trigger] reductions@[j])),
                i == 0 ==> rest == fuel && *self == *old(self),
                forall|a: &Ruleset<T, M>, b: &Ruleset<T, M>| #[trigger] same.requires((a, b)),
                tells_only_equal(*same),
                fuel > 0 && i > 0 ==> self.history@.last()@.len() > old(self).history@.last()@.len()
                    && self.history@.last()@[old(self).history@.last()@.len() as int] == Item::Reduction(reductions@[0]),
                forall|j: int| 0 <= j < i ==> self.in_last_step(Item::Reduction(#[trigger] reductions@[j])),
                rest > 0 ==> self.saturated_by_from(old(self).history@.last()@.len() as int, grammar@, *same),
                fuel - rest <= 2 * (self.history@.last()@.len() - old(self).history@.last()@.len()),
            decreases reductions@.len() - i,
        {
            if rest == 0 {
                return 0;
            }
            let ghost before = *self;
            assert(self.has_parents_of(Item::Reduction(reductions@[i as int])));
            rest = self.plot_reduction(reductions[i].clone(), grammar, same, rest - 1);
            proof {
                lemma_extends_trans(*self, before, *old(self));
                lemma_extends_keeps(*self, before);
                let n = self.history@.len() - 1;
                let p = old(self).history@[n]@.len() as int;
                assert(self.history@.last() == self.history@[n]);
                assert(before.history@.last() == before.history@[n]);
                assert(old(self).history@.last() == old(self).history@[n]);
                if i > 0 {
                    assert(self.history@[n]@[p] == before.history@[n]@[p]);
                } else {
                    assert(before.history@[n]@.len() == p);
                    assert(self.history@[n]@[p] == Item::Reduction(reductions@[0]));
                }
                lemma_plotted_last_step(*self, before.history@[n]@.len() as int);
                assert(self.history@[n]@[before.history@[n]@.len() as int] == Item::Reduction(reductions@[i as int]));
                assert forall|j: int| 0 <= j < i + 1 implies self.in_last_step(Item::Reduction(#[trigger] reductions@[j])) by {
                    if j < i {
                        lemma_in_last_step_keeps(*self, before, Item::Reduction(reductions@[j]));
                    } else {
                        assert(self.history@.last()@[before.history@[n]@.len() as int] == Item::Reduction(reductions@[j]));
                    }
                }
                if rest > 0 {
                    lemma_saturated_by_join(*self, before, old(self).history@.last()@.len() as int, grammar@, *same);
                }
                assert forall|j: int| 0 <= j < reductions@.len() implies self.has_parents_of(Item::Reduction(#[trigger] reductions@[j])) by {
                    assert(before.has_parents_of(Item::Reduction(reductions@[j])));
                }
            }
            i = i + 1;
        }
        rest
    }

    /// Plots a reduction into the chart, then what it yields.
    fn plot_reduction<F: Fn(&Ruleset<T, M>, &Ruleset<T, M>) -> bool>(
        &mut self,
        reduction: Reduction<T, M>,
        grammar: &[&Ruleset<T, M>],
        same: &F,
        fuel: usize,
    ) -> (rest: usize)
        requires
            forall|a: &Ruleset<T, M>, b: &Ruleset<T, M>| #[trigger] same.requires((a, b)),
            tells_only_equal(*same),
            old(self).consistent(),
            old(self).history@.len() > 0,
            reduction.wf(),
            reduction.spec_end() <= old(self).table@.len(),
            derived(old(self).history_view()),
            old(self).has_parents_of(Item::Reduction(reduction)),
        ensures
            final(self).consistent(),
            final(self).extends(*old(self)),
            derived(final(self).history_view()),
            rest <= fuel,
            final(self).history@.last()@.len() > old(self).history@.last()@.len(),
            final(self).history@.last()@[old(self).history@.last()@.len() as int] == Item::Reduction(reduction),
            rest > 0 ==> final(self).saturated_by_from(old(self).history@.last()@.len() as int, grammar@, *same),
            fuel - rest + 1 <= 2 * (final(self).history@.last()@.len() - old(self).history@.last()@.len()),
        decreases fuel, 1int,
    {
        self.plot(Item::Reduction(reduction.clone()));
        let ghost mid = *self;
        let rest = self.seminate_reducers(reduction, grammar, same, fuel);
        proof {
            lemma_extends_trans(*self, mid, *old(self));
            let n = self.history@.len() - 1;
            let p = old(self).history@[n]@.len() as int;
            assert(self.history@[n]@[p] == mid.history@[n]@[p]);
            assert(self.history@.last() == self.history@[n]);
            assert(mid.history@.last() == mid.history@[n]);
            assert(old(self).history@.last() == old(self).history@[n]);
            if rest > 0 {
                lemma_upto_extends(*self, mid);
                assert forall|j: int| p <= j < self.history@.last()@.len() implies self.causes_plotted(
                    #[trigger] self.history@.last()@[j],
                    grammar@,
                ) && self.continued_by(j, grammar@, *same) by {
                    if j == p {
                        assert(self.history@.last()@[j] == Item::Reduction(reduction));
                        assert(history_upto(self.history_view(), p + 1) == mid.history_view());
                    }
                }
            }
        }
        rest
    }

    /// Plots the conclusions of the reduction if it reached a consequence; otherwise plots the
    /// reductions that continue it with reducers already in the chart (which exist only when
    /// the reduction was plotted on an earlier row).
    #[verifier::rlimit(30)]
    fn seminate_reducers<F: Fn(&Ruleset<T, M>, &Ruleset<T, M>) -> bool>(
        &mut self,
        reduction: Reduction<T, M>,
        grammar: &[&Ruleset<T, M>],
        same: &F,
        fuel: usize,
    ) -> (rest: usize)
        requires
            forall|a: &Ruleset<T, M>, b: &Ruleset<T, M>| #[trigger] same.requires((a, b)),
            tells_only_equal(*same),
            old(self).consistent(),
            old(self).history@.len() > 0,
            reduction.wf(),
            reduction.spec_end() <= old(self).table@.len(),
            derived(old(self).history_view()),
            old(self).has_plotted(Item::Reduction(reduction)),
        ensures
            final(self).consistent(),
            final(self).extends(*old(self)),
            derived(final(self).history_view()),
            rest <= fuel,
            reduction.spec_reductum() is Consequence && fuel > 0 && rest == 0
                ==> final(self).history@.last()@.len() > old(self).history@.last()@.len(),
            consequence_fits(reduction) && rest > 0 ==> forall|index: int|
                0 <= index < reduction.spec_reductum()->Consequence_0.spec_consequents().len()
                    && reduction.spec_reductum()->Consequence_0.spec_consequents()[index] is Some
                    ==> #[trigger] final(self).has_conclusion(reduction, index),
            reduction.spec_reductum() is Subrule && fuel > 1 && rest == 0
                ==> final(self).history@.last()@.len() > old(self).history@.last()@.len(),
            reduction.spec_reductum() is Subrule && rest > 0 ==> final(self).has_hits(
                continuations(old(self).history_view(), reduction),
                trials_of(continuations(old(self).history_view(), reduction)),
            ),
            rest > 0 ==> final(self).saturated_by_from(old(self).history@.last()@.len() as int, grammar@, *same) && final(self).causes_plotted(Item::Reduction(reduction), grammar@),
            fuel - rest <= 2 * (final(self).history@.last()@.len() - old(self).history@.last()@.len()) + 1,
        decreases fuel, 0int,
    {
        match reduction.reductum() {
            Reductum::Consequence(consequence) => {
                let antecedents = reduction.antecedents();
                proof {
                    lemma_reduction_antecedents(reduction);
                }
                let consequents = consequence.consequents();
                let mut pos: usize = 0;
                let mut index: usize = 0;
                let mut rest = fuel;
                while index < consequents.len()
                    invariant
                        self.consistent(),
                        self.history@.len() > 0,
                        self.extends(*old(self)),
                        rest <= fuel,
                        reduction.wf(),
                        reduction.spec_end() <= self.table@.len(),
                        reduction.spec_reductum() == Reductum::<T, M>::Consequence(*consequence),
                        consequents@ == consequence.spec_consequents(),
                        antecedents@ == reduction.spec_antecedents(),
                        antecedents@.len() >= 1,
                        antecedents@.last().spec_end() == reduction.spec_end(),
                        forall|i: int|
                            0 <= i < antecedents@.len() ==> (#[trigger] antecedents@[i]).wf()
                                && antecedents@[i].spec_start() < antecedents@[i].spec_end(),
                        forall|i: int|
                            0 <= i < antecedents@.len() - 1 ==> (#[trigger] antecedents@[i]).spec_end()
                                == antecedents@[i + 1].spec_start(),
                        pos <= antecedents@.len(),
                        index <= consequents@.len(),
                        forall|a: &Ruleset<T, M>, b: &Ruleset<T, M>| #[trigger] same.requires((a, b)),
                        tells_only_equal(*same),
                        pos == consequents_width(consequents@.take(index as int)),
                        derived(self.history_view()),
                        self.has_plotted(Item::Reduction(reduction)),
                        rest < fuel ==> self.history@.last()@.len() > old(self).history@.last()@.len(),
                        forall|idx: int|
                            0 <= idx < index && consequents@[idx] is Some
                                ==> #[trigger] self.has_conclusion(reduction, idx),
                        rest > 0 ==> self.saturated_by_from(old(self).history@.last()@.len() as int, grammar@, *same),
                        fuel - rest <= 2 * (self.history@.last()@.len() - old(self).history@.last()@.len()),
                    decreases consequents@.len() - index,
                {
                    proof {
                        assert(consequents@.take(index + 1).drop_last() =~= consequents@.take(index as int));
                        assert(consequents@.take(index + 1).last() == consequents@[index as int]);
                        lemma_width_prefix(consequents@, index + 1, consequents@.len() as int);
                        assert(consequents@.take(consequents@.len() as int) =~= consequents@);
                    }
                    match &consequents[index] {
                        Some(consequent) => {
                            let len = consequent.len();
                            if len == 0 || len > antecedents.len() - pos {
                                proof {
                                    if consequence_fits(reduction) {
                                        assert(consequence.wf());
                                        assert(consequents@[index as int] matches Some(q) && q.wf());
                                    }
                                }
                                return rest;
                            }
                            if rest == 0 {
                                return 0;
                            }
                            let mut covered: Vec<Reducer<T, M>> = Vec::new();
                            let mut k: usize = 0;
                            while k < len
                                invariant
                                    k <= len,
                                    pos + len <= antecedents.len(),
                                    covered@ == antecedents@.subrange(pos as int, pos + k),
                                decreases len - k,
                            {
                                covered.push(antecedents[pos + k].clone());
                                k = k + 1;
                                assert(covered@ =~= antecedents@.subrange(pos as int, pos + k));
                            }
                            proof {
                                assert forall|j: int| 0 <= j < covered@.len() - 1 implies (
                                #[trigger] covered@[j]).spec_end() == covered@[j + 1].spec_start() by {
                                    assert(covered@[j] == antecedents@[pos + j]);
                                    assert(covered@[j + 1] == antecedents@[pos + j + 1]);
                                }
                                lemma_contiguous_monotone(antecedents@, pos as int, pos + len - 1);
                                lemma_contiguous_monotone(
                                    antecedents@,
                                    pos + len - 1,
                                    antecedents@.len() - 1,
                                );
                                assert(covered@[0] == antecedents@[pos as int]);
                                assert(covered@.last() == antecedents@[pos + len - 1]);
                            }
                            proof {
                                assert(consequents@.take(index + 1).drop_last() =~= consequents@.take(index as int));
                                assert(consequents@.take(index + 1).last() == consequents@[index as int]);
                            }
                            let conclusion = Conclusion::new(reduction.clone(), index, covered);
                            pos = pos + len;
                            let ghost before = *self;
                            assert(self.has_parents_of(Item::Reducer(Reducer::Conclusion(conclusion))));
                            let ghost this = conclusion;
                            let ghost old_index = index as int;
                            rest = self.plot_reducer(Reducer::Conclusion(conclusion), grammar, same, rest - 1);
                            proof {
                                lemma_extends_trans(*self, before, *old(self));
                                lemma_extends_keeps(*self, before);
                                let n = self.history@.len() - 1;
                                assert(self.history@.last() == self.history@[n]);
                                assert(before.history@.last() == before.history@[n]);
                                lemma_plotted_last_step(*self, before.history@[n]@.len() as int);
                                assert(self.in_last_step(Item::Reducer(Reducer::Conclusion(this))));
                                assert(self.has_conclusion(reduction, old_index));
                                assert forall|idx: int|
                                    0 <= idx < old_index + 1 && consequents@[idx] is Some
                                        implies #[trigger] self.has_conclusion(reduction, idx) by {
                                    if idx < old_index {
                                        lemma_extends_keeps_conclusion(*self, before, reduction, idx);
                                    }
                                }
                                if rest > 0 {
                                    lemma_saturated_by_join(*self, before, old(self).history@.last()@.len() as int, grammar@, *same);
                                }
                            }
                        },
                        None => {
                            if pos >= antecedents.len() {
                                return rest;
                            }
                            proof {
                                assert(consequents@.take(index + 1).drop_last() =~= consequents@.take(index as int));
                                assert(consequents@.take(index + 1).last() == consequents@[index as int]);
                            }
                            pos = pos + 1;
                        },
                    }
                    index = index + 1;
                }
                rest
            },
            Reductum::Subrule(_) => {
                if fuel == 0 {
                    return 0;
                }
                let parents = self.reduce_from_subrule(&reduction);
                let ghost all = parents@;
                proof {
                    lemma_diagonal_plotted(*self, reduction.spec_end(), self.spec_len() as int);
                    assert(self.history_view().len() == self.spec_len());
                    assert(all == continuations(self.history_view(), reduction));
                }
                let reductions = self.reduce(parents, Ghost(self.table@.len() as int));
                let ghost trials = trials_of(all);
                let rest = self.plot_reductions(reductions, grammar, same, fuel - 1);
                proof {
                    if rest > 0 {
                        lemma_hits_plotted(*self, reductions@, all, trials);
                    }
                }
                rest
            },
        }
    }

    /// Performs a single parsing step: plots the input at the first cell of a new row, and
    /// then everything it causes under the grammar.
    ///
    /// Unless the step plots more than `usize::MAX / 2` items, every item of the step has had
    /// what it causes plotted in the step: for a reducer, the reductions of the rules whose first
    /// step hits it, and the continuations of the reductions still expecting more that end where
    /// it starts (those whose ruleset the identity test finds in the grammar); for a reduction
    /// that reached a consequence, a conclusion for each present consequent; for a reduction
    /// still expecting more, its continuations with the reducers already on the diagonal from
    /// its end. A grammar that would go on forever (such as one with `A => A`) is cut off.
    pub fn push(&mut self, input: T, grammar: &[&Ruleset<T, M>])
        requires
            old(self).wf(),
            old(self).spec_len() + 1 < usize::MAX,
        ensures
            pushed(*old(self), input, *final(self), grammar@),
    {
        let same = |a: &Ruleset<T, M>, b: &Ruleset<T, M>| -> (k: bool)
            ensures
                k ==> *a == *b,
            { a.is(b) };
        self.push_by(input, grammar, &same);
        proof {
            lemma_saturated_by_weakens(*self, 0, grammar@, same);
        }
    }

    /// Performs a single parsing step as [`Chart::push`] does, with `same` telling whether the
    /// ruleset of a reduction already in the chart is one of the grammar's.
    pub fn push_by<F: Fn(&Ruleset<T, M>, &Ruleset<T, M>) -> bool>(
        &mut self,
        input: T,
        grammar: &[&Ruleset<T, M>],
        same: &F,
    )
        requires
            old(self).wf(),
            old(self).spec_len() + 1 < usize::MAX,
            forall|a: &Ruleset<T, M>, b: &Ruleset<T, M>| #[trigger] same.requires((a, b)),
            tells_only_equal(*same),
        ensures
            pushed_by(*old(self), input, *final(self), grammar@, *same),
    {
        let cursor = self.table.len();
        let mut row: Vec<Vec<Item<T, M>>> = Vec::new();
        let mut o: usize = 0;
        while o <= cursor
            invariant
                o <= cursor + 1,
                cursor + 1 < usize::MAX,
                row@.len() == o,
                forall|j: int| 0 <= j < o ==> (#[trigger] row@[j])@.len() == 0,
            decreases cursor + 1 - o,
        {
            row.push(Vec::new());
            o = o + 1;
        }
        let ghost hv0 = self.history_view();
        let ghost t0 = *self;
        self.table.push(row);
        self.history.push(Vec::new());
        proof {
            assert(self.history_view() =~= hv0.push(Seq::empty()));
            let nv = self.history_view();
            assert forall|k: int| 0 <= k < hv0.len() implies hv0[k].len() <= nv[k].len() && forall|j: int|
                0 <= j < hv0[k].len() ==> #[trigger] nv[k][j] == hv0[k][j] by {
                assert(nv[k] == hv0[k]);
            }
            assert forall|k: int, j: int|
                0 <= k < nv.len() && 0 <= j < nv[k].len() && !(k < hv0.len() && j < hv0[k].len())
                    implies parents_plotted(nv, k, #[trigger] nv[k][j]) by {
                assert(k == hv0.len());
                assert(nv[k].len() == 0);
            }
            lemma_derived_grows(hv0, nv);
            assert forall|r: int, o: int| #[trigger] self.cell_view(r, o) == plotted(self.history_view(), r, o) by {
                lemma_plotted_new_step(hv0, r, o);
                if r == cursor {
                    lemma_plotted_outside(hv0, r, o);
                    assert(self.cell_view(r, o) =~= Seq::<Item<T, M>>::empty());
                } else {
                    assert(self.cell_view(r, o) == t0.cell_view(r, o));
                }
            }
            assert forall|k: int| 0 <= k < self.history@.len() implies items_below(
                #[trigger] self.history@[k]@,
                k + 1,
            ) by {
                if k < cursor {
                    assert(self.history@[k] == t0.history@[k]);
                }
            }
            assert forall|r: int, o: int, i: int|
                0 <= r < self.table@.len() && 0 <= o < self.table@[r]@.len() && 0 <= i
                    < self.table@[r]@[o]@.len() implies {
                let x = #[trigger] self.table@[r]@[o]@[i];
                &&& x.wf()
                &&& x.spec_cursor() == r
                &&& x.spec_offset() == o
            } by {
                assert(r < cursor);
                assert(self.table@[r] == t0.table@[r]);
            }
        }
        let input = Input::new(input, cursor);
        let ghost mid = *self;
        let rest = self.plot_reducer(Reducer::Input(input), grammar, same, usize::MAX);
        let ghost after = *self;
        self.shrink_to_fit(cursor);
        proof {
            let n = self.history@.len() - 1;
            assert(self.history_view().last() == self.history@.last()@);
            assert(mid.history@.last()@.len() == 0);
            if self.history@.last()@.len() <= usize::MAX / 2 {
                assert(rest > 0);
                assert(self.extends(after));
                lemma_saturated_by_join(*self, after, 0, grammar@, *same);
            }
            assert(self.history_view().drop_last() =~= hv0) by {
                assert forall|k: int| 0 <= k < hv0.len() implies self.history_view().drop_last()[k] == hv0[k] by {
                    assert(self.history@[k]@ == mid.history@[k]@);
                }
            }
            assert forall|k: int| 0 <= k < self.history@.len() implies {
                &&& (#[trigger] self.history@[k])@.len() >= 1
                &&& self.history@[k]@[0] matches Item::Reducer(Reducer::Input(i))
                &&& i.spec_cursor() == k
            } by {
                if k < cursor {
                    assert(self.history@[k]@ == mid.history@[k]@);
                    assert(mid.history@[k] == t0.history@[k]);
                }
            }
        }
    }

    /// Undoes the last parsing step, and returns its input or `None` if the chart was
    /// empty.
    pub fn pop(&mut self) -> (r: Option<Input<T>>)
        requires
            old(self).wf(),
        ensures
            final(self).wf(),
            old(self).spec_len() == 0 ==> r is None && final(self).spec_len() == 0 && final(self).history_view()
                == old(self).history_view(),
            old(self).spec_len() > 0 ==> {
                &&& final(self).spec_len() == old(self).spec_len() - 1
                &&& final(self).history_view() == old(self).history_view().drop_last()
                &&& old(self).history_view().last()[0] matches Item::Reducer(Reducer::Input(i))
                &&& r == Some(i)
            },
    {
        let ghost old_hv = self.history_view();
        let ghost n = self.table@.len();
        self.table.pop();
        match self.history.pop() {
            Some(items) => {
                let mut items = items;
                let ghost p = old_hv.drop_last();
                let ghost h = old_hv.last();
                proof {
                    lemma_derived_drop_last(old_hv);
                    assert(self.history_view() =~= p);
                    assert(old_hv.drop_last() == p);
                    assert(items@ == h);
                    assert(h.subrange(0, h.len() as int) =~= h);
                    assert forall|r: int, o: int|
                        0 <= r < n - 1 implies #[trigger] self.cell_view(r, o) == plotted(p, r, o)
                            + items_at(items@, r, o) by {
                        assert(self.cell_view(r, o) == old(self).cell_view(r, o));
                        assert(old(self).cell_view(r, o) == plotted(old_hv, r, o));
                    }
                }
                while 1 < items.len()
                    invariant
                        n == old(self).table@.len(),
                        n >= 1,
                        old(self).wf(),
                        old_hv == old(self).history_view(),
                        p == old_hv.drop_last(),
                        h == old_hv.last(),
                        self.table@.len() == n - 1,
                        self.history_view() == p,
                        self.history@ == old(self).history@.drop_last(),
                        items@.len() >= 1,
                        items@.len() <= h.len(),
                        items@ == h.subrange(0, items@.len() as int),
                        forall|r: int| 0 <= r < self.table@.len() ==> #[trigger] self.table@[r]@.len()
                            == old(self).table@[r]@.len(),
                        forall|r: int, o: int|
                            0 <= r < n - 1 ==> #[trigger] self.cell_view(r, o) == plotted(p, r, o)
                                + items_at(items@, r, o),
                        forall|r: int, o: int, i: int|
                            0 <= r < self.table@.len() && 0 <= o < self.table@[r]@.len() && 0 <= i
                                < self.table@[r]@[o]@.len() ==> #[trigger] self.table@[r]@[o]@[i]
                                == old(self).table@[r]@[o]@[i],
                        forall|r: int, o: int|
                            0 <= r < self.table@.len() && 0 <= o < self.table@[r]@.len() ==> (
                            #[trigger] self.table@[r]@[o])@.len() <= old(self).table@[r]@[o]@.len(),
                    decreases items@.len(),
                {
                    let ghost before = *self;
                    let ghost its = items@;
                    let item = items.pop().unwrap();
                    proof {
                        assert(items_below(old(self).history@[n - 1]@, n as int));
                        assert(old(self).history@[n - 1]@ == h);
                        assert(its[its.len() - 1] == h[its.len() - 1]);
                        assert(item == h[its.len() - 1]);
                        assert(h[its.len() - 1] == old(self).history@[n - 1]@[its.len() - 1]);
                        lemma_item_range(item);
                        assert(its.drop_last() =~= items@);
                    }
                    let (cursor, offset) = item.address();
                    if cursor < self.table.len() && offset < self.table[cursor].len() {
                        self.table[cursor][offset].pop();
                        proof {
                            assert(before.cell_view(cursor as int, offset as int) == plotted(p, cursor as int, offset as int) + items_at(its, cursor as int, offset as int));
                            assert(items_at(its, cursor as int, offset as int) == items_at(items@, cursor as int, offset as int).push(item));
                            assert(self.cell_view(cursor as int, offset as int) =~= plotted(p, cursor as int, offset as int) + items_at(items@, cursor as int, offset as int));
                        }
                    }
                    proof {
                        assert forall|r: int, o: int|
                            0 <= r < n - 1 implies #[trigger] self.cell_view(r, o) == plotted(p, r, o)
                                + items_at(items@, r, o) by {
                            if r != cursor || o != offset {
                                assert(self.cell_view(r, o) == before.cell_view(r, o));
                                assert(items_at(its, r, o) == items_at(items@, r, o));
                            }
                        }
                    }
                }
                proof {
                    assert(items@[0] == h[0]);
                    assert(items@ =~= seq![h[0]]);
                    assert(old(self).history@[n - 1]@[0] == h[0]);
                    assert forall|r: int, o: int| #[trigger] self.cell_view(r, o) == plotted(self.history_view(), r, o) by {
                        if 0 <= r < n - 1 {
                            assert(h[0].spec_cursor() == n - 1);
                            assert(items@.drop_last() =~= Seq::<Item<T, M>>::empty());
                            assert(items_at(items@.drop_last(), r, o) == Seq::<Item<T, M>>::empty());
                            assert(items_at(items@, r, o) =~= Seq::<Item<T, M>>::empty());
                            assert(plotted(p, r, o) + items_at(items@, r, o) =~= plotted(p, r, o));
                        } else {
                            assert forall|k: int| 0 <= k < p.len() implies items_below(#[trigger] p[k], k + 1) by {
                                assert(p[k] == old(self).history@[k]@);
                            }
                            lemma_plotted_outside(p, r, o);
                        }
                    }
                }
                proof {
                    assert forall|k: int| 0 <= k < self.history@.len() implies items_below(
                        #[trigger] self.history@[k]@,
                        k + 1,
                    ) by {
                        assert(self.history@[k] == old(self).history@[k]);
                    }
                    assert forall|k: int| 0 <= k < self.history@.len() implies {
                        &&& (#[trigger] self.history@[k])@.len() >= 1
                        &&& self.history@[k]@[0] matches Item::Reducer(Reducer::Input(i))
                        &&& i.spec_cursor() == k
                    } by {
                        assert(self.history@[k] == old(self).history@[k]);
                    }
                    assert forall|r: int, o: int, i: int|
                        0 <= r < self.table@.len() && 0 <= o < self.table@[r]@.len() && 0 <= i
                            < self.table@[r]@[o]@.len() implies {
                        let x = #[trigger] self.table@[r]@[o]@[i];
                        &&& x.wf()
                        &&& x.spec_cursor() == r
                        &&& x.spec_offset() == o
                    } by {
                        assert(self.table@[r]@[o]@.len() <= old(self).table@[r]@[o]@.len());
                        assert(self.table@[r]@[o]@[i] == old(self).table@[r]@[o]@[i]);
                    }
                    assert forall|r: int| 0 <= r < self.table@.len() implies #[trigger] self.table@[r]@.len()
                        <= r + 1 by {
                        assert(self.table@[r]@.len() == old(self).table@[r]@.len());
                    }
                }
                let first = items.pop().unwrap();
                match first {
                    Item::Reducer(Reducer::Input(input)) => Some(input),
                    _ => None,
                }
            },
            None => None,
        }
    }
}

/// What the last step plotted stays in it when the step plots more.
proof fn lemma_in_last_step_keeps<T, M>(b: Chart<T, M>, a: Chart<T, M>, x: Item<T, M>)
    requires
        b.extends(a),
        a.in_last_step(x),
    ensures
        b.in_last_step(x),
{
    let n = a.history@.len() - 1;
    let j = choose|j: int| 0 <= j < a.history@.last()@.len() && #[trigger] a.history@.last()@[j] == x;
    assert(a.history@.last() == a.history@[n]);
    assert(b.history@.last() == b.history@[n]);
    assert(b.history@[n]@[j] == a.history@[n]@[j]);
}

/// A chart that extends another has plotted the conclusions the other had.
proof fn lemma_extends_keeps_conclusion<T, M>(b: Chart<T, M>, a: Chart<T, M>, reduction: Reduction<T, M>, index: int)
    requires
        b.extends(a),
        a.has_conclusion(reduction, index),
    ensures
        b.has_conclusion(reduction, index),
{
    let cs = reduction.spec_reductum()->Consequence_0.spec_consequents();
    let c = choose|c: Conclusion<T, M>|
        #[trigger] a.in_last_step(Item::Reducer(Reducer::Conclusion(c)))
            && c.spec_reduction() == reduction && c.spec_index() == index
            && c.spec_antecedents() == reduction.spec_antecedents().subrange(
            consequents_width(cs.take(index)) as int,
            consequents_width(cs.take(index + 1)) as int,
        );
    lemma_in_last_step_keeps(b, a, Item::Reducer(Reducer::Conclusion(c)));
}

/// A chart that extends another has plotted the reductions the other had.
proof fn lemma_extends_keeps_reduction<T, M>(
    b: Chart<T, M>,
    a: Chart<T, M>,
    t: (Reducible<T, M>, Reducer<T, M>, Reductum<T, M>),
)
    requires
        b.extends(a),
        a.has_reduction(t),
    ensures
        b.has_reduction(t),
{
    let x = choose|x: Reduction<T, M>|
        #[trigger] a.in_last_step(Item::Reduction(x)) && x.spec_reducible() == t.0
            && x.spec_reducer() == t.1 && x.spec_reductum() == t.2;
    lemma_in_last_step_keeps(b, a, Item::Reduction(x));
}

/// What an item causes by itself stays plotted in a chart that extends the one it was plotted in.
proof fn lemma_saturated_keeps<T, M: Matcher<T>>(
    b: Chart<T, M>,
    a: Chart<T, M>,
    x: Item<T, M>,
    grammar: Seq<&Ruleset<T, M>>,
)
    requires
        b.extends(a),
        a.causes_plotted(x, grammar),
    ensures
        b.causes_plotted(x, grammar),
{
    match x {
        Item::Reducer(r) => {
            let rules = grammar_rules(grammar);
            assert forall|k: int| 0 <= k < rules.len() implies (
            #[trigger] grammar_rules(grammar)[k].spec_subrule().spec_matcher().spec_reduce(r.spec_value())
                matches Match::Hit { reductum } ==> b.has_reduction(
                (Reducible::Rule(grammar_rules(grammar)[k]), r, reductum),
            )) by {
                match rules[k].spec_subrule().spec_matcher().spec_reduce(r.spec_value()) {
                    Match::Hit { reductum } => {
                        lemma_extends_keeps_reduction(b, a, (Reducible::Rule(rules[k]), r, reductum));
                    },
                    _ => {},
                }
            }
        },
        Item::Reduction(q) => {
            if consequence_fits(q) {
                let cs = q.spec_reductum()->Consequence_0.spec_consequents();
                assert forall|index: int| 0 <= index < cs.len() && cs[index] is Some implies
                    #[trigger] b.has_conclusion(q, index) by {
                    lemma_extends_keeps_conclusion(b, a, q, index);
                }
            }
        },
    }
}

/// Where the hits of some pairs were plotted, they stay plotted as the last step plots more.
proof fn lemma_has_hits_keeps<T, M: Matcher<T>>(
    b: Chart<T, M>,
    a: Chart<T, M>,
    parents: Seq<(Reducible<T, M>, Reducer<T, M>)>,
    trials: Seq<Match<T, M>>,
)
    requires
        b.extends(a),
        a.has_hits(parents, trials),
    ensures
        b.has_hits(parents, trials),
{
    assert forall|k: int| 0 <= k < hits(parents, trials).len() implies b.has_reduction(
        #[trigger] hits(parents, trials)[k],
    ) by {
        lemma_extends_keeps_reduction(b, a, hits(parents, trials)[k]);
    }
}

/// What had been plotted when the last step held `j + 1` items is the same in a chart that
/// extends it.
proof fn lemma_upto_same<T, M>(b: Chart<T, M>, a: Chart<T, M>, j: int)
    requires
        b.extends(a),
        a.history@.len() > 0,
        0 <= j < a.history@.last()@.len(),
    ensures
        history_upto(b.history_view(), j + 1) == history_upto(a.history_view(), j + 1),
{
    let n = a.history@.len() - 1;
    let hb = b.history_view();
    let ha = a.history_view();
    assert(hb.last() == b.history@[n]@);
    assert(ha.last() == a.history@[n]@);
    assert(hb.last().take(j + 1) =~= ha.last().take(j + 1));
    assert forall|k: int| 0 <= k < n implies hb[k] == ha[k] by {
        assert(b.history@[k]@ == a.history@[k]@);
    }
    assert(hb.drop_last() =~= ha.drop_last());
}

/// An item of the last step stays continued as the step plots more.
proof fn lemma_continued_by_keeps<T, M: Matcher<T>, F: Fn(&Ruleset<T, M>, &Ruleset<T, M>) -> bool>(
    b: Chart<T, M>,
    a: Chart<T, M>,
    j: int,
    grammar: Seq<&Ruleset<T, M>>,
    same: F,
)
    requires
        b.extends(a),
        a.history@.len() > 0,
        0 <= j < a.history@.last()@.len(),
        a.continued_by(j, grammar, same),
    ensures
        b.continued_by(j, grammar, same),
{
    let n = a.history@.len() - 1;
    assert(a.history@.last() == a.history@[n]);
    assert(b.history@.last() == b.history@[n]);
    assert(b.history@[n]@[j] == a.history@[n]@[j]);
    lemma_upto_same(b, a, j);
    let hist = history_upto(a.history_view(), j + 1);
    match a.history@.last()@[j] {
        Item::Reducer(r) => {
            let keep = choose|keep: Seq<bool>|
                flags_fit(hist, r, keep, grammar) && flags_fit_by(hist, r, keep, grammar, same) && #[trigger] a.has_hits(
                    flagged_pairs(hist, r, keep),
                    trials_of(flagged_pairs(hist, r, keep)),
                );
            lemma_has_hits_keeps(b, a, flagged_pairs(hist, r, keep), trials_of(flagged_pairs(hist, r, keep)));
        },
        Item::Reduction(q) => {
            if q.spec_reductum() is Subrule {
                lemma_has_hits_keeps(b, a, continuations(hist, q), trials_of(continuations(hist, q)));
            }
        },
    }
}

/// The items of the last step of a chart stay saturated in a chart that extends it; where the
/// extension saturated what it added, the whole run from `from` on is saturated.
proof fn lemma_saturated_by_join<T, M: Matcher<T>, F: Fn(&Ruleset<T, M>, &Ruleset<T, M>) -> bool>(
    b: Chart<T, M>,
    a: Chart<T, M>,
    from: int,
    grammar: Seq<&Ruleset<T, M>>,
    same: F,
)
    requires
        b.extends(a),
        a.history@.len() > 0,
        0 <= from <= a.history@.last()@.len(),
        a.saturated_by_from(from, grammar, same),
        b.saturated_by_from(a.history@.last()@.len() as int, grammar, same),
    ensures
        b.saturated_by_from(from, grammar, same),
{
    let n = a.history@.len() - 1;
    assert(a.history@.last() == a.history@[n]);
    assert(b.history@.last() == b.history@[n]);
    assert forall|j: int| from <= j < b.history@.last()@.len() implies b.causes_plotted(
        #[trigger] b.history@.last()@[j],
        grammar,
    ) && b.continued_by(j, grammar, same) by {
        if j < a.history@.last()@.len() {
            assert(b.history@[n]@[j] == a.history@[n]@[j]);
            lemma_saturated_keeps(b, a, a.history@.last()@[j], grammar);
            lemma_continued_by_keeps(b, a, j, grammar, same);
        }
    }
}

/// Each pair of parents whose trial hit has its triple among the hits.
proof fn lemma_hits_member<T, M>(
    parents: Seq<(Reducible<T, M>, Reducer<T, M>)>,
    trials: Seq<Match<T, M>>,
    k: int,
)
    requires
        trials.len() == parents.len(),
        0 <= k < parents.len(),
    ensures
        trials[k] matches Match::Hit { reductum } ==> exists|j: int|
            0 <= j < hits(parents, trials).len() && #[trigger] hits(parents, trials)[j] == (
                parents[k].0,
                parents[k].1,
                reductum,
            ),
    decreases parents.len(),
{
    let n = parents.len() - 1;
    let earlier = hits(parents.drop_last(), trials.drop_last());
    if k == n {
        match trials[k] {
            Match::Hit { reductum } => {
                let j = earlier.len() as int;
                assert(hits(parents, trials)[j] == (parents[k].0, parents[k].1, reductum));
            },
            _ => {},
        }
    } else {
        lemma_hits_member(parents.drop_last(), trials.drop_last(), k);
        match trials[k] {
            Match::Hit { reductum } => {
                assert(trials.drop_last()[k] == trials[k]);
                assert(parents.drop_last()[k] == parents[k]);
                let j = choose|j: int|
                    0 <= j < earlier.len() && #[trigger] earlier[j] == (parents[k].0, parents[k].1, reductum);
                assert(hits(parents, trials)[j] == earlier[j]);
            },
            _ => {},
        }
    }
}

/// Where the reductions of the hits of a reducer's pairs were all plotted, so were those of the
/// grammar's rules.
proof fn lemma_rule_hits<T, M: Matcher<T>>(
    chart: Chart<T, M>,
    reductions: Seq<Reduction<T, M>>,
    reducer: Reducer<T, M>,
    grammar: Seq<&Ruleset<T, M>>,
    more: Seq<(Reducible<T, M>, Reducer<T, M>)>,
)
    requires
        triples(reductions) == hits(
            rules_paired_with(grammar_rules(grammar), reducer) + more,
            trials_of(rules_paired_with(grammar_rules(grammar), reducer) + more),
        ),
        forall|i: int| 0 <= i < reductions.len() ==> chart.in_last_step(Item::Reduction(#[trigger] reductions[i])),
    ensures
        chart.has_rule_hits(reducer, grammar),
{
    let rules = grammar_rules(grammar);
    let all = rules_paired_with(rules, reducer) + more;
    let trials = trials_of(all);
    assert forall|k: int| 0 <= k < rules.len() implies (
    #[trigger] grammar_rules(grammar)[k].spec_subrule().spec_matcher().spec_reduce(reducer.spec_value())
        matches Match::Hit { reductum } ==> chart.has_reduction(
        (Reducible::Rule(grammar_rules(grammar)[k]), reducer, reductum),
    )) by {
        assert(all[k] == (Reducible::Rule(rules[k]), reducer));
        assert(trials[k] == rules[k].spec_subrule().spec_matcher().spec_reduce(reducer.spec_value()));
        lemma_hits_member(all, trials, k);
        match trials[k] {
            Match::Hit { reductum } => {
                let j = choose|j: int|
                    0 <= j < hits(all, trials).len() && #[trigger] hits(all, trials)[j] == (all[k].0, all[k].1, reductum);
                assert(triples(reductions)[j] == hits(all, trials)[j]);
                assert(chart.in_last_step(Item::Reduction(reductions[j])));
            },
            _ => {},
        }
    }
}

/// What the last step holds at a position is plotted.
proof fn lemma_plotted_last_step<T, M>(c: Chart<T, M>, p: int)
    requires
        c.history@.len() > 0,
        0 <= p < c.history@.last()@.len(),
    ensures
        c.has_plotted(c.history@.last()@[p]),
{
    let n = c.history@.len() - 1;
    let h = c.history_view();
    assert(h[n] == c.history@[n]@);
    assert(h[n][p] == c.history@.last()@[p]);
}

/// Extending is transitive.
proof fn lemma_extends_trans<T, M>(c: Chart<T, M>, b: Chart<T, M>, a: Chart<T, M>)
    requires
        c.extends(b),
        b.extends(a),
    ensures
        c.extends(a),
{
    if c.history@.len() > 0 {
        let n = c.history@.len() - 1;
        assert forall|j: int| 0 <= j < a.history@[n]@.len() implies #[trigger] c.history@[n]@[j]
            == a.history@[n]@[j] by {
            assert(c.history@[n]@[j] == b.history@[n]@[j]);
        }
    }
}

impl<T, M> Default for Chart<T, M> {
    /// An empty chart.
    fn default() -> (r: Self)
        ensures
            r.wf(),
            r.spec_len() == 0,
            r.history_view() == Seq::<Seq<Item<T, M>>>::empty(),
    {
        Chart::new()
    }
}

/// A chart that extends another keeps what the other's steps plotted, where they plotted it.
proof fn lemma_extends_prefix<T, M>(b: Chart<T, M>, a: Chart<T, M>)
    requires
        b.extends(a),
    ensures
        a.history_view().len() == b.history_view().len(),
        forall|k: int|
            0 <= k < a.history_view().len() ==> a.history_view()[k].len() <= b.history_view()[k].len()
                && forall|j: int|
                0 <= j < a.history_view()[k].len() ==> #[trigger] b.history_view()[k][j]
                    == a.history_view()[k][j],
{
    assert forall|k: int| 0 <= k < a.history_view().len() implies a.history_view()[k].len()
        <= b.history_view()[k].len() && forall|j: int|
        0 <= j < a.history_view()[k].len() ==> #[trigger] b.history_view()[k][j]
            == a.history_view()[k][j] by {
        if k < a.history@.len() - 1 {
            assert(b.history@[k]@ == a.history@[k]@);
        }
    }
}

/// A chart that extends another has plotted what the other had, and the parents of what the
/// other had the parents of.
proof fn lemma_extends_keeps<T, M>(b: Chart<T, M>, a: Chart<T, M>)
    requires
        b.extends(a),
    ensures
        forall|x: Item<T, M>| a.has_plotted(x) ==> #[trigger] b.has_plotted(x),
        forall|x: Item<T, M>| a.has_parents_of(x) ==> #[trigger] b.has_parents_of(x),
        forall|p: (Reducible<T, M>, Reducer<T, M>)| a.has_pair(p) ==> #[trigger] b.has_pair(p),
{
    lemma_extends_prefix(b, a);
    let ha = a.history_view();
    let hb = b.history_view();
    assert forall|x: Item<T, M>| a.has_plotted(x) implies #[trigger] b.has_plotted(x) by {
        lemma_plotted_by_grows(ha, hb, a.history@.len() - 1, x);
    }
    assert forall|x: Item<T, M>| a.has_parents_of(x) implies #[trigger] b.has_parents_of(x) by {
        lemma_parents_plotted_grows(ha, hb, a.history@.len() - 1, x);
    }
    assert forall|p: (Reducible<T, M>, Reducer<T, M>)| a.has_pair(p) implies #[trigger] b.has_pair(p) by {
        assert(b.has_plotted(Item::Reducer(p.1)));
        match p.0 {
            Reducible::Reduction(q) => {
                assert(b.has_plotted(Item::Reduction(q)));
            },
            _ => {},
        }
    }
}

/// The rules of a ruleset, in order.
pub open(crate) spec fn rules_of<T, M>(ruleset: Ruleset<T, M>) -> Seq<Rule<T, M>> {
    Seq::new(ruleset.spec_subrules().len(), |k: int| Rule { container: ruleset, index: k as usize })
}

/// The rules of the rulesets of a grammar, ruleset after ruleset.
pub open(crate) spec fn grammar_rules<T, M>(grammar: Seq<&Ruleset<T, M>>) -> Seq<Rule<T, M>>
    decreases grammar.len(),
{
    if grammar.len() == 0 {
        Seq::empty()
    } else {
        grammar_rules(grammar.drop_last()) + rules_of(*grammar.last())
    }
}

/// For each pair of parents whose trial hit, in order: the reducible, the reducer and the
/// reductum of the hit.
pub open spec fn hits<T, M>(
    parents: Seq<(Reducible<T, M>, Reducer<T, M>)>,
    trials: Seq<Match<T, M>>,
) -> Seq<(Reducible<T, M>, Reducer<T, M>, Reductum<T, M>)>
    decreases parents.len(),
{
    if parents.len() == 0 || trials.len() == 0 {
        Seq::empty()
    } else {
        let earlier = hits(parents.drop_last(), trials.drop_last());
        match trials.last() {
            Match::Hit { reductum } => earlier.push((parents.last().0, parents.last().1, reductum)),
            _ => earlier,
        }
    }
}

/// The trial of each pair of parents: the first step of the reducible on the value of the
/// reducer.
pub open spec fn trials_of<T, M: Matcher<T>>(parents: Seq<(Reducible<T, M>, Reducer<T, M>)>) -> Seq<
    Match<T, M>,
> {
    parents.map_values(
        |p: (Reducible<T, M>, Reducer<T, M>)| p.0.spec_subrule().spec_matcher().spec_reduce(p.1.spec_value()),
    )
}

/// The reducible, reducer and reductum of each reduction, in order.
pub open spec fn triples<T, M>(reductions: Seq<Reduction<T, M>>) -> Seq<
    (Reducible<T, M>, Reducer<T, M>, Reductum<T, M>),
> {
    reductions.map_values(
        |x: Reduction<T, M>| (x.spec_reducible(), x.spec_reducer(), x.spec_reductum()),
    )
}

/// The item is a reduction still expecting more whose ruleset is one of the grammar's.
pub open spec fn open_in<T, M>(x: Item<T, M>, grammar: Seq<&Ruleset<T, M>>) -> bool {
    &&& x matches Item::Reduction(red)
    &&& red.spec_reductum() is Subrule
    &&& exists|g: int| 0 <= g < grammar.len() && *grammar[g] == red.spec_origin()
}

/// One flag for each item, and only items open in the grammar are flagged.
pub open spec fn kept_open_in<T, M>(items: Seq<Item<T, M>>, keep: Seq<bool>, grammar: Seq<&Ruleset<T, M>>) -> bool {
    &&& keep.len() == items.len()
    &&& forall|j: int| 0 <= j < keep.len() && #[trigger] keep[j] ==> open_in(items[j], grammar)
}

/// Each flagged reduction among the items paired with the reducer, in order.
pub open spec fn kept_pairs<T, M>(items: Seq<Item<T, M>>, keep: Seq<bool>, reducer: Reducer<T, M>) -> Seq<
    (Reducible<T, M>, Reducer<T, M>),
>
    decreases items.len(),
{
    if items.len() == 0 || keep.len() == 0 {
        Seq::empty()
    } else {
        let earlier = kept_pairs(items.drop_last(), keep.drop_last(), reducer);
        match items.last() {
            Item::Reduction(red) => if keep.last() {
                earlier.push((Reducible::Reduction(red), reducer))
            } else {
                earlier
            },
            _ => earlier,
        }
    }
}

/// The reduction reached a consequence whose present consequents each cover at least one
/// antecedent, and which covers no more antecedents than the reduction has.
pub open spec fn consequence_fits<T, M>(reduction: Reduction<T, M>) -> bool {
    &&& reduction.spec_reductum() matches Reductum::Consequence(c)
    &&& c.wf()
    &&& consequents_width(c.spec_consequents()) <= reduction.spec_antecedents().len()
}

/// Where each of the reductions was plotted, so was the reduction of each pair that hit.
proof fn lemma_hits_plotted<T, M>(
    chart: Chart<T, M>,
    reductions: Seq<Reduction<T, M>>,
    parents: Seq<(Reducible<T, M>, Reducer<T, M>)>,
    trials: Seq<Match<T, M>>,
)
    requires
        trials.len() == parents.len(),
        triples(reductions) == hits(parents, trials),
        forall|i: int| 0 <= i < reductions.len() ==> chart.in_last_step(Item::Reduction(#[trigger] reductions[i])),
    ensures
        chart.has_hits(parents, trials),
{
    assert forall|k: int| 0 <= k < hits(parents, trials).len() implies chart.has_reduction(
        #[trigger] hits(parents, trials)[k],
    ) by {
        assert(triples(reductions)[k] == hits(parents, trials)[k]);
        assert(chart.in_last_step(Item::Reduction(reductions[k])));
    }
}

/// `after` is `before` with one more step, whose first item is the input at the first cell of
/// the new row, and which, unless it plotted more than `usize::MAX / 2` items, holds everything
/// its items cause by themselves under the grammar; the earlier steps are unchanged.
pub open spec fn pushed<T, M: Matcher<T>>(
    before: Chart<T, M>,
    input: T,
    after: Chart<T, M>,
    grammar: Seq<&Ruleset<T, M>>,
) -> bool {
    &&& after.wf()
    &&& after.spec_len() == before.spec_len() + 1
    &&& after.history_view().drop_last() == before.history_view()
    &&& after.history_view().last()[0] matches Item::Reducer(Reducer::Input(i)) && i.spec_value()
        == input && i.spec_cursor() == before.spec_len()
    &&& after.history_view().last().len() <= usize::MAX / 2 ==> after.saturated_from(0, grammar)
}

/// The recorded steps with the last one cut to its first `j` items: what had been plotted when
/// the last step had plotted `j` items.
pub open spec fn history_upto<T, M>(hist: Seq<Seq<Item<T, M>>>, j: int) -> Seq<Seq<Item<T, M>>> {
    hist.drop_last().push(hist.last().take(j))
}

/// What the steps recorded in `hist` plotted on the cells going diagonally from the first cell of
/// row `start` towards the bottom right, up to row `end` (exclusively).
pub open spec fn diagonal_plotted<T, M>(hist: Seq<Seq<Item<T, M>>>, start: int, end: int) -> Seq<Item<T, M>>
    decreases end - start,
{
    if end <= start {
        Seq::empty()
    } else {
        diagonal_plotted(hist, start, end - 1) + plotted(hist, end - 1, end - 1 - start)
    }
}

/// What the steps recorded in `hist` plotted on the first `n` cells of row `r`, cell after cell.
pub open spec fn row_plotted<T, M>(hist: Seq<Seq<Item<T, M>>>, r: int, n: int) -> Seq<Item<T, M>>
    decreases n,
{
    if n <= 0 {
        Seq::empty()
    } else {
        row_plotted(hist, r, n - 1) + plotted(hist, r, n - 1)
    }
}

/// The continuations of an open reduction with the reducers on the diagonal from its end, as
/// plotted by the steps recorded in `hist`.
pub open spec fn continuations<T, M>(hist: Seq<Seq<Item<T, M>>>, q: Reduction<T, M>) -> Seq<
    (Reducible<T, M>, Reducer<T, M>),
> {
    paired_with(Reducible::Reduction(q), reducers_in(diagonal_plotted(hist, q.spec_end(), hist.len() as int)))
}

/// One flag for each item of the row before the reducer's start, as plotted by the steps recorded
/// in `hist`, where there is such a row; only reductions still expecting more whose ruleset is one
/// of the grammar's are flagged.
pub open spec fn flags_fit<T, M>(
    hist: Seq<Seq<Item<T, M>>>,
    reducer: Reducer<T, M>,
    keep: Seq<bool>,
    grammar: Seq<&Ruleset<T, M>>,
) -> bool {
    0 < reducer.spec_start() <= hist.len() ==> kept_open_in(
        row_plotted(hist, reducer.spec_start() - 1, reducer.spec_start()),
        keep,
        grammar,
    )
}

/// The flagged reductions of the row before the reducer's start, as plotted by the steps recorded
/// in `hist`, each paired with the reducer; none where there is no such row.
pub open spec fn flagged_pairs<T, M>(hist: Seq<Seq<Item<T, M>>>, reducer: Reducer<T, M>, keep: Seq<bool>) -> Seq<
    (Reducible<T, M>, Reducer<T, M>),
> {
    if 0 < reducer.spec_start() <= hist.len() {
        kept_pairs(row_plotted(hist, reducer.spec_start() - 1, reducer.spec_start()), keep, reducer)
    } else {
        Seq::empty()
    }
}

/// Each flagged reduction among the items, paired with the reducer, in order. This is what the
/// chart continues a reducer with, once the flags have been set.
pub fn pair_flagged<T, M>(items: &Vec<Item<T, M>>, keep: &Vec<bool>, reducer: &Reducer<T, M>) -> (r: Vec<
    (Reducible<T, M>, Reducer<T, M>),
>)
    requires
        keep@.len() == items@.len(),
    ensures
        r@ == kept_pairs(items@, keep@, *reducer),
{
    let mut r: Vec<(Reducible<T, M>, Reducer<T, M>)> = Vec::new();
    let mut i: usize = 0;
    proof {
        assert(items@.take(0) =~= Seq::<Item<T, M>>::empty());
    }
    while i < items.len()
        invariant
            keep@.len() == items@.len(),
            i <= items@.len(),
            r@ == kept_pairs(items@.take(i as int), keep@.take(i as int), *reducer),
        decreases items@.len() - i,
    {
        proof {
            assert(items@.take(i + 1).drop_last() =~= items@.take(i as int));
            assert(keep@.take(i + 1).drop_last() =~= keep@.take(i as int));
            assert(items@.take(i + 1).last() == items@[i as int]);
            assert(keep@.take(i + 1).last() == keep@[i as int]);
        }
        match &items[i] {
            Item::Reduction(red) => {
                if keep[i] {
                    r.push((Reducible::Reduction(red.clone()), reducer.clone()));
                }
            },
            _ => {},
        }
        i = i + 1;
    }
    proof {
        assert(items@.take(i as int) =~= items@);
        assert(keep@.take(i as int) =~= keep@);
    }
    r
}

/// Each flagged pair comes from a flagged reduction among the items.
proof fn lemma_kept_pairs_member<T, M>(items: Seq<Item<T, M>>, keep: Seq<bool>, reducer: Reducer<T, M>, k: int)
    requires
        keep.len() == items.len(),
        0 <= k < kept_pairs(items, keep, reducer).len(),
    ensures
        exists|m: int|
            0 <= m < items.len() && #[trigger] keep[m] && (items[m] matches Item::Reduction(q)
                && kept_pairs(items, keep, reducer)[k] == (Reducible::Reduction(q), reducer)),
    decreases items.len(),
{
    let earlier = kept_pairs(items.drop_last(), keep.drop_last(), reducer);
    let n = items.len() - 1;
    if k < earlier.len() {
        lemma_kept_pairs_member(items.drop_last(), keep.drop_last(), reducer, k);
        let m = choose|m: int|
            0 <= m < items.drop_last().len() && #[trigger] keep.drop_last()[m] && (items.drop_last()[m] matches Item::Reduction(q)
                && earlier[k] == (Reducible::Reduction(q), reducer));
        assert(keep[m] && items[m] == items.drop_last()[m]);
        assert(kept_pairs(items, keep, reducer)[k] == earlier[k]);
    } else {
        assert(keep[n] && items[n] is Reduction);
    }
}

/// Flags for the row before the reducer's start, as plotted by the steps recorded in `hist`, set
/// as `flags_by` says, where there is such a row.
pub open spec fn flags_fit_by<T, M, F: Fn(&Ruleset<T, M>, &Ruleset<T, M>) -> bool>(
    hist: Seq<Seq<Item<T, M>>>,
    reducer: Reducer<T, M>,
    keep: Seq<bool>,
    grammar: Seq<&Ruleset<T, M>>,
    same: F,
) -> bool {
    0 < reducer.spec_start() <= hist.len() ==> flags_by(
        row_plotted(hist, reducer.spec_start() - 1, reducer.spec_start()),
        keep,
        grammar,
        same,
    )
}

/// `after` is `before` pushed with the input as `pushed` says, where moreover the reductions
/// still expecting more that each reducer of the step was continued with are exactly those
/// whose ruleset `same` found among the grammar's.
pub open spec fn pushed_by<T, M: Matcher<T>, F: Fn(&Ruleset<T, M>, &Ruleset<T, M>) -> bool>(
    before: Chart<T, M>,
    input: T,
    after: Chart<T, M>,
    grammar: Seq<&Ruleset<T, M>>,
    same: F,
) -> bool {
    &&& pushed(before, input, after, grammar)
    &&& after.history_view().last().len() <= usize::MAX / 2 ==> after.saturated_by_from(0, grammar, same)
}

/// Continued with flags that `same` set exactly is continued.
proof fn lemma_saturated_by_weakens<T, M: Matcher<T>, F: Fn(&Ruleset<T, M>, &Ruleset<T, M>) -> bool>(
    chart: Chart<T, M>,
    from: int,
    grammar: Seq<&Ruleset<T, M>>,
    same: F,
)
    ensures
        chart.saturated_by_from(from, grammar, same) ==> chart.saturated_from(from, grammar),
{
    if chart.saturated_by_from(from, grammar, same) {
        assert forall|j: int| from <= j < chart.history@.last()@.len() implies chart.causes_plotted(
            #[trigger] chart.history@.last()@[j],
            grammar,
        ) && chart.continued_at(j, grammar) by {
            assert(chart.continued_by(j, grammar, same));
            let hist = history_upto(chart.history_view(), j + 1);
            if let Item::Reducer(r) = chart.history@.last()@[j] {
                let keep = choose|keep: Seq<bool>|
                    flags_fit(hist, r, keep, grammar) && flags_fit_by(hist, r, keep, grammar, same)
                        && #[trigger] chart.has_hits(flagged_pairs(hist, r, keep), trials_of(flagged_pairs(hist, r, keep)));
                assert(flags_fit(hist, r, keep, grammar) && chart.has_hits(flagged_pairs(hist, r, keep), trials_of(flagged_pairs(hist, r, keep))));
            }
        }
    }
}

/// `same` answers `true` only of equal rulesets.
pub open spec fn tells_only_equal<T, M, F: Fn(&Ruleset<T, M>, &Ruleset<T, M>) -> bool>(same: F) -> bool {
    forall|a: &Ruleset<T, M>, b: &Ruleset<T, M>| #[trigger] same.ensures((a, b), true) ==> *a == *b
}

/// The flag of an item is set exactly when it is a reduction still expecting more whose
/// ruleset `same` found among the grammar's: set, `same` answered `true` on some ruleset of the
/// grammar, at any position; unset for such a reduction, it answered `false` on each of them.
pub open spec fn flag_by<T, M, F: Fn(&Ruleset<T, M>, &Ruleset<T, M>) -> bool>(
    x: Item<T, M>,
    flag: bool,
    grammar: Seq<&Ruleset<T, M>>,
    same: F,
) -> bool {
    match x {
        Item::Reduction(q) => if q.spec_reductum() is Subrule {
            &&& flag ==> exists|g: int|
                0 <= g < grammar.len() && #[trigger] same.ensures((grammar[g], &q.spec_origin()), true)
            &&& !flag ==> forall|g: int|
                0 <= g < grammar.len() ==> #[trigger] same.ensures((grammar[g], &q.spec_origin()), false)
        } else {
            !flag
        },
        Item::Reducer(_) => !flag,
    }
}

/// One flag for each item, each set exactly as `flag_by` says.
pub open spec fn flags_by<T, M, F: Fn(&Ruleset<T, M>, &Ruleset<T, M>) -> bool>(
    items: Seq<Item<T, M>>,
    keep: Seq<bool>,
    grammar: Seq<&Ruleset<T, M>>,
    same: F,
) -> bool {
    &&& keep.len() == items.len()
    &&& forall|k: int| 0 <= k < items.len() ==> #[trigger] flag_by(items[k], keep[k], grammar, same)
}

/// Where `same` answers as a relation `s` does, flags set as `flags_by` says are set exactly on
/// the reductions still expecting more whose ruleset `s` relates to one of the grammar's, at any
/// position.
pub proof fn law_flags_by_pick_the_grammar_s<T, M, F: Fn(&Ruleset<T, M>, &Ruleset<T, M>) -> bool>(
    items: Seq<Item<T, M>>,
    keep: Seq<bool>,
    grammar: Seq<&Ruleset<T, M>>,
    same: F,
    s: spec_fn(Ruleset<T, M>, Ruleset<T, M>) -> bool,
)
    requires
        flags_by(items, keep, grammar, same),
        forall|a: &Ruleset<T, M>, b: &Ruleset<T, M>, k: bool| #[trigger] same.ensures((a, b), k) ==> k == s(*a, *b),
    ensures
        forall|k: int|
            0 <= k < items.len() ==> #[trigger] keep[k] == (items[k] matches Item::Reduction(q)
                && q.spec_reductum() is Subrule && in_grammar_under(grammar, s, q.spec_origin())),
{
    assert forall|k: int| 0 <= k < items.len() implies #[trigger] keep[k] == (items[k] matches Item::Reduction(q)
        && q.spec_reductum() is Subrule && in_grammar_under(grammar, s, q.spec_origin())) by {
        assert(flag_by(items[k], keep[k], grammar, same));
        if let Item::Reduction(q) = items[k] {
            if q.spec_reductum() is Subrule {
                if keep[k] {
                    let g = choose|g: int| 0 <= g < grammar.len() && #[trigger] same.ensures((grammar[g], &q.spec_origin()), true);
                    assert(s(*grammar[g], q.spec_origin()));
                } else {
                    assert forall|g: int| 0 <= g < grammar.len() implies !s(*grammar[g], q.spec_origin()) by {
                        assert(same.ensures((grammar[g], &q.spec_origin()), false));
                    }
                }
            }
        }
    }
}

/// The diagonal of a consistent chart holds what its steps plotted there.
proof fn lemma_diagonal_plotted<T, M>(c: Chart<T, M>, start: int, end: int)
    requires
        c.consistent(),
    ensures
        diagonal_items(c, start, end) == diagonal_plotted(c.history_view(), start, end),
    decreases end - start,
{
    if end > start {
        lemma_diagonal_plotted(c, start, end - 1);
        assert(c.cell_view(end - 1, end - 1 - start) == plotted(c.history_view(), end - 1, end - 1 - start));
    }
}

/// A row of a consistent chart holds what its steps plotted there.
proof fn lemma_row_plotted<T, M>(c: Chart<T, M>, r: int)
    requires
        c.consistent(),
        0 <= r < c.spec_len(),
    ensures
        c.row_view(r) == row_plotted(c.history_view(), r, r + 1),
{
    let cells = c.table@[r]@.map_values(|v: Vec<Item<T, M>>| v@);
    let m = cells.len() as int;
    assert(m <= r + 1);
    assert forall|n: int| 0 <= n <= m implies row_items(#[trigger] cells.take(n)) == row_plotted(
        c.history_view(),
        r,
        n,
    ) by {
        lemma_row_prefix(c, r, n);
    }
    assert(cells.take(m) =~= cells);
    lemma_row_tail_empty(c, r, r + 1);
}

/// The first `n` cells of a row of a consistent chart hold what its steps plotted there.
proof fn lemma_row_prefix<T, M>(c: Chart<T, M>, r: int, n: int)
    requires
        c.consistent(),
        0 <= r < c.spec_len(),
        0 <= n <= c.table@[r]@.len(),
    ensures
        row_items(c.table@[r]@.map_values(|v: Vec<Item<T, M>>| v@).take(n)) == row_plotted(
            c.history_view(),
            r,
            n,
        ),
    decreases n,
{
    let cells = c.table@[r]@.map_values(|v: Vec<Item<T, M>>| v@);
    if n > 0 {
        lemma_row_prefix(c, r, n - 1);
        assert(cells.take(n).drop_last() =~= cells.take(n - 1));
        assert(cells.take(n).last() == c.cell_view(r, n - 1));
        assert(c.cell_view(r, n - 1) == plotted(c.history_view(), r, n - 1));
    } else {
        assert(cells.take(0) =~= Seq::<Seq<Item<T, M>>>::empty());
    }
}

/// Past the cells a row of a consistent chart has, its steps plotted nothing.
proof fn lemma_row_tail_empty<T, M>(c: Chart<T, M>, r: int, n: int)
    requires
        c.consistent(),
        0 <= r < c.spec_len(),
        c.table@[r]@.len() <= n,
    ensures
        row_plotted(c.history_view(), r, n) == row_plotted(c.history_view(), r, c.table@[r]@.len() as int),
    decreases n,
{
    if n > c.table@[r]@.len() {
        lemma_row_tail_empty(c, r, n - 1);
        assert(c.cell_view(r, n - 1) == plotted(c.history_view(), r, n - 1));
        assert(c.cell_view(r, n - 1) =~= Seq::<Item<T, M>>::empty());
        assert(row_plotted(c.history_view(), r, n) =~= row_plotted(c.history_view(), r, n - 1));
    }
}

/// The items a run plots at a cell begin with those its first `m` items plot there.
proof fn lemma_items_at_prefix<T, M>(items: Seq<Item<T, M>>, m: int, r: int, o: int)
    requires
        0 <= m <= items.len(),
    ensures
        items_at(items.take(m), r, o).len() <= items_at(items, r, o).len(),
        items_at(items, r, o).take(items_at(items.take(m), r, o).len() as int) == items_at(items.take(m), r, o),
    decreases items.len(),
{
    if m == items.len() {
        assert(items.take(m) =~= items);
        assert(items_at(items, r, o).take(items_at(items, r, o).len() as int) =~= items_at(items, r, o));
    } else {
        assert(items.drop_last().take(m) =~= items.take(m));
        lemma_items_at_prefix(items.drop_last(), m, r, o);
        let a = items_at(items.take(m), r, o);
        let b = items_at(items.drop_last(), r, o);
        assert(items_at(items, r, o).take(a.len() as int) =~= b.take(a.len() as int));
    }
}

/// What the steps plot at a cell begins with what the first `m` steps plot there.
proof fn lemma_plotted_prefix<T, M>(hist: Seq<Seq<Item<T, M>>>, m: int, r: int, o: int)
    requires
        0 <= m <= hist.len(),
    ensures
        plotted(hist.take(m), r, o).len() <= plotted(hist, r, o).len(),
        plotted(hist, r, o).take(plotted(hist.take(m), r, o).len() as int) == plotted(hist.take(m), r, o),
    decreases hist.len(),
{
    if m == hist.len() {
        assert(hist.take(m) =~= hist);
        assert(plotted(hist, r, o).take(plotted(hist, r, o).len() as int) =~= plotted(hist, r, o));
    } else {
        assert(hist.drop_last().take(m) =~= hist.take(m));
        lemma_plotted_prefix(hist.drop_last(), m, r, o);
        let a = plotted(hist.take(m), r, o);
        let b = plotted(hist.drop_last(), r, o);
        assert(plotted(hist, r, o).take(a.len() as int) =~= b.take(a.len() as int));
    }
}

/// In a well-formed chart, the first item of the first cell of each row is that row's input.
pub proof fn law_rows_begin_with_their_input<T, M>(chart: Chart<T, M>)
    requires
        chart.wf(),
    ensures
        forall|r: int|
            0 <= r < chart.spec_len() ==> #[trigger] chart.cell_view(r, 0).len() >= 1 && (chart.cell_view(
                r,
                0,
            )[0] matches Item::Reducer(Reducer::Input(i)) && i.spec_cursor() == r),
{
    assert forall|r: int| 0 <= r < chart.spec_len() implies #[trigger] chart.cell_view(r, 0).len() >= 1
        && (chart.cell_view(r, 0)[0] matches Item::Reducer(Reducer::Input(i)) && i.spec_cursor() == r) by {
        lemma_row_begins_with_input(chart, r);
    }
}

/// In a well-formed chart, the first item of the first cell of row `r` is that row's input.
proof fn lemma_row_begins_with_input<T, M>(chart: Chart<T, M>, r: int)
    requires
        chart.wf(),
        0 <= r < chart.spec_len(),
    ensures
        chart.cell_view(r, 0).len() >= 1,
        chart.cell_view(r, 0)[0] matches Item::Reducer(Reducer::Input(i)) && i.spec_cursor() == r,
{
    let hv = chart.history_view();
    let h = hv.take(r + 1);
    assert(hv[r] == chart.history@[r]@);
    let step = hv[r];
    assert(step.len() >= 1);
    let x = step[0];
    assert(x matches Item::Reducer(Reducer::Input(i)) && i.spec_cursor() == r);
    assert(x.spec_cursor() == r && x.spec_offset() == 0);
    assert(h.drop_last() =~= hv.take(r));
    assert(h.last() == step);
    assert forall|k: int| 0 <= k < hv.take(r).len() implies items_below(#[trigger] hv.take(r)[k], k + 1) by {
        assert(hv.take(r)[k] == chart.history@[k]@);
    }
    lemma_plotted_outside(hv.take(r), r, 0);
    assert(plotted(h, r, 0) =~= items_at(step, r, 0));
    lemma_items_at_prefix(step, 1, r, 0);
    assert(step.take(1).drop_last() =~= Seq::<Item<T, M>>::empty());
    assert(step.take(1).last() == x);
    assert(items_at(step.take(1).drop_last(), r, 0) == Seq::<Item<T, M>>::empty());
    assert(items_at(step.take(1), r, 0) =~= seq![x]);
    let a = items_at(step, r, 0);
    assert(a.len() >= 1);
    assert(a.take(1) == seq![x]);
    assert(a.take(1)[0] == a[0]);
    assert(a[0] == x);
    lemma_plotted_prefix(hv, r + 1, r, 0);
    let p = plotted(hv, r, 0);
    assert(p.take(a.len() as int) == a);
    assert(p[0] == p.take(a.len() as int)[0]);
    assert(chart.cell_view(r, 0) == plotted(hv, r, 0));
    assert(chart.cell_view(r, 0)[0] == x);
}

/// What a chart had plotted when its last step held as many items as that of a chart it extends
/// is that chart's history.
proof fn lemma_upto_extends<T, M>(b: Chart<T, M>, a: Chart<T, M>)
    requires
        b.extends(a),
        a.history@.len() > 0,
    ensures
        history_upto(b.history_view(), a.history@.last()@.len() as int) == a.history_view(),
{
    let n = a.history@.len() - 1;
    let hb = b.history_view();
    let ha = a.history_view();
    assert(hb.last() == b.history@[n]@);
    assert(ha.last() == a.history@[n]@);
    assert(hb.last().take(a.history@.last()@.len() as int) =~= ha.last());
    assert forall|k: int| 0 <= k < n implies hb[k] == ha[k] by {
        assert(b.history@[k]@ == a.history@[k]@);
    }
    assert(history_upto(hb, a.history@.last()@.len() as int) =~= ha);
}

/// Where the hits of two runs of pairs were plotted, so were those of the second run.
proof fn lemma_has_hits_suffix<T, M: Matcher<T>>(
    chart: Chart<T, M>,
    a: Seq<(Reducible<T, M>, Reducer<T, M>)>,
    b: Seq<(Reducible<T, M>, Reducer<T, M>)>,
)
    requires
        chart.has_hits(a + b, trials_of(a + b)),
    ensures
        chart.has_hits(b, trials_of(b)),
{
    lemma_hits_concat(a, b);
    let ha = hits(a, trials_of(a));
    assert forall|k: int| 0 <= k < hits(b, trials_of(b)).len() implies chart.has_reduction(
        #[trigger] hits(b, trials_of(b))[k],
    ) by {
        assert(hits(a + b, trials_of(a + b))[ha.len() + k] == hits(b, trials_of(b))[k]);
    }
}

/// The hits of two runs of pairs are those of the first run followed by those of the second.
proof fn lemma_hits_concat<T, M: Matcher<T>>(
    a: Seq<(Reducible<T, M>, Reducer<T, M>)>,
    b: Seq<(Reducible<T, M>, Reducer<T, M>)>,
)
    ensures
        hits(a + b, trials_of(a + b)) == hits(a, trials_of(a)) + hits(b, trials_of(b)),
    decreases b.len(),
{
    if b.len() == 0 {
        assert(a + b =~= a);
        assert(hits(b, trials_of(b)) =~= Seq::<(Reducible<T, M>, Reducer<T, M>, Reductum<T, M>)>::empty());
    } else {
        lemma_hits_concat(a, b.drop_last());
        assert((a + b).drop_last() =~= a + b.drop_last());
        assert(trials_of(a + b).drop_last() =~= trials_of(a + b.drop_last()));
        assert(trials_of(b).drop_last() =~= trials_of(b.drop_last()));
        assert((a + b).last() == b.last());
    }
}

/// Each of the rules paired with the same reducer, in order.
pub open spec fn rules_paired_with<T, M>(rules: Seq<Rule<T, M>>, reducer: Reducer<T, M>) -> Seq<
    (Reducible<T, M>, Reducer<T, M>),
> {
    Seq::new(rules.len(), |i: int| (Reducible::Rule(rules[i]), reducer))
}

/// Each of the reducers paired with the same reducible, in order.
pub open spec fn paired_with<T, M>(reducible: Reducible<T, M>, reducers: Seq<Reducer<T, M>>) -> Seq<
    (Reducible<T, M>, Reducer<T, M>),
> {
    Seq::new(reducers.len(), |i: int| (reducible, reducers[i]))
}

/// The reducers among two runs of items are those of the first run followed by those of the
/// second.
proof fn lemma_reducers_in_concat<T, M>(a: Seq<Item<T, M>>, b: Seq<Item<T, M>>)
    ensures
        reducers_in(a + b) == reducers_in(a) + reducers_in(b),
    decreases b.len(),
{
    if b.len() == 0 {
        assert(a + b =~= a);
        assert(reducers_in(b) =~= Seq::<Reducer<T, M>>::empty());
        assert(reducers_in(a) + reducers_in(b) =~= reducers_in(a));
    } else {
        lemma_reducers_in_concat(a, b.drop_last());
        assert((a + b).drop_last() =~= a + b.drop_last());
        assert((a + b).last() == b.last());
        match b.last() {
            Item::Reducer(x) => {
                assert(reducers_in(a) + reducers_in(b.drop_last()).push(x) =~= (reducers_in(a)
                    + reducers_in(b.drop_last())).push(x));
            },
            _ => {},
        }
    }
}

/// Two consistent charts that recorded the same steps hold the same items in every cell.
pub proof fn lemma_cells_determined_by_history<T, M>(a: Chart<T, M>, b: Chart<T, M>)
    requires
        a.consistent(),
        b.consistent(),
        a.history_view() == b.history_view(),
    ensures
        forall|r: int, o: int| #[trigger] a.cell_view(r, o) == b.cell_view(r, o),
{
    assert forall|r: int, o: int| #[trigger] a.cell_view(r, o) == b.cell_view(r, o) by {
        assert(a.cell_view(r, o) == plotted(a.history_view(), r, o));
        assert(b.cell_view(r, o) == plotted(b.history_view(), r, o));
    }
}

/// Undoing a parsing step restores the chart: when `pushed` is what [`Chart::push`] made of
/// `before` with `input`, and `popped` is what [`Chart::pop`] then made of `pushed`, `popped`
/// has the rows, the cells and the history of `before`, and the input handed back by the pop
/// is the one that was pushed.
pub proof fn law_pop_undoes_push<T, M>(
    before: Chart<T, M>,
    input: T,
    pushed: Chart<T, M>,
    popped: Chart<T, M>,
    returned: Option<Input<T>>,
)
    requires
        before.wf(),
        pushed.wf(),
        popped.wf(),
        pushed.spec_len() == before.spec_len() + 1,
        pushed.history_view().drop_last() == before.history_view(),
        pushed.history_view().last()[0] matches Item::Reducer(Reducer::Input(i)) && i.spec_value()
            == input && i.spec_cursor() == before.spec_len(),
        popped.spec_len() == pushed.spec_len() - 1,
        popped.history_view() == pushed.history_view().drop_last(),
        pushed.history_view().last()[0] matches Item::Reducer(Reducer::Input(i)) && returned == Some(i),
    ensures
        popped.spec_len() == before.spec_len(),
        popped.history_view() == before.history_view(),
        forall|r: int, o: int| #[trigger] popped.cell_view(r, o) == before.cell_view(r, o),
        returned matches Some(i) && i.spec_value() == input && i.spec_cursor() == before.spec_len(),
{
    lemma_cells_determined_by_history(popped, before);
}

/// One end of a range of inputs: included, excluded, or left open.
#[derive(Clone, Copy, Debug, PartialEq, Eq, Structural)]
pub enum Endpoint {
    Included(usize),
    Excluded(usize),
    Unbounded,
}

/// Where a range that begins at `start` starts: at an included position, after an excluded
/// one, or at the first input when left open.
pub open spec fn start_of(start: Endpoint) -> int {
    match start {
        Endpoint::Included(s) => s as int,
        Endpoint::Excluded(s) => s + 1,
        Endpoint::Unbounded => 0,
    }
}

/// Where a range that finishes at `end` ends (exclusively): after an included position, at an
/// excluded one, or after the last of `len` inputs when left open.
pub open spec fn end_of(end: Endpoint, len: nat) -> int {
    match end {
        Endpoint::Included(e) => e + 1,
        Endpoint::Excluded(e) => e as int,
        Endpoint::Unbounded => len as int,
    }
}

impl<T, M> Chart<T, M> {
    /// The range of rows between the two ends, each clamped to the number of rows.
    pub fn range_from(&self, start: Endpoint, end: Endpoint) -> (r: Range<usize>)
        requires
            start != Endpoint::Excluded(usize::MAX),
            end != Endpoint::Included(usize::MAX),
        ensures
            r.start == if start_of(start) < self.spec_len() {
                start_of(start)
            } else {
                self.spec_len() as int
            },
            r.end == if end_of(end, self.spec_len()) < self.spec_len() {
                end_of(end, self.spec_len())
            } else {
                self.spec_len() as int
            },
    {
        let len = self.table.len();
        let first: usize = match start {
            Endpoint::Included(s) => s,
            Endpoint::Excluded(s) => s + 1,
            Endpoint::Unbounded => 0,
        };
        let last: usize = match end {
            Endpoint::Included(e) => e + 1,
            Endpoint::Excluded(e) => e,
            Endpoint::Unbounded => len,
        };
        let first = if first < len { first } else { len };
        let last = if last < len { last } else { len };
        first..last
    }
}

/// `x` clamped to at most `len`.
pub open spec fn clamp(x: usize, len: nat) -> int {
    if x < len {
        x as int
    } else {
        len as int
    }
}

/// The items of a row, cell after cell.
pub open spec fn row_items<T, M>(cells: Seq<Seq<Item<T, M>>>) -> Seq<Item<T, M>>
    decreases cells.len(),
{
    if cells.len() == 0 {
        Seq::empty()
    } else {
        row_items(cells.drop_last()) + cells.last()
    }
}

/// The items on the diagonal that starts at the first cell of row `start`, up to row `end`
/// (exclusively): the cells `(start + k, k)`.
pub open(crate) spec fn diagonal_items<T, M>(chart: Chart<T, M>, start: int, end: int) -> Seq<Item<T, M>>
    decreases end - start,
{
    if end <= start {
        Seq::empty()
    } else {
        diagonal_items(chart, start, end - 1) + chart.cell_view(end - 1, end - 1 - start)
    }
}

} // verus!
