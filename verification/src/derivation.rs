//! Where the items of a chart come from: each was plotted after the items it was derived from.
use crate::chart::{items_at, plotted, Chart};
use crate::items::{Item, Reducer, Reducible};
use crate::grammar::consequents_width;
use vstd::prelude::*;

verus! {

/// `x` was plotted by one of the steps recorded in `hist`, up to the `upto`-th.
pub open spec fn plotted_by<T, M>(hist: Seq<Seq<Item<T, M>>>, upto: int, x: Item<T, M>) -> bool {
    exists|k: int, j: int|
        0 <= k <= upto && k < hist.len() && 0 <= j < hist[k].len() && #[trigger] hist[k][j] == x
}

/// The items `x` was derived from were plotted by the steps up to the `upto`-th: for a
/// reduction, its reducer and, when it continues a reduction, that reduction; for a conclusion,
/// the reduction that yielded it. An input is derived from nothing.
pub open spec fn parents_plotted<T, M>(hist: Seq<Seq<Item<T, M>>>, upto: int, x: Item<T, M>) -> bool {
    match x {
        Item::Reducer(Reducer::Input(_)) => true,
        Item::Reducer(Reducer::Conclusion(c)) => plotted_by(
            hist,
            upto,
            Item::Reduction(c.spec_reduction()),
        ),
        Item::Reduction(r) => {
            &&& plotted_by(hist, upto, Item::Reducer(r.spec_reducer()))
            &&& match r.spec_reducible() {
                Reducible::Rule(_) => true,
                Reducible::Reduction(p) => plotted_by(hist, upto, Item::Reduction(p)),
            }
        },
    }
}

/// Every item was plotted by the step that plotted the items it was derived from, or by a
/// later one.
pub open spec fn derived<T, M>(hist: Seq<Seq<Item<T, M>>>) -> bool {
    forall|k: int, j: int|
        0 <= k < hist.len() && 0 <= j < hist[k].len() ==> parents_plotted(hist, k, #[trigger] hist[k][j])
}

/// What the steps plotted stays plotted when a step plots more, or when a new step is recorded.
pub proof fn lemma_plotted_by_grows<T, M>(a: Seq<Seq<Item<T, M>>>, b: Seq<Seq<Item<T, M>>>, upto: int, x: Item<T, M>)
    requires
        plotted_by(a, upto, x),
        a.len() <= b.len(),
        forall|k: int|
            0 <= k < a.len() ==> a[k].len() <= b[k].len() && forall|j: int|
                0 <= j < a[k].len() ==> #[trigger] b[k][j] == a[k][j],
    ensures
        plotted_by(b, upto, x),
{
    let (k, j) = choose|k: int, j: int|
        0 <= k <= upto && k < a.len() && 0 <= j < a[k].len() && #[trigger] a[k][j] == x;
    assert(b[k][j] == a[k][j]);
}

/// The parents of an item stay plotted when steps plot more.
pub proof fn lemma_parents_plotted_grows<T, M>(
    a: Seq<Seq<Item<T, M>>>,
    b: Seq<Seq<Item<T, M>>>,
    upto: int,
    x: Item<T, M>,
)
    requires
        parents_plotted(a, upto, x),
        a.len() <= b.len(),
        forall|k: int|
            0 <= k < a.len() ==> a[k].len() <= b[k].len() && forall|j: int|
                0 <= j < a[k].len() ==> #[trigger] b[k][j] == a[k][j],
    ensures
        parents_plotted(b, upto, x),
{
    match x {
        Item::Reducer(Reducer::Input(_)) => {},
        Item::Reducer(Reducer::Conclusion(c)) => {
            lemma_plotted_by_grows(a, b, upto, Item::Reduction(c.spec_reduction()));
        },
        Item::Reduction(r) => {
            lemma_plotted_by_grows(a, b, upto, Item::Reducer(r.spec_reducer()));
            match r.spec_reducible() {
                Reducible::Rule(_) => {},
                Reducible::Reduction(p) => {
                    lemma_plotted_by_grows(a, b, upto, Item::Reduction(p));
                },
            }
        },
    }
}

/// Derivation is kept when steps plot more, as long as what they plot has its parents plotted.
pub proof fn lemma_derived_grows<T, M>(a: Seq<Seq<Item<T, M>>>, b: Seq<Seq<Item<T, M>>>)
    requires
        derived(a),
        a.len() <= b.len(),
        forall|k: int|
            0 <= k < a.len() ==> a[k].len() <= b[k].len() && forall|j: int|
                0 <= j < a[k].len() ==> #[trigger] b[k][j] == a[k][j],
        forall|k: int, j: int|
            0 <= k < b.len() && 0 <= j < b[k].len() && !(k < a.len() && j < a[k].len())
                ==> parents_plotted(b, k, #[trigger] b[k][j]),
    ensures
        derived(b),
{
    assert forall|k: int, j: int| 0 <= k < b.len() && 0 <= j < b[k].len() implies parents_plotted(
        b,
        k,
        #[trigger] b[k][j],
    ) by {
        if k < a.len() && j < a[k].len() {
            assert(b[k][j] == a[k][j]);
            assert(parents_plotted(a, k, a[k][j]));
            lemma_parents_plotted_grows(a, b, k, a[k][j]);
        }
    }
}

/// Dropping the last step keeps derivation: what earlier steps plotted was derived from what
/// they or steps before them plotted.
pub proof fn lemma_derived_drop_last<T, M>(hist: Seq<Seq<Item<T, M>>>)
    requires
        derived(hist),
        hist.len() > 0,
    ensures
        derived(hist.drop_last()),
{
    let h = hist.drop_last();
    assert forall|k: int, j: int| 0 <= k < h.len() && 0 <= j < h[k].len() implies parents_plotted(
        h,
        k,
        #[trigger] h[k][j],
    ) by {
        assert(h[k] == hist[k]);
        let x = hist[k][j];
        assert(parents_plotted(hist, k, x));
        assert forall|y: Item<T, M>| plotted_by(hist, k, y) implies plotted_by(h, k, y) by {
            let (k2, j2) = choose|k2: int, j2: int|
                0 <= k2 <= k && k2 < hist.len() && 0 <= j2 < hist[k2].len() && #[trigger] hist[k2][j2]
                    == y;
            assert(h[k2] == hist[k2]);
            assert(h[k2][j2] == y);
        }
    }
}

/// An item in a cell of a consistent chart was plotted by one of its steps.
pub proof fn lemma_cell_item_plotted<T, M>(chart: Chart<T, M>, r: int, o: int, i: int)
    requires
        chart.consistent(),
        0 <= i < chart.cell_view(r, o).len(),
    ensures
        plotted_by(chart.history_view(), chart.history_view().len() - 1, chart.cell_view(r, o)[i]),
{
    lemma_plotted_member(chart.history_view(), r, o, i);
}

/// Each item plotted into a cell is an item of one of the steps.
proof fn lemma_plotted_member<T, M>(hist: Seq<Seq<Item<T, M>>>, r: int, o: int, i: int)
    requires
        0 <= i < plotted(hist, r, o).len(),
    ensures
        plotted_by(hist, hist.len() - 1, plotted(hist, r, o)[i]),
    decreases hist.len(),
{
    if hist.len() > 0 {
        let prev = plotted(hist.drop_last(), r, o);
        let here = items_at(hist.last(), r, o);
        assert(plotted(hist, r, o) == prev + here);
        if i < prev.len() {
            lemma_plotted_member(hist.drop_last(), r, o, i);
            assert((prev + here)[i] == prev[i]);
            let (k, j) = choose|k: int, j: int|
                0 <= k <= hist.drop_last().len() - 1 && k < hist.drop_last().len() && 0 <= j
                    < hist.drop_last()[k].len() && #[trigger] hist.drop_last()[k][j] == prev[i];
            assert(hist[k] == hist.drop_last()[k]);
            assert(hist[k][j] == prev[i]);
        } else {
            assert((prev + here)[i] == here[i - prev.len()]);
            let j = lemma_items_at_member(hist.last(), r, o, i - prev.len());
            assert(hist[hist.len() - 1] == hist.last());
            assert(hist[hist.len() - 1][j] == here[i - prev.len()]);
        }
    }
}

/// Each item that belongs to a cell is one of the items it was picked from.
proof fn lemma_items_at_member<T, M>(items: Seq<Item<T, M>>, r: int, o: int, i: int) -> (j: int)
    requires
        0 <= i < items_at(items, r, o).len(),
    ensures
        0 <= j < items.len(),
        items[j] == items_at(items, r, o)[i],
    decreases items.len(),
{
    let rest = items_at(items.drop_last(), r, o);
    if i < rest.len() {
        let j = lemma_items_at_member(items.drop_last(), r, o, i);
        assert(items[j] == items.drop_last()[j]);
        j
    } else {
        items.len() - 1
    }
}

/// An item of one of the steps lies in the cell of its address.
pub proof fn lemma_member_plotted<T, M>(hist: Seq<Seq<Item<T, M>>>, k: int, j: int)
    requires
        0 <= k < hist.len(),
        0 <= j < hist[k].len(),
    ensures
        plotted(hist, hist[k][j].spec_cursor(), hist[k][j].spec_offset()).contains(hist[k][j]),
    decreases hist.len(),
{
    let x = hist[k][j];
    let r = x.spec_cursor();
    let o = x.spec_offset();
    let prev = plotted(hist.drop_last(), r, o);
    let here = items_at(hist.last(), r, o);
    assert(plotted(hist, r, o) == prev + here);
    if k < hist.len() - 1 {
        assert(hist.drop_last()[k] == hist[k]);
        lemma_member_plotted(hist.drop_last(), k, j);
        let i = choose|i: int| 0 <= i < prev.len() && prev[i] == x;
        assert((prev + here)[i] == x);
    } else {
        assert(hist.last() == hist[k]);
        let i = lemma_items_at_contains(hist.last(), r, o, j);
        assert((prev + here)[prev.len() + i] == x);
    }
}

/// An item that belongs to a cell is among the items picked for that cell.
proof fn lemma_items_at_contains<T, M>(items: Seq<Item<T, M>>, r: int, o: int, j: int) -> (i: int)
    requires
        0 <= j < items.len(),
        items[j].spec_cursor() == r,
        items[j].spec_offset() == o,
    ensures
        0 <= i < items_at(items, r, o).len(),
        items_at(items, r, o)[i] == items[j],
    decreases items.len(),
{
    if j < items.len() - 1 {
        assert(items.drop_last()[j] == items[j]);
        lemma_items_at_contains(items.drop_last(), r, o, j)
    } else {
        items_at(items.drop_last(), r, o).len() as int
    }
}

/// `y` lies in the chart's cell at its address.
pub open spec fn in_its_cell<T, M>(chart: Chart<T, M>, y: Item<T, M>) -> bool {
    chart.cell_view(y.spec_cursor(), y.spec_offset()).contains(y)
}

/// The items `x` was derived from lie in the chart's cells at their addresses: for a
/// reduction, its reducer and, when it continues a reduction, that reduction; for a conclusion,
/// the reduction that yielded it.
pub open spec fn parents_in_cells<T, M>(chart: Chart<T, M>, x: Item<T, M>) -> bool {
    match x {
        Item::Reducer(Reducer::Input(_)) => true,
        Item::Reducer(Reducer::Conclusion(c)) => in_its_cell(chart, Item::Reduction(c.spec_reduction())),
        Item::Reduction(r) => {
            &&& in_its_cell(chart, Item::Reducer(r.spec_reducer()))
            &&& match r.spec_reducible() {
                Reducible::Rule(_) => true,
                Reducible::Reduction(p) => in_its_cell(chart, Item::Reduction(p)),
            }
        },
    }
}

/// What a consistent chart's steps plotted lies in the cell at its address.
proof fn lemma_plotted_in_cell<T, M>(chart: Chart<T, M>, upto: int, y: Item<T, M>)
    requires
        chart.consistent(),
        plotted_by(chart.history_view(), upto, y),
    ensures
        in_its_cell(chart, y),
{
    let hv = chart.history_view();
    let (k, j) = choose|k: int, j: int|
        0 <= k <= upto && k < hv.len() && 0 <= j < hv[k].len() && #[trigger] hv[k][j] == y;
    lemma_member_plotted(hv, k, j);
    assert(chart.cell_view(y.spec_cursor(), y.spec_offset()) == plotted(hv, y.spec_cursor(), y.spec_offset()));
}

/// Every item the last step plotted lies in the cell at its address: row `end - 1`, column
/// `end - 1 - start`.
pub proof fn law_last_step_items_lie_in_their_cells<T, M>(chart: Chart<T, M>)
    requires
        chart.consistent(),
    ensures
        forall|x: Item<T, M>| #[trigger] chart.in_last_step(x) ==> in_its_cell(chart, x),
{
    assert forall|x: Item<T, M>| #[trigger] chart.in_last_step(x) implies in_its_cell(chart, x) by {
        let hv = chart.history_view();
        let n = chart.history@.len() - 1;
        let j = choose|j: int| 0 <= j < chart.history@.last()@.len() && #[trigger] chart.history@.last()@[j] == x;
        assert(hv[n] == chart.history@[n]@);
        assert(hv[n][j] == x);
        lemma_plotted_in_cell(chart, n, x);
    }
}

/// A well-formed chart holds what each of its items was derived from: the reducer of every
/// reduction, the reduction every reduction continues, and the reduction that yielded every
/// conclusion each lie in the cell at their address.
pub proof fn law_chart_holds_what_its_items_derive_from<T, M>(chart: Chart<T, M>)
    requires
        chart.wf(),
    ensures
        forall|r: int, o: int, i: int|
            0 <= i < chart.cell_view(r, o).len() ==> parents_in_cells(
                chart,
                #[trigger] chart.cell_view(r, o)[i],
            ),
{
    let hv = chart.history_view();
    assert forall|r: int, o: int, i: int| 0 <= i < chart.cell_view(r, o).len() implies parents_in_cells(
        chart,
        #[trigger] chart.cell_view(r, o)[i],
    ) by {
        let x = chart.cell_view(r, o)[i];
        lemma_cell_item_plotted(chart, r, o, i);
        let (k, j) = choose|k: int, j: int|
            0 <= k <= hv.len() - 1 && k < hv.len() && 0 <= j < hv[k].len() && #[trigger] hv[k][j] == x;
        assert(parents_plotted(hv, k, hv[k][j]));
        match x {
            Item::Reducer(Reducer::Input(_)) => {},
            Item::Reducer(Reducer::Conclusion(c)) => {
                lemma_plotted_in_cell(chart, k, Item::Reduction(c.spec_reduction()));
            },
            Item::Reduction(red) => {
                lemma_plotted_in_cell(chart, k, Item::Reducer(red.spec_reducer()));
                match red.spec_reducible() {
                    Reducible::Rule(_) => {},
                    Reducible::Reduction(p) => {
                        lemma_plotted_in_cell(chart, k, Item::Reduction(p));
                    },
                }
            },
        }
    }
}

/// A conclusion covers the antecedents of its reduction that its consequent stands for: as
/// many as the consequent's length, right after those that the consequents before it cover
/// (an absent consequent covering one), and from the start of the first of them to the end of
/// the last. Other items have nothing to cover.
pub open spec fn covers_its_share<T, M>(x: Item<T, M>) -> bool {
    match x {
        Item::Reducer(Reducer::Conclusion(c)) => {
            let consequents = c.spec_reduction().spec_reductum()->Consequence_0.spec_consequents();
            let before = consequents_width(consequents.take(c.spec_index() as int));
            let len = consequents[c.spec_index() as int]->0.spec_len();
            &&& c.spec_antecedents() == c.spec_reduction().spec_antecedents().subrange(
                before as int,
                (before + len) as int,
            )
            &&& c.spec_antecedents().len() == len
            &&& c.spec_start() == c.spec_antecedents()[0].spec_start()
            &&& c.spec_end() == c.spec_antecedents().last().spec_end()
        },
        _ => true,
    }
}

/// Each conclusion of a well-formed chart covers the antecedents of its reduction that its
/// consequent stands for.
pub proof fn law_conclusions_cover_their_share<T, M>(chart: Chart<T, M>)
    requires
        chart.wf(),
    ensures
        forall|r: int, o: int, i: int|
            0 <= i < chart.cell_view(r, o).len() ==> covers_its_share(
                #[trigger] chart.cell_view(r, o)[i],
            ),
{
    assert forall|r: int, o: int, i: int| 0 <= i < chart.cell_view(r, o).len() implies covers_its_share(
        #[trigger] chart.cell_view(r, o)[i],
    ) by {
        let x = chart.table@[r]@[o]@[i];
        assert(x == chart.cell_view(r, o)[i]);
        assert(x.wf());
        match x {
            Item::Reducer(Reducer::Conclusion(c)) => {
                assert(c.wf());
            },
            _ => {},
        }
    }
}

} // verus!
