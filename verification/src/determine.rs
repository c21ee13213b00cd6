//! Narrowing a chart down to one interpretation: what it covers and what conflicts with it is
//! removed from the table.
use crate::chart::Chart;
use crate::items::{Item, Reducer};
use vstd::prelude::*;

verus! {

/// What is left in the cell at row `r` and column `o` of a table once the interpretation that
/// covers the rows from `start` to `cursor` is determined: the rows it covers keep only the
/// first item of their first cell (their input) and, on its own row, the cells from its column
/// on; each later row loses the cells that would reach back into the covered rows. An
/// interpretation over a single input lies in the first cell of its row beside that input, and
/// leaves the table as it is.
pub open spec fn determined<T, M>(cell: Seq<Item<T, M>>, r: int, o: int, start: int, cursor: int) -> Seq<
    Item<T, M>,
> {
    let offset = cursor - start;
    if start <= r <= cursor && o == 0 && offset >= 1 {
        if cell.len() <= 1 {
            cell
        } else {
            cell.subrange(0, 1)
        }
    } else if start <= r < cursor && o >= 1 {
        Seq::empty()
    } else if r == cursor && 1 <= o < offset {
        Seq::empty()
    } else if r > cursor && r - cursor <= o < r - cursor + offset {
        Seq::empty()
    } else {
        cell
    }
}

/// Determining an interpretation over the inputs from `start` to `cursor` keeps a cell whose
/// items' range (`r - o` to `r + 1`, shared by all the items of the cell at row `r` and column
/// `o`) is disjoint from the interpretation's or contains it; of any other cell it keeps only
/// the first item of a row's first cell (the row's input) and empties the rest.
pub proof fn law_determined_by_range<T, M>(cell: Seq<Item<T, M>>, r: int, o: int, start: int, cursor: int)
    requires
        0 <= o <= r,
        0 <= start <= cursor,
    ensures
        determined(cell, r, o, start, cursor) == if r + 1 <= start || cursor + 1 <= r - o || (r - o
            <= start && cursor + 1 <= r + 1) {
            cell
        } else if o == 0 {
            if cell.len() <= 1 {
                cell
            } else {
                cell.subrange(0, 1)
            }
        } else {
            Seq::empty()
        },
{
}

impl<T, M> Chart<T, M> {
    /// Keeps only the first item of the first cell of a row.
    fn keep_first(&mut self, r: usize)
        requires
            r < old(self).table@.len(),
            old(self).table@[r as int]@.len() >= 1,
        ensures
            final(self).history == old(self).history,
            final(self).table@.len() == old(self).table@.len(),
            forall|x: int| 0 <= x < old(self).table@.len() && x != r ==> #[trigger] final(self).table@[x] == old(self).table@[x],
            final(self).table@[r as int]@.len() == old(self).table@[r as int]@.len(),
            forall|o: int|
                1 <= o < old(self).table@[r as int]@.len() ==> #[trigger] final(self).table@[r as int]@[o]
                    == old(self).table@[r as int]@[o],
            final(self).table@[r as int]@[0]@ == (if old(self).table@[r as int]@[0]@.len() <= 1 {
                old(self).table@[r as int]@[0]@
            } else {
                old(self).table@[r as int]@[0]@.subrange(0, 1)
            }),
    {
        self.table[r][0].truncate(1);
    }

    /// Empties the cells of a row from column `from` on, `count` of them at most.
    fn clear_cells(&mut self, r: usize, from: usize, count: usize)
        requires
            r < old(self).table@.len(),
        ensures
            final(self).history == old(self).history,
            final(self).table@.len() == old(self).table@.len(),
            forall|x: int| 0 <= x < old(self).table@.len() && x != r ==> #[trigger] final(self).table@[x] == old(self).table@[x],
            final(self).table@[r as int]@.len() == old(self).table@[r as int]@.len(),
            forall|o: int|
                0 <= o < old(self).table@[r as int]@.len() ==> (#[trigger] final(self).table@[r as int]@[o])@
                    == if from <= o < from + count {
                    Seq::<Item<T, M>>::empty()
                } else {
                    old(self).table@[r as int]@[o]@
                },
    {
        let ghost old_table = self.table@;
        let mut o: usize = from;
        while o < self.table[r].len() && o - from < count
            invariant
                r < old_table.len(),
                from <= o <= from + count,
                self.history == old(self).history,
                self.table@.len() == old_table.len(),
                forall|x: int| 0 <= x < old_table.len() && x != r ==> #[trigger] self.table@[x] == old_table[x],
                self.table@[r as int]@.len() == old_table[r as int]@.len(),
                forall|c: int|
                    0 <= c < old_table[r as int]@.len() ==> (#[trigger] self.table@[r as int]@[c])@
                        == if from <= c < o {
                        Seq::<Item<T, M>>::empty()
                    } else {
                        old_table[r as int]@[c]@
                    },
            decreases old_table[r as int]@.len() - o,
        {
            self.table[r][o].clear();
            o = o + 1;
        }
        assert(o >= old_table[r as int]@.len() || o >= from + count);
        assert forall|c: int|
            0 <= c < old_table[r as int]@.len() implies (#[trigger] self.table@[r as int]@[c])@ == if from
                <= c < from + count {
                Seq::<Item<T, M>>::empty()
            } else {
                old_table[r as int]@[c]@
            } by {
            if from <= c < from + count {
                assert(c < o);
            }
        }
    }

    /// Removes from the table all items covered by the interpretation, but the inputs, and all
    /// items conflicting with it. This narrows the search for further inputs, but can't be
    /// undone: the recorded steps are left as they were, so the chart no longer matches them.
    #[allow(dead_code)]
    fn determine(&mut self, interpretation: &Reducer<T, M>)
        requires
            interpretation.wf(),
            interpretation.spec_end() <= old(self).table@.len(),
            forall|r: int|
                interpretation.spec_start() <= r < interpretation.spec_end() ==> #[trigger] old(
                    self,
                ).table@[r]@.len() >= 1,
        ensures
            final(self).history == old(self).history,
            final(self).table@.len() == old(self).table@.len(),
            forall|r: int|
                0 <= r < final(self).table@.len() ==> #[trigger] final(self).table@[r]@.len() == old(
                    self,
                ).table@[r]@.len(),
            forall|r: int, o: int|
                0 <= r < final(self).table@.len() && 0 <= o < final(self).table@[r]@.len() ==> (
                #[trigger] final(self).table@[r]@[o])@ == determined(
                    old(self).table@[r]@[o]@,
                    r,
                    o,
                    interpretation.spec_start(),
                    interpretation.spec_end() - 1,
                ),
    {
        proof {
            crate::items::lemma_reducer_range(*interpretation);
        }
        let start = interpretation.start();
        let cursor = interpretation.end() - 1;
        let offset = cursor - start;
        let ghost old_table = self.table@;
        let n = self.table.len();
        let mut r: usize = 0;
        while r < n
            invariant
                n == old_table.len(),
                start + offset == cursor,
                cursor < n,
                start as int == interpretation.spec_start(),
                cursor as int == interpretation.spec_end() - 1,
                forall|x: int| start <= x <= cursor ==> #[trigger] old_table[x]@.len() >= 1,
                r <= n,
                self.history == old(self).history,
                self.table@.len() == n,
                forall|x: int| 0 <= x < n ==> #[trigger] self.table@[x]@.len() == old_table[x]@.len(),
                forall|x: int, o: int|
                    0 <= x < r && 0 <= o < old_table[x]@.len() ==> (#[trigger] self.table@[x]@[o])@
                        == determined(old_table[x]@[o]@, x, o, start as int, cursor as int),
                forall|x: int| r <= x < n ==> #[trigger] self.table@[x] == old_table[x],
            decreases n - r,
        {
            let ghost before = self.table@;
            if start <= r && r < cursor {
                self.keep_first(r);
                let len = self.table[r].len();
                self.clear_cells(r, 1, len);
            } else if r == cursor {
                if offset >= 1 {
                    self.keep_first(r);
                    self.clear_cells(r, 1, offset - 1);
                }
            } else if r > cursor {
                self.clear_cells(r, r - cursor, offset);
            }
            proof {
                assert forall|x: int, o: int|
                    0 <= x < r + 1 && 0 <= o < old_table[x]@.len() implies (#[trigger] self.table@[x]@[o])@
                        == determined(old_table[x]@[o]@, x, o, start as int, cursor as int) by {
                    if x < r {
                        assert(self.table@[x] == before[x]);
                    }
                }
            }
            r = r + 1;
        }
    }
}

} // verus!
