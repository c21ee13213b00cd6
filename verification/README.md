# ruleset

A bottom-up, online chart parser for monotonic (context-sensitive) grammars, verified with
Verus.

Rules are written inverted: `A, B => C` reads "an `A` followed by a `B` makes a `C`". Each step
of a rule is a `Matcher`, whose `spec_reduce` says what it gives on a symbol. A `Chart` plots
the inputs row by row, and with each input what it causes: the proved contract of `push` says
that (for steps of at most `usize::MAX / 2` items) each reducer of the step has the hits of the
grammar's rules on it plotted, and the hits of the reductions still expecting more that end
where it starts, for flags set only on reductions of the grammar's rulesets (which ones is the
identity test `Rc::ptr_eq`'s choice); each reduction expecting more has its hits with the
reducers already on its diagonal plotted; and each reduction reaching a consequence has its
conclusions plotted. A `Parser` searches
the chart for interpretations and turns them into syntax `Tree`s. Every step can be undone.

## Layout

- `src/grammar.rs`: matchers, subrules, consequents, consequences, rules and rulesets.
- `src/items.rs`: inputs, conclusions, reducers, reductions and chart items, with their
  well-formedness (ranges of inputs that follow one another).
- `src/chart.rs`: the table, the history of what each step plotted, and the parsing step;
  the chart always holds exactly what its recorded steps plotted, which is why `pop` undoes
  `push`.
- `src/determine.rs`: a private step that would narrow the table down to one
  interpretation; nothing calls it yet.
- `src/parser.rs`: the parser over a chart: interpretations, analyses, `parse` and `unparse`.
- `src/tree.rs`: syntax trees, flattened by the digests of their values, and their text.
- `src/item_text.rs`, `src/text.rs`, `src/digest.rs`: texts of items and charts, numerals
  and digests.
- `src/syntax.rs`: the checks on a rule as it is written, and the texts of its steps.
- `app/`: texts made with the symbols' `Display`, serializable trees, and a filter macro.

The tests under `tests/` exercise the library on a few grammars: sums, `aⁿbⁿcⁿ`, arithmetic
expressions and nested sets.
