use ruleset::parser::{keep_by_digest, keep_where};
use ruleset::{
    pair_flagged, Chart, Consequence, Consequent, Digest, Endpoint, Item, Match, Matcher, Parser, Reducer, Reductum,
    Ruleset, Subrule, SyntacticCategory, Tree, ZeroLength,
};

/// `n, m => n + m`
#[derive(Clone, Debug)]
enum Sum {
    First,
    Second(usize),
}

impl Matcher<usize> for Sum {
    fn spec_reduce(&self, input: usize) -> Match<usize, Sum> {
        self.reduce(&input)
    }

    fn reduce(&self, input: &usize) -> Match<usize, Sum> {
        match self {
            Sum::First => Match::Hit {
                reductum: Reductum::Subrule(Subrule::new(Sum::Second(*input), Some("m => n + m".to_string()))),
            },
            Sum::Second(n) => Match::Hit {
                reductum: Reductum::Consequence(Consequence::new_with_debug_text(
                    vec![Some(Consequent::try_new(2, n + input).unwrap())],
                    "n + m".to_string(),
                )),
            },
        }
    }
}

fn sum() -> Ruleset<usize, Sum> {
    Ruleset::new(vec![Subrule::new(Sum::First, Some("n, m => n + m".to_string()))])
}

fn values(reducers: &[Reducer<usize, Sum>]) -> Vec<usize> {
    reducers.iter().map(|r| *r.value()).collect()
}

#[test]
fn chart_push_plots_the_input_and_what_it_causes() {
    let ruleset = sum();
    let mut chart: Chart<usize, Sum> = Chart::new();
    assert!(chart.is_empty());
    chart.push(0, &[&ruleset]);
    assert_eq!(chart.len(), 1);
    let cell = chart.cell(0, 0).unwrap();
    assert_eq!(cell.len(), 2);
    assert!(matches!(&cell[0], Item::Reducer(Reducer::Input(i)) if *i.value() == 0 && i.cursor() == 0));
    assert!(cell[1].is_reduction());
    assert!(cell[1].reduction().unwrap().reductum().is_subrule());
    chart.push(1, &[&ruleset]);
    let cell = chart.cell(1, 1).unwrap();
    assert_eq!(cell.len(), 3);
    assert!(cell[0].reduction().unwrap().reductum().is_consequence());
    let conclusion = cell[1].reducer().unwrap();
    assert_eq!(*conclusion.value(), 1);
    assert_eq!((conclusion.start(), conclusion.end()), (0, 2));
    assert_eq!(values(&conclusion.antecedents()), vec![0, 1]);
    assert_eq!(cell[1].address(), (1, 1));
    assert!(conclusion.origin().unwrap().is(&ruleset));
    assert_eq!(chart.items_horizontally_on(1).len(), 5);
    assert_eq!(chart.items_diagonally_within(0..2).len(), 5);
    assert_eq!(chart.items_diagonally_within(1..2).len(), 2);
    assert!(chart.cell(0, 1).is_none());
    assert!(chart.row(2).is_none());
    assert_eq!(chart.rows().len(), 2);
}

#[test]
fn chart_pop_undoes_push() {
    let ruleset = sum();
    let mut chart: Chart<usize, Sum> = Chart::default();
    chart.push(7, &[&ruleset]);
    let cells_before: Vec<usize> = chart.rows().iter().flatten().map(|c| c.len()).collect();
    chart.push(8, &[&ruleset]);
    let input = chart.pop().unwrap();
    assert_eq!(*input.value(), 8);
    assert_eq!(input.cursor(), 1);
    let cells_after: Vec<usize> = chart.rows().iter().flatten().map(|c| c.len()).collect();
    assert_eq!(cells_before, cells_after);
    assert_eq!(*chart.pop().unwrap().value(), 7);
    assert!(chart.pop().is_none());
    assert!(chart.is_empty());
}

#[test]
fn reducers_overlap_when_they_share_an_input() {
    let ruleset = sum();
    let mut chart: Chart<usize, Sum> = Chart::new();
    chart.push(0, &[&ruleset]);
    chart.push(1, &[&ruleset]);
    chart.push(2, &[&ruleset]);
    let first = chart.cell(0, 0).unwrap()[0].reducer().unwrap().clone();
    let second = chart.cell(1, 0).unwrap()[0].reducer().unwrap().clone();
    let both = chart.cell(1, 1).unwrap()[1].reducer().unwrap().clone();
    let third = chart.cell(2, 0).unwrap()[0].reducer().unwrap().clone();
    assert!(!first.overlaps(&second));
    assert!(both.overlaps(&first));
    assert!(both.overlaps(&second));
    assert!(!both.overlaps(&third));
    assert!(first.overlaps(&first));
}

#[test]
fn parser_interprets_analyzes_and_undoes() {
    let ruleset = sum();
    let mut parser: Parser<usize, usize, Sum> = Parser::new();
    parser.parse_all(vec![0, 1, 2], &[&ruleset]);
    assert_eq!(parser.history(), &[0, 1, 2]);
    assert_eq!(parser.chart().len(), 3);
    assert_eq!(values(&parser.interpret()), vec![3, 3]);
    assert!(!parser.is_incomplete());
    assert_eq!(parser.interpret_as(&3).len(), 2);
    assert!(parser.interpret_as(&4).is_empty());
    assert_eq!(values(&parser.interpret_within(1..3)), vec![3]);
    assert_eq!(values(&parser.interpret_within(0..1)), vec![0]);
    assert!(parser.interpret_within(2..2).is_empty());
    assert_eq!(values(&parser.interpret_within(2..9)), vec![2]);
    assert_eq!(parser.analyze().len(), 4);
    assert_eq!(parser.analyze_within(0..1).len(), 1);
    assert_eq!(parser.analyze_for(&ruleset).len(), 4);
    let other = sum();
    assert!(parser.analyze_for(&other).is_empty());
    assert!(parser.analyze().iter().all(|r| r.reductum().is_subrule() && r.origin().is(&ruleset)));

    assert_eq!(parser.unparse(), Some(2));
    assert_eq!(parser.history(), &[0, 1]);
    assert_eq!(values(&parser.interpret()), vec![1]);
    parser.parse(2, &[&ruleset]);
    assert_eq!(values(&parser.interpret()), vec![3, 3]);
    let mut empty: Parser<usize, usize, Sum> = Parser::default();
    assert_eq!(empty.unparse(), None);
    assert!(empty.interpret().is_empty());
}

#[test]
fn an_empty_grammar_leaves_only_inputs() {
    let mut parser: Parser<usize, usize, Sum> = Parser::new();
    parser.parse_all(vec![4, 5], &[]);
    assert!(parser.is_incomplete());
    assert!(parser.analyze().is_empty());
    assert_eq!(values(&parser.interpret_within(1..2)), vec![5]);
}

/// A word that may be unknown to the grammar: it enters as `Known` first and, when that causes
/// nothing, as `Unknown`.
#[derive(Hash, Clone, Debug, PartialEq)]
enum Word {
    Known(&'static str),
    Unknown(&'static str),
}

impl SyntacticCategory<&'static str> for Word {
    fn obeys_lexical_spec() -> bool {
        true
    }

    fn spec_lexical(word: &'static str) -> Self {
        Self::lexical(word)
    }

    fn spec_unknown(word: &'static str) -> Option<Self> {
        Self::unknown(word)
    }

    fn lexical(word: &'static str) -> Self {
        Word::Known(word)
    }

    fn unknown(word: &'static str) -> Option<Self> {
        Some(Word::Unknown(word))
    }
}

/// `Known("a") => Known("A")`
struct Upper;

impl Matcher<Word> for Upper {
    fn spec_reduce(&self, input: Word) -> Match<Word, Upper> {
        self.reduce(&input)
    }

    fn reduce(&self, input: &Word) -> Match<Word, Upper> {
        match input {
            Word::Known("a") => Match::Hit {
                reductum: Reductum::Consequence(Consequence::new(vec![Some(
                    Consequent::try_new(1, Word::Known("A")).unwrap(),
                )])),
            },
            _ => Match::Miss,
        }
    }
}

#[test]
fn unknown_words_fall_back() {
    let ruleset = Ruleset::new(vec![Subrule::new(Upper, None)]);
    let mut parser: Parser<&'static str, Word, Upper> = Parser::new();
    parser.parse("a", &[&ruleset]);
    let found: Vec<Word> = parser.interpret().iter().map(|r| r.value().clone()).collect();
    assert_eq!(found, vec![Word::Known("a"), Word::Known("A")]);
    parser.parse("b", &[&ruleset]);
    assert_eq!(parser.history(), &["a", "b"]);
    let found: Vec<Word> = parser.interpret_within(1..2).iter().map(|r| r.value().clone()).collect();
    assert_eq!(found, vec![Word::Unknown("b")]);
}

#[test]
fn consequents_cover_at_least_one_antecedent() {
    assert_eq!(Consequent::try_new(0, 'x').err(), Some(ZeroLength));
    let c = Consequent::try_new(2, 'x').unwrap();
    assert_eq!((c.len(), *c.value()), (2, 'x'));
    assert!(Consequent::try_from((0, 'y')).is_err());
    assert_eq!(Consequent::try_from((3, 'y')).unwrap().len(), 3);
}

#[test]
fn matches_convert_from_options_and_results() {
    let miss: Match<usize, Sum> = Match::default();
    assert!(matches!(miss, Match::Miss));
    let none: Match<usize, Sum> = Match::from(None);
    assert!(!none.is_hit());
    let hit: Match<usize, Sum> = Match::from(Some(Reductum::from(Subrule::new(Sum::First, None))));
    assert!(hit.is_hit());
    let ok: Match<usize, Sum> = Match::from(Ok(Reductum::from(Consequence::new(vec![None]))));
    assert!(ok.is_hit());
    let error: Match<usize, Sum> = Match::from(Err("not a number".to_string()));
    assert!(matches!(error, Match::Error { reason } if reason == "not a number"));
}

#[test]
fn reductums_are_subrules_or_consequences() {
    let subrule: Reductum<usize, Sum> = Reductum::from(Subrule::new(Sum::First, Some("s".to_string())));
    assert!(subrule.is_subrule() && !subrule.is_consequence());
    assert_eq!(subrule.subrule().unwrap().debug_text(), &Some("s".to_string()));
    assert!(subrule.consequence().is_none());
    assert!(subrule.clone().into_consequence().is_none());
    assert!(subrule.into_subrule().is_some());
    let consequence: Reductum<usize, Sum> = Reductum::from(Consequence::new(vec![None, None]));
    assert!(consequence.is_consequence());
    assert_eq!(consequence.consequence().unwrap().consequents().len(), 2);
    assert!(consequence.into_subrule().is_none());
}

#[test]
fn rulesets_are_told_apart_by_allocation() {
    let ruleset = sum();
    assert_eq!(ruleset.len(), 1);
    assert_eq!(ruleset.get(0).debug_text(), &Some("n, m => n + m".to_string()));
    let rules = ruleset.rules();
    assert_eq!(rules.len(), 1);
    assert!(rules[0].ruleset().is(&ruleset));
    assert_eq!(rules[0].subrule().debug_text(), &Some("n, m => n + m".to_string()));
    assert!(ruleset.clone().is(&ruleset));
    assert!(!sum().is(&ruleset));
    assert!(ruleset.get(0).reduce(&4).is_hit());
}

#[test]
fn digests_are_never_zero_and_print_as_hex() {
    let d = Digest::of(&3usize).unwrap();
    assert_ne!(d.to_inner(), 0);
    assert_eq!(Digest::of(&3usize).unwrap().to_inner(), d.to_inner());
    let full = d.text(None);
    assert_eq!(full, format!("{:016X}", d.to_inner()));
    assert_eq!(d.text(Some(4)), full[0..4].to_string());
    assert_eq!(d.text(Some(18)), format!("{full}00"));
    assert_eq!(d.text(Some(0)), "");
}

#[test]
fn digests_pick_entries() {
    let kept = keep_by_digest(&vec!['a', 'b', 'c', 'd'], &vec![1, 2, 1, 3], 1);
    assert_eq!(kept, vec!['a', 'c']);
    assert!(keep_by_digest(&vec!['a'], &vec![5], 1).is_empty());
}

#[test]
fn trees_can_be_built_from_parts() {
    let leaf = Tree::from_parts('a', 0..1, vec![]);
    let tree = Tree::from_parts('S', 0..2, vec![leaf.clone(), Tree::from_parts('b', 1..2, vec![])]);
    assert!(tree.is_branch() && leaf.is_leaf());
    assert_eq!(tree.range(), 0..2);
    assert_eq!(tree.values_in_order(), vec![&'S', &'a', &'b']);
    let labels = vec!["S".to_string(), "a".to_string(), "b".to_string()];
    assert_eq!(tree.text_with(&labels), "S@0..2\n├─a@0..1\n└─b@1..2");
}

#[test]
fn grammar_parts_have_texts() {
    let ruleset = sum();
    assert_eq!(ruleset.text(), "{ n, m => n + m; }");
    assert_eq!(ruleset.rules()[0].text(), "n, m => n + m");
    let unnamed: Subrule<usize, Sum> = Subrule::new(Sum::First, None);
    let text = unnamed.text();
    assert!(text.starts_with("<dynamic:") && text.ends_with('>') && text.chars().count() == 26);
    let consequence: Consequence<usize> = Consequence::new_with_debug_text(vec![None], "n + m".to_string());
    assert_eq!(consequence.text(), "=> n + m");
    assert!(Consequence::<usize>::new(vec![]).text().starts_with("<dynamic:"));
    assert_eq!(consequence.debug_string(), "Consequence(=> n + m)");
    let reductum: Reductum<usize, Sum> = Reductum::from(consequence);
    assert_eq!(reductum.text(), "=> n + m");
    assert_eq!(ruleset.debug_string(), "Ruleset { n, m => n + m; }");
    assert_eq!(ruleset.rules()[0].debug_string(), "Rule(Subrule(n, m => n + m))");
    assert_eq!(ruleset.get(0).debug_string(), "Subrule(n, m => n + m)");
}

#[test]
fn items_have_texts() {
    let ruleset = sum();
    let mut chart: Chart<usize, Sum> = Chart::new();
    chart.push(0, &[&ruleset]);
    chart.push(1, &[&ruleset]);
    let input = &chart.cell(0, 0).unwrap()[0];
    let text = input.text("0", Some(4));
    assert!(text.starts_with('ϛ') && text.ends_with("\n└─0") && text.chars().count() == 9);
    let reduction = &chart.cell(0, 0).unwrap()[1];
    let text = reduction.text("", Some(4));
    assert!(text.starts_with('Δ') && text.contains('⋅') && text.ends_with("\n└─m => n + m"));
    let conclusive = &chart.cell(1, 1).unwrap()[0];
    let text = conclusive.text("", None);
    assert!(text.contains(':') && text.ends_with("\n└─=> n + m"));
    let conclusion = chart.cell(1, 1).unwrap()[1].reducer().unwrap();
    assert_eq!(conclusion.text(Some(3)).chars().count(), 3);
    let c = conclusion.conclusion().unwrap();
    let text = c.text("1", Some(4));
    assert!(text.starts_with("1(") && text.ends_with(')') && text.chars().count() == 7);
    let of_reduction = c.reduction().text(Some(4));
    assert_eq!(text, format!("1({of_reduction})"));
    assert_eq!(c.reduction().reducible().text(None).chars().count(), 16);
}

#[test]
fn every_item_is_derived_from_items_of_the_chart() {
    let ruleset = sum();
    let mut chart: Chart<usize, Sum> = Chart::new();
    for input in [0, 1, 2, 3] {
        chart.push(input, &[&ruleset]);
    }
    let in_its_cell = |item: &Item<usize, Sum>| -> bool {
        let (cursor, offset) = item.address();
        let name = item.text("", None);
        chart.cell(cursor, offset).map_or(false, |cell| cell.iter().any(|other| other.text("", None) == name))
    };
    let mut reductions = 0;
    for row in chart.rows() {
        for cell in row {
            for item in cell {
                match item {
                    Item::Reduction(reduction) => {
                        reductions += 1;
                        assert!(in_its_cell(&Item::Reducer(reduction.reducer().clone())));
                        if let Some(earlier) = reduction.reducible().reduction() {
                            assert!(in_its_cell(&Item::Reduction(earlier.clone())));
                        }
                    },
                    Item::Reducer(Reducer::Conclusion(conclusion)) => {
                        assert!(in_its_cell(&Item::Reduction(conclusion.reduction().clone())));
                    },
                    Item::Reducer(Reducer::Input(_)) => {},
                }
            }
        }
    }
    assert!(reductions > 4);
}

#[test]
fn interpreting_everything_is_interpreting_the_whole_range() {
    let ruleset = sum();
    let mut parser: Parser<usize, usize, Sum> = Parser::new();
    parser.parse_all(vec![1, 2, 3], &[&ruleset]);
    assert_eq!(values(&parser.interpret_within(0..3)), values(&parser.interpret()));
    assert_eq!(values(&parser.interpret_within(0..usize::MAX)), values(&parser.interpret()));
    assert_eq!(parser.analyze_within(0..10).len(), parser.analyze().len());
    let all = values(&parser.interpret());
    assert!(values(&parser.interpret_as(&6)).iter().all(|v| all.contains(v)));
    assert!(parser.interpret_as(&6).len() <= parser.interpret().len());
    assert!(parser.analyze_for(&ruleset).len() <= parser.analyze().len());
    assert!(parser.interpret().iter().all(|r| r.start() == 0 && r.end() == 3));
    assert!(parser.interpret_within(1..3).iter().all(|r| r.start() == 1 && r.end() == 3));
    assert!(parser.analyze_within(1..3).iter().all(|r| r.start() == 1));
}

#[test]
fn digests_come_from_nonzero_hashes() {
    assert!(Digest::<usize>::from_hash(0).is_none());
    let d = Digest::<usize>::from_hash(0x05F3).unwrap();
    assert_eq!(d.to_inner(), 0x05F3);
    assert_eq!(d.text(Some(4)), "0000");
    assert_eq!(d.text(None), "00000000000005F3");
}

#[test]
fn choices_pick_entries() {
    assert_eq!(keep_where(&vec![1, 2, 3, 4], &vec![true, false, false, true]), vec![1, 4]);
    assert!(keep_where(&vec![1], &vec![false]).is_empty());
}

#[test]
fn ranges_come_from_their_ends() {
    let ruleset = sum();
    let mut parser: Parser<usize, usize, Sum> = Parser::new();
    parser.parse_all(vec![1, 2, 3], &[&ruleset]);
    let cases = [
        (Endpoint::Unbounded, Endpoint::Unbounded, 0..3),
        (Endpoint::Included(1), Endpoint::Included(1), 1..2),
        (Endpoint::Excluded(0), Endpoint::Excluded(3), 1..3),
        (Endpoint::Included(5), Endpoint::Unbounded, 3..3),
        (Endpoint::Unbounded, Endpoint::Included(10), 0..3),
    ];
    for (start, end, expected) in cases {
        assert_eq!(parser.chart().range_from(start, end), expected);
        assert_eq!(
            values(&parser.interpret_between(start, end)),
            values(&parser.interpret_within(expected.clone()))
        );
        assert_eq!(parser.analyze_between(start, end).len(), parser.analyze_within(expected).len());
    }
    assert_eq!(values(&parser.interpret_between(Endpoint::Included(1), Endpoint::Unbounded)), vec![5]);
}

#[test]
fn digest_of_unit_and_its_texts() {
    let d = Digest::<()>::of(&()).unwrap();
    assert_eq!(d.to_inner(), 0x2D06800538D394C2);
    assert_eq!(d.text(None), "2D06800538D394C2");
    assert_eq!(d.text(Some(4)), "2D06");
    assert_eq!(d.text(Some(20)), "2D06800538D394C20000");
    assert_eq!(d.debug_text("()", None), "Digest<()>(2D06800538D394C2)");
    assert_eq!(d.debug_text("()", Some(4)), "Digest<()>(2D06)");
    assert_eq!(d.debug_text("()", Some(0)), "Digest<()>");
}

#[test]
fn flagged_reductions_are_paired_with_the_reducer() {
    let ruleset = sum();
    let mut chart: Chart<usize, Sum> = Chart::new();
    chart.push(0, &[&ruleset]);
    chart.push(1, &[&ruleset]);
    let row = chart.items_horizontally_on(0);
    assert_eq!(row.len(), 2);
    let reducer = chart.cell(1, 0).unwrap()[0].reducer().unwrap().clone();
    assert!(pair_flagged(&row, &vec![false, false], &reducer).is_empty());
    assert!(pair_flagged(&row, &vec![true, false], &reducer).is_empty());
    let pairs = pair_flagged(&row, &vec![true, true], &reducer);
    assert_eq!(pairs.len(), 1);
    assert!(pairs[0].0.reduction().is_some());
    assert_eq!(*pairs[0].1.value(), 1);
}
