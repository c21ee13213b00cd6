use ruleset::{
    Consequence, Consequent, IteratorReducerExt, Match, Matcher, Parser, Reducer, Reductum,
    Ruleset, Subrule,
};

#[derive(Debug, PartialEq, Eq, Hash, Clone)]
enum Symbol {
    Sum(usize, usize),
    Usize(usize),
}

impl From<usize> for Symbol {
    fn from(value: usize) -> Self {
        Symbol::Usize(value)
    }
}

/// The steps of the grammar
/// ```text
/// Sum(l, n), Usize(m) => Sum(l + 1, n + m);
/// Usize(n), Usize(m) => Sum(0, n + m);
/// ```
enum Step {
    SumFirst,
    SumThen(usize, usize),
    UsizeFirst,
    UsizeThen(usize),
}

fn next(step: Step) -> Match<Symbol, Step> {
    Match::Hit { reductum: Reductum::Subrule(Subrule::new(step, None)) }
}

fn done(value: Symbol) -> Match<Symbol, Step> {
    Match::Hit {
        reductum: Reductum::Consequence(Consequence::new(vec![Some(
            Consequent::try_new(2, value).unwrap(),
        )])),
    }
}

impl Matcher<Symbol> for Step {
    fn spec_reduce(&self, input: Symbol) -> Match<Symbol, Step> {
        self.reduce(&input)
    }

    fn reduce(&self, input: &Symbol) -> Match<Symbol, Step> {
        match (self, input) {
            (Step::SumFirst, Symbol::Sum(l, n)) => next(Step::SumThen(*l, *n)),
            (Step::SumThen(l, n), Symbol::Usize(m)) => done(Symbol::Sum(l + 1, n + m)),
            (Step::UsizeFirst, Symbol::Usize(n)) => next(Step::UsizeThen(*n)),
            (Step::UsizeThen(n), Symbol::Usize(m)) => done(Symbol::Sum(0, n + m)),
            _ => Match::Miss,
        }
    }
}

#[test]
fn sum_left_associative() {
    let ruleset = Ruleset::new(vec![
        Subrule::new(Step::SumFirst, None),
        Subrule::new(Step::UsizeFirst, None),
    ]);
    let mut parser: Parser<usize, Symbol, Step> = Parser::new();
    parser.parse_all(vec![0, 1, 2], &[&ruleset]);
    let sums: Vec<Reducer<Symbol, Step>> = parser
        .interpret()
        .into_iter()
        .filter(|r| matches!(r.value(), Symbol::Sum(_, 3)))
        .collect();
    let trees = sums.collect_trees();
    assert!(trees.len() == 1);
    let tree = &trees[0];
    assert_eq!(*tree.value(), Symbol::Sum(1, 3));
    assert_eq!(*tree.subtrees()[0].value(), Symbol::Sum(0, 1));
    assert_eq!(*tree.subtrees()[1].value(), Symbol::Usize(2));
}

#[test]
fn sum_left_associative_text() {
    let ruleset = Ruleset::new(vec![
        Subrule::new(Step::SumFirst, None),
        Subrule::new(Step::UsizeFirst, None),
    ]);
    let mut parser: Parser<usize, Symbol, Step> = Parser::new();
    parser.parse_all(vec![0, 1, 2], &[&ruleset]);
    let sums: Vec<Reducer<Symbol, Step>> = parser
        .interpret()
        .into_iter()
        .filter(|r| matches!(r.value(), Symbol::Sum(_, 3)))
        .collect();
    let trees = sums.collect_trees();
    let tree = &trees[0];
    let labels: Vec<String> = tree.values_in_order().iter().map(|v| format!("{v:?}")).collect();
    assert_eq!(
        tree.text_with(&labels),
        "Sum(1, 3)@0..3\n├─Sum(0, 1)@0..2\n│ ├─Usize(0)@0..1\n│ └─Usize(1)@1..2\n└─Usize(2)@2..3"
    );
}
