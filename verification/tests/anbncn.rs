use ruleset::{
    Consequence, Consequent, IteratorReducerExt, Match, Matcher, Parser, Reducer, Reductum,
    Ruleset, Subrule,
};

#[derive(Debug, Clone, Copy, PartialEq, Eq, Hash)]
enum Symbol {
    S,
    A(usize),
    B(usize),
    C(usize),
    Char(char),
}

impl From<char> for Symbol {
    fn from(char: char) -> Self {
        Symbol::Char(char)
    }
}

/// The steps of the grammar
/// ```text
/// A(n), B(n), C(n) => S;
/// Char('a') => A(0);
/// A(n), Char('a') => A(n+1);
/// Char('b') => B(0);
/// B(n), Char('b') => B(n+1);
/// Char('c') => C(0);
/// C(n), Char('c') => C(n+1);
/// ```
enum Step {
    FirstA,
    ThenB(usize),
    ThenC(usize),
    Letter(char),
    Count(char),
    CountThen(char, usize),
}

fn letter(c: char, n: usize) -> Symbol {
    match c {
        'a' => Symbol::A(n),
        'b' => Symbol::B(n),
        _ => Symbol::C(n),
    }
}

fn count_of(c: char, s: &Symbol) -> Option<usize> {
    match (c, s) {
        ('a', Symbol::A(n)) | ('b', Symbol::B(n)) | ('c', Symbol::C(n)) => Some(*n),
        _ => None,
    }
}

fn next(step: Step) -> Match<Symbol, Step> {
    Match::Hit { reductum: Reductum::Subrule(Subrule::new(step, None)) }
}

fn done(len: usize, value: Symbol) -> Match<Symbol, Step> {
    Match::Hit {
        reductum: Reductum::Consequence(Consequence::new(vec![Some(
            Consequent::try_new(len, value).unwrap(),
        )])),
    }
}

impl Matcher<Symbol> for Step {
    fn spec_reduce(&self, input: Symbol) -> Match<Symbol, Step> {
        self.reduce(&input)
    }

    fn reduce(&self, input: &Symbol) -> Match<Symbol, Step> {
        match (self, input) {
            (Step::FirstA, Symbol::A(n)) => next(Step::ThenB(*n)),
            (Step::ThenB(n), Symbol::B(m)) if n == m => next(Step::ThenC(*n)),
            (Step::ThenC(n), Symbol::C(m)) if n == m => done(3, Symbol::S),
            (Step::Letter(c), Symbol::Char(d)) if c == d => done(1, letter(*c, 0)),
            (Step::Count(c), s) => match count_of(*c, s) {
                Some(n) => next(Step::CountThen(*c, n)),
                None => Match::Miss,
            },
            (Step::CountThen(c, n), Symbol::Char(d)) if c == d => done(2, letter(*c, n + 1)),
            _ => Match::Miss,
        }
    }
}

fn grammar() -> Ruleset<Symbol, Step> {
    Ruleset::new(vec![
        Subrule::new(Step::FirstA, None),
        Subrule::new(Step::Letter('a'), None),
        Subrule::new(Step::Count('a'), None),
        Subrule::new(Step::Letter('b'), None),
        Subrule::new(Step::Count('b'), None),
        Subrule::new(Step::Letter('c'), None),
        Subrule::new(Step::Count('c'), None),
    ])
}

fn sentences<W>(parser: &Parser<W, Symbol, Step>) -> Vec<Reducer<Symbol, Step>> {
    parser.interpret().into_iter().filter(|r| matches!(r.value(), Symbol::S)).collect()
}

#[test]
fn anbncn() {
    let ruleset = grammar();
    let grammar = [&ruleset];
    {
        let mut parser = Parser::new();
        let inputs = "aaabbbccc";
        for input in inputs.chars() {
            parser.parse(input, &grammar);
        }
        let trees = sentences(&parser).collect_trees();
        assert!(trees.len() == 1);
        let tree = &trees[0];
        assert_eq!(*tree.value(), Symbol::S);
        assert_eq!(tree.range(), 0..9);
        let labels: Vec<Symbol> = tree.subtrees().iter().map(|t| *t.value()).collect();
        assert_eq!(labels, vec![Symbol::A(2), Symbol::B(2), Symbol::C(2)]);
        assert_eq!(tree.subtrees()[1].range(), 3..6);
    }
    {
        let mut parser = Parser::new();
        let inputs = "aaabccc";
        for input in inputs.chars().filter(|c| !c.is_ascii_whitespace()).map(Symbol::Char) {
            parser.parse(input, &grammar);
        }
        let trees = sentences(&parser).collect_trees();
        assert!(trees.len() == 0);
    }
}

#[test]
fn anbncn_leaves_are_the_inputs() {
    let ruleset = grammar();
    let mut parser: Parser<char, Symbol, Step> = Parser::new();
    parser.parse_all("abc".chars().collect(), &[&ruleset]);
    let trees = sentences(&parser).collect_trees();
    assert_eq!(trees.len(), 1);
    let leaves: Vec<Symbol> = trees[0]
        .subtrees()
        .iter()
        .flat_map(|t| t.subtrees().iter().map(|l| *l.value()))
        .collect();
    assert_eq!(leaves, vec![Symbol::Char('a'), Symbol::Char('b'), Symbol::Char('c')]);
    assert!(trees[0].subtrees()[0].subtrees()[0].is_leaf());
    assert!(trees[0].is_branch());
}
