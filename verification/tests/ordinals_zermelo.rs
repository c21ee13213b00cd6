use ruleset::{
    Consequence, Consequent, IteratorReducerExt, Match, Matcher, Parser, Reducer, Reductum,
    Ruleset, Subrule,
};

#[derive(Debug, Clone, Copy, PartialEq, Eq, Hash)]
enum Symbol {
    Number(usize),
    Char(char),
}

/// The steps of the grammar
/// ```text
/// Char('{'), Char('}') => Number(0);
/// Char('{'), Number(n), Char('}') => Number(n+1);
/// ```
enum Step {
    OpenEmpty,
    CloseEmpty,
    OpenSuccessor,
    Inner,
    CloseAfter(usize),
}

fn next(step: Step) -> Match<Symbol, Step> {
    Match::Hit { reductum: Reductum::Subrule(Subrule::new(step, None)) }
}

fn done(len: usize, value: Symbol) -> Match<Symbol, Step> {
    Match::Hit {
        reductum: Reductum::Consequence(Consequence::new(vec![Some(
            Consequent::try_new(len, value).unwrap(),
        )])),
    }
}

impl Matcher<Symbol> for Step {
    fn spec_reduce(&self, input: Symbol) -> Match<Symbol, Step> {
        self.reduce(&input)
    }

    fn reduce(&self, input: &Symbol) -> Match<Symbol, Step> {
        match (self, input) {
            (Step::OpenEmpty, Symbol::Char('{')) => next(Step::CloseEmpty),
            (Step::CloseEmpty, Symbol::Char('}')) => done(2, Symbol::Number(0)),
            (Step::OpenSuccessor, Symbol::Char('{')) => next(Step::Inner),
            (Step::Inner, Symbol::Number(n)) => next(Step::CloseAfter(*n)),
            (Step::CloseAfter(n), Symbol::Char('}')) => done(3, Symbol::Number(n + 1)),
            _ => Match::Miss,
        }
    }
}

fn numbers(parser: &Parser<Symbol, Symbol, Step>, n: usize) -> Vec<Reducer<Symbol, Step>> {
    parser.interpret().into_iter().filter(|r| *r.value() == Symbol::Number(n)).collect()
}

#[test]
fn ordinals_zermelo() {
    let ruleset = Ruleset::new(vec![
        Subrule::new(Step::OpenEmpty, None),
        Subrule::new(Step::OpenSuccessor, None),
    ]);
    let grammar = [&ruleset];
    let mut parser = Parser::new();
    let inputs = "{{{{{{{{}}}}}}}}";
    for input in inputs.chars().filter(|c| !c.is_ascii_whitespace()).map(Symbol::Char) {
        parser.parse(input, &grammar);
    }
    let trees = numbers(&parser, 7).collect_trees();
    assert!(trees.len() == 1);
    let tree = &trees[0];
    assert_eq!(tree.range(), 0..16);
    assert_eq!(tree.subtrees().len(), 3);
    assert_eq!(*tree.subtrees()[1].value(), Symbol::Number(6));
    assert_eq!(tree.subtrees()[1].range(), 1..15);
}
