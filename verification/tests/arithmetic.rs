use ruleset::{
    Consequence, Consequent, IteratorReducerExt, Match, Matcher, Parser, Reducer, Reductum,
    Ruleset, Subrule,
};
use std::rc::Rc;

#[derive(Debug, Clone, Copy, PartialEq, Eq, Hash)]
enum Symbol {
    Expression,
    Atomic,
    Composite,
    Additive(usize),
    Multiplicative(usize),
    Exponentiation(usize),
    Number,
    Integer,
    Digits,
    Digit,
    Onenine,
    Fraction,
    Exponent,
    Sign,
    Char(char),
}

use Symbol::{
    Additive, Atomic, Char, Composite, Digit, Digits, Exponent, Exponentiation, Expression, Fraction,
    Integer, Multiplicative, Number, Onenine, Sign,
};

/// A context-free rule: a pattern for each antecedent, and the consequent made of the matched
/// symbols.
struct PatternRule {
    antecedents: Vec<fn(&Symbol) -> bool>,
    consequent: fn(&[Symbol]) -> Symbol,
}

/// A step of a pattern rule: the symbols matched so far.
struct PatternStep {
    rule: Rc<PatternRule>,
    matched: Vec<Symbol>,
}

impl Matcher<Symbol> for PatternStep {
    fn spec_reduce(&self, input: Symbol) -> Match<Symbol, PatternStep> {
        self.reduce(&input)
    }

    fn reduce(&self, input: &Symbol) -> Match<Symbol, PatternStep> {
        let position = self.matched.len();
        if !(self.rule.antecedents[position])(input) {
            return Match::Miss;
        }
        let mut matched = self.matched.clone();
        matched.push(*input);
        if matched.len() < self.rule.antecedents.len() {
            Match::Hit {
                reductum: Reductum::Subrule(Subrule::new(
                    PatternStep { rule: Rc::clone(&self.rule), matched },
                    None,
                )),
            }
        } else {
            let value = (self.rule.consequent)(&matched);
            Match::Hit {
                reductum: Reductum::Consequence(Consequence::new(vec![Some(
                    Consequent::try_new(matched.len(), value).unwrap(),
                )])),
            }
        }
    }
}

fn rule(antecedents: Vec<fn(&Symbol) -> bool>, consequent: fn(&[Symbol]) -> Symbol) -> Subrule<Symbol, PatternStep> {
    Subrule::new(
        PatternStep { rule: Rc::new(PatternRule { antecedents, consequent }), matched: Vec::new() },
        None,
    )
}

fn count(s: &Symbol) -> usize {
    match s {
        Additive(n) | Multiplicative(n) | Exponentiation(n) => *n,
        _ => 0,
    }
}

fn grammar() -> Ruleset<Symbol, PatternStep> {
    Ruleset::new(vec![
        // Atomic | Composite => Expression;
        rule(vec![|s| matches!(s, Atomic | Composite)], |_| Expression),
        // Number => Atomic;
        rule(vec![|s| matches!(s, Number)], |_| Atomic),
        // Char('('), Atomic | Composite, Char(')') => Atomic;
        rule(
            vec![|s| matches!(s, Char('(')), |s| matches!(s, Atomic | Composite), |s| matches!(s, Char(')'))],
            |_| Atomic,
        ),
        // Additive(_) | Multiplicative(_) | Exponentiation(_) => Composite;
        rule(vec![|s| matches!(s, Additive(_) | Multiplicative(_) | Exponentiation(_))], |_| Composite),
        // Additive(n), Char('+' | '-'), Atomic | Multiplicative(_) => Additive(n+1);
        rule(
            vec![
                |s| matches!(s, Additive(_)),
                |s| matches!(s, Char('+' | '-')),
                |s| matches!(s, Atomic | Multiplicative(_)),
            ],
            |m| Additive(count(&m[0]) + 1),
        ),
        // Multiplicative(_) | Atomic, Char('+' | '-'), Atomic | Multiplicative(_) => Additive(0);
        rule(
            vec![
                |s| matches!(s, Multiplicative(_) | Atomic),
                |s| matches!(s, Char('+' | '-')),
                |s| matches!(s, Atomic | Multiplicative(_)),
            ],
            |_| Additive(0),
        ),
        // Multiplicative(n), Char('*' | '/'), Atomic | Exponentiation(_) => Multiplicative(n+1);
        rule(
            vec![
                |s| matches!(s, Multiplicative(_)),
                |s| matches!(s, Char('*' | '/')),
                |s| matches!(s, Atomic | Exponentiation(_)),
            ],
            |m| Multiplicative(count(&m[0]) + 1),
        ),
        // Exponentiation(_) | Atomic, Char('*' | '/'), Atomic | Exponentiation(_) => Multiplicative(0);
        rule(
            vec![
                |s| matches!(s, Exponentiation(_) | Atomic),
                |s| matches!(s, Char('*' | '/')),
                |s| matches!(s, Atomic | Exponentiation(_)),
            ],
            |_| Multiplicative(0),
        ),
        // Atomic, Char('^'), Exponentiation(n) => Exponentiation(n+1);
        rule(
            vec![|s| matches!(s, Atomic), |s| matches!(s, Char('^')), |s| matches!(s, Exponentiation(_))],
            |m| Exponentiation(count(&m[2]) + 1),
        ),
        // Atomic, Char('^'), Atomic => Exponentiation(0);
        rule(
            vec![|s| matches!(s, Atomic), |s| matches!(s, Char('^')), |s| matches!(s, Atomic)],
            |_| Exponentiation(0),
        ),
        // Integer => Number;
        rule(vec![|s| matches!(s, Integer)], |_| Number),
        // Integer, Fraction | Exponent => Number;
        rule(vec![|s| matches!(s, Integer), |s| matches!(s, Fraction | Exponent)], |_| Number),
        // Integer, Fraction, Exponent => Number;
        rule(
            vec![|s| matches!(s, Integer), |s| matches!(s, Fraction), |s| matches!(s, Exponent)],
            |_| Number,
        ),
        // Digit => Integer;
        rule(vec![|s| matches!(s, Digit)], |_| Integer),
        // Onenine, Digits => Integer;
        rule(vec![|s| matches!(s, Onenine), |s| matches!(s, Digits)], |_| Integer),
        // Char('-'), Digit => Integer;
        rule(vec![|s| matches!(s, Char('-')), |s| matches!(s, Digit)], |_| Integer),
        // Char('-'), Onenine, Digits => Integer;
        rule(
            vec![|s| matches!(s, Char('-')), |s| matches!(s, Onenine), |s| matches!(s, Digits)],
            |_| Integer,
        ),
        // Digit => Digits;
        rule(vec![|s| matches!(s, Digit)], |_| Digits),
        // Digit, Digits => Digits;
        rule(vec![|s| matches!(s, Digit), |s| matches!(s, Digits)], |_| Digits),
        // Char('0') | Onenine => Digit;
        rule(vec![|s| matches!(s, Char('0') | Onenine)], |_| Digit),
        // Char('1'..='9') => Onenine;
        rule(vec![|s| matches!(s, Char('1'..='9'))], |_| Onenine),
        // Char('.'), Digits => Fraction;
        rule(vec![|s| matches!(s, Char('.')), |s| matches!(s, Digits)], |_| Fraction),
        // Char('E' | 'e'), Digits => Exponent;
        rule(vec![|s| matches!(s, Char('E' | 'e')), |s| matches!(s, Digits)], |_| Exponent),
        // Char('E' | 'e'), Sign, Digits => Exponent;
        rule(
            vec![|s| matches!(s, Char('E' | 'e')), |s| matches!(s, Sign), |s| matches!(s, Digits)],
            |_| Exponent,
        ),
        // Char('+' | '-') => Sign;
        rule(vec![|s| matches!(s, Char('+' | '-'))], |_| Sign),
    ])
}

#[test]
fn arithmetic() {
    let ruleset = grammar();
    let grammar = [&ruleset];
    let mut parser: Parser<Symbol, Symbol, PatternStep> = Parser::new();
    let inputs = "0 + 1 * 2 ^ 3 ^ 4 / 5 - 6";
    for input in inputs.chars().filter(|c| !c.is_ascii_whitespace()).map(Char) {
        parser.parse(input, &grammar);
    }
    let expressions: Vec<Reducer<Symbol, PatternStep>> = parser
        .interpret()
        .into_iter()
        .filter(|r| matches!(r.value(), Expression))
        .collect();
    let trees = expressions.collect_trees();
    assert!(trees.len() == 1);
    let tree = &trees[0];
    assert_eq!(tree.range(), 0..13);
    assert_eq!(tree.subtrees().len(), 1);
    assert_eq!(*tree.subtrees()[0].value(), Composite);
    assert!(subtrees_lie_in_order(tree));
}

/// Whether the subtrees of every node lie within its range, in order and without overlapping.
fn subtrees_lie_in_order(tree: &ruleset::Tree<Symbol>) -> bool {
    let range = tree.range();
    let mut at = range.start;
    for subtree in tree.subtrees() {
        let inner = subtree.range();
        if inner.start < at || inner.start >= inner.end || inner.end > range.end {
            return false;
        }
        if !subtrees_lie_in_order(subtree) {
            return false;
        }
        at = inner.end;
    }
    true
}
