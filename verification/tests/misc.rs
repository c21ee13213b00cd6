use ruleset::{
    Consequence, Consequent, Match, Matcher, Parser, Reductum, Ruleset, Subrule, Tree,
};
use std::rc::Rc;

/// One rule over string symbols: a sequence of antecedents (each a literal, possibly negated)
/// and the consequents it yields, each covering some antecedents (`None`: left as it was).
struct LiteralRule {
    antecedents: Vec<(bool, &'static str)>,
    consequents: Vec<Option<(usize, &'static str)>>,
}

/// A step of a literal rule: the position of the antecedent it expects next.
struct LiteralStep {
    rule: Rc<LiteralRule>,
    position: usize,
}

impl Matcher<&'static str> for LiteralStep {
    fn spec_reduce(&self, input: &'static str) -> Match<&'static str, LiteralStep> {
        self.reduce(&input)
    }

    fn reduce(&self, input: &&'static str) -> Match<&'static str, LiteralStep> {
        let (negated, literal) = self.rule.antecedents[self.position];
        if (*input == literal) == negated {
            return Match::Miss;
        }
        if self.position + 1 < self.rule.antecedents.len() {
            Match::Hit {
                reductum: Reductum::Subrule(Subrule::new(
                    LiteralStep { rule: Rc::clone(&self.rule), position: self.position + 1 },
                    None,
                )),
            }
        } else {
            let consequents = self
                .rule
                .consequents
                .iter()
                .map(|c| c.map(|(len, value)| Consequent::try_new(len, value).unwrap()))
                .collect();
            Match::Hit { reductum: Reductum::Consequence(Consequence::new(consequents)) }
        }
    }
}

fn literal_ruleset(rules: Vec<LiteralRule>) -> Ruleset<&'static str, LiteralStep> {
    Ruleset::new(
        rules
            .into_iter()
            .map(|rule| Subrule::new(LiteralStep { rule: Rc::new(rule), position: 0 }, None))
            .collect(),
    )
}

fn rule(
    antecedents: &[&'static str],
    consequents: &[Option<(usize, &'static str)>],
) -> LiteralRule {
    LiteralRule {
        antecedents: antecedents.iter().map(|a| (false, *a)).collect(),
        consequents: consequents.to_vec(),
    }
}

/// Words compared by their text, borrowed from the input.
#[derive(Clone, Hash)]
enum BorrowedWord<'src> {
    Word(&'src str),
}

/// `Word(s), Word(t) if s == t => Word("ok")`
enum Same<'src> {
    First,
    Second(&'src str),
}

impl<'src> Matcher<BorrowedWord<'src>> for Same<'src> {
    fn spec_reduce(&self, input: BorrowedWord<'src>) -> Match<BorrowedWord<'src>, Same<'src>> {
        self.reduce(&input)
    }

    fn reduce(&self, input: &BorrowedWord<'src>) -> Match<BorrowedWord<'src>, Same<'src>> {
        let BorrowedWord::Word(t) = input;
        match self {
            Same::First => Match::Hit {
                reductum: Reductum::Subrule(Subrule::new(Same::Second(t), None)),
            },
            Same::Second(s) if s == t => Match::Hit {
                reductum: Reductum::Consequence(Consequence::new(vec![Some(
                    Consequent::try_new(2, BorrowedWord::Word("ok")).unwrap(),
                )])),
            },
            _ => Match::Miss,
        }
    }
}

#[test]
fn lifetime_0() {
    let _rule: Ruleset<BorrowedWord, Same> = Ruleset::new(vec![Subrule::new(Same::First, None)]);
}

enum WordOrNumber {
    Word(&'static str),
    Number(u32),
}

struct Parse;

impl Matcher<WordOrNumber> for Parse {
    fn spec_reduce(&self, input: WordOrNumber) -> Match<WordOrNumber, Parse> {
        self.reduce(&input)
    }

    fn reduce(&self, input: &WordOrNumber) -> Match<WordOrNumber, Parse> {
        match input {
            &WordOrNumber::Word(s) => match s.parse::<u32>() {
                Ok(value) => Match::from(Ok::<_, String>(Reductum::from(Consequence::new(vec![
                    Some(Consequent::try_from((1, WordOrNumber::Number(value))).unwrap()),
                ])))),
                Err(e) => Match::from(Err::<Reductum<WordOrNumber, Parse>, String>(e.to_string())),
            },
            _ => Default::default(),
        }
    }
}

#[test]
fn subrules_0() {
    let _reductum: Reductum<WordOrNumber, Parse> = Reductum::Subrule(Subrule::new(Parse, None));
}

#[test]
fn negation_0() {
    // `!"A" => "A"`
    let ruleset = literal_ruleset(vec![LiteralRule {
        antecedents: vec![(true, "A")],
        consequents: vec![Some((1, "A"))],
    }]);
    let grammar = [&ruleset];
    let mut parser: Parser<&'static str, &'static str, LiteralStep> = Parser::new();
    for input in "X".split_whitespace() {
        parser.parse(input, &grammar);
    }
    assert!(parser.interpret().iter().any(|r| *r.value() == "A"));
}

#[test]
fn context_sensitivity_left_0() {
    // "A", "B" => _, "C";
    // "A", "C" => "S";
    let ruleset = literal_ruleset(vec![
        rule(&["A", "B"], &[None, Some((1, "C"))]),
        rule(&["A", "C"], &[Some((2, "S"))]),
    ]);
    let grammar = [&ruleset];
    let mut parser: Parser<&'static str, &'static str, LiteralStep> = Parser::new();
    for input in "A B".split_whitespace() {
        parser.parse(input, &grammar);
    }
    assert!(parser.interpret().iter().all(|r| *r.value() == "S"));
    assert_eq!(parser.interpret().len(), 1);
}

#[test]
fn context_sensitivity_right_0() {
    // "A", "B" => "C", _;
    // "C", "B" => "S";
    let ruleset = literal_ruleset(vec![
        rule(&["A", "B"], &[Some((1, "C")), None]),
        rule(&["C", "B"], &[Some((2, "S"))]),
    ]);
    let grammar = [&ruleset];
    let mut parser: Parser<&'static str, &'static str, LiteralStep> = Parser::new();
    for input in "A B".split_whitespace() {
        parser.parse(input, &grammar);
    }
    assert!(parser.interpret().iter().all(|r| *r.value() == "S"));
    assert_eq!(parser.interpret().len(), 1);
}

#[test]
fn context_sensitivity_0() {
    // "A", "B", "C" => _, "P", _;
    // "A", "P", "C" => _, "Q", _;
    // "A", "Q", "C" => _, "R", _;
    // "A", "R", "C" => "S";
    let ruleset = literal_ruleset(vec![
        rule(&["A", "B", "C"], &[None, Some((1, "P")), None]),
        rule(&["A", "P", "C"], &[None, Some((1, "Q")), None]),
        rule(&["A", "Q", "C"], &[None, Some((1, "R")), None]),
        rule(&["A", "R", "C"], &[Some((3, "S"))]),
    ]);
    let grammar = [&ruleset];
    let mut parser: Parser<&'static str, &'static str, LiteralStep> = Parser::new();
    for input in "A B C".split_whitespace() {
        parser.parse(input, &grammar);
    }
    assert!(parser.interpret().iter().all(|r| *r.value() == "S"));
    assert_eq!(parser.interpret().len(), 1);
}

#[derive(Debug, Clone, PartialEq, Eq, Hash)]
enum Counted {
    A(usize),
    B(usize),
    C(usize),
    Input(&'static str),
    Accepted,
}

// Counted::Input("A") => Counted::A(1);
// Counted::Input("A"), Counted::A(a) => Counted::A(a + 1);
// Counted::Input("B") => Counted::B(1);
// Counted::Input("B"), Counted::B(b) => Counted::B(b + 1);
// Counted::Input("C") => Counted::C(1);
// Counted::Input("C"), Counted::C(c) => Counted::C(c + 1);
// Counted::A(_), Counted::B(b) => Counted::C(b), _;
// Counted::C(b), Counted::B(b) => Counted::Accepted;
enum CountStep {
    One(usize),
    InputThenCount(&'static str),
    Count(&'static str),
    AThenB,
    BAfterA,
    CThenB,
    BEqual(usize),
}

fn counted_done(consequents: Vec<Option<Consequent<Counted>>>) -> Match<Counted, CountStep> {
    Match::Hit { reductum: Reductum::Consequence(Consequence::new(consequents)) }
}

fn counted_next(step: CountStep) -> Match<Counted, CountStep> {
    Match::Hit { reductum: Reductum::Subrule(Subrule::new(step, None)) }
}

fn counted_make(name: &str, n: usize) -> Counted {
    match name {
        "A" => Counted::A(n),
        "B" => Counted::B(n),
        _ => Counted::C(n),
    }
}

fn counted_count(name: &str, s: &Counted) -> Option<usize> {
    match (name, s) {
        ("A", Counted::A(n)) | ("B", Counted::B(n)) | ("C", Counted::C(n)) => Some(*n),
        _ => None,
    }
}

impl Matcher<Counted> for CountStep {
    fn spec_reduce(&self, input: Counted) -> Match<Counted, CountStep> {
        self.reduce(&input)
    }

    fn reduce(&self, input: &Counted) -> Match<Counted, CountStep> {
        match self {
            CountStep::One(k) => {
                let name = ["A", "B", "C"][*k];
                match input {
                    Counted::Input(s) if *s == name => {
                        counted_done(vec![Some(Consequent::try_new(1, counted_make(name, 1)).unwrap())])
                    },
                    _ => Match::Miss,
                }
            },
            CountStep::InputThenCount(name) => match input {
                Counted::Input(s) if s == name => counted_next(CountStep::Count(name)),
                _ => Match::Miss,
            },
            CountStep::Count(name) => match counted_count(name, input) {
                Some(n) => counted_done(vec![Some(
                    Consequent::try_new(2, counted_make(name, n + 1)).unwrap(),
                )]),
                None => Match::Miss,
            },
            CountStep::AThenB => match input {
                Counted::A(_) => counted_next(CountStep::BAfterA),
                _ => Match::Miss,
            },
            CountStep::BAfterA => match input {
                Counted::B(b) => counted_done(vec![
                    Some(Consequent::try_new(1, Counted::C(*b)).unwrap()),
                    None,
                ]),
                _ => Match::Miss,
            },
            CountStep::CThenB => match input {
                Counted::C(b) => counted_next(CountStep::BEqual(*b)),
                _ => Match::Miss,
            },
            CountStep::BEqual(b) => match input {
                Counted::B(c) if c == b => {
                    counted_done(vec![Some(Consequent::try_new(2, Counted::Accepted).unwrap())])
                },
                _ => Match::Miss,
            },
        }
    }
}

#[test]
fn context_sensitivity_1() {
    let ruleset = Ruleset::new(vec![
        Subrule::new(CountStep::One(0), None),
        Subrule::new(CountStep::InputThenCount("A"), None),
        Subrule::new(CountStep::One(1), None),
        Subrule::new(CountStep::InputThenCount("B"), None),
        Subrule::new(CountStep::One(2), None),
        Subrule::new(CountStep::InputThenCount("C"), None),
        Subrule::new(CountStep::AThenB, None),
        Subrule::new(CountStep::CThenB, None),
    ]);
    let grammar = [&ruleset];
    let mut parser: Parser<Counted, Counted, CountStep> = Parser::new();
    for input in "A B B".split_whitespace().map(Counted::Input) {
        parser.parse(input, &grammar);
    }
    assert!(parser.interpret().iter().all(|r| *r.value() == Counted::Accepted));
    assert_eq!(parser.interpret().len(), 1);
}

#[derive(Debug, Hash, Clone)]
enum WordOrUsize {
    Word(&'static str),
    Usize(usize),
}

// WordOrUsize::Word(str) if let n = str.parse()? => WordOrUsize::Usize(n);
// WordOrUsize::Word(str) => WordOrUsize::Usize(str.parse()?);
struct ParseWord;

impl Matcher<WordOrUsize> for ParseWord {
    fn spec_reduce(&self, input: WordOrUsize) -> Match<WordOrUsize, ParseWord> {
        self.reduce(&input)
    }

    fn reduce(&self, input: &WordOrUsize) -> Match<WordOrUsize, ParseWord> {
        match input {
            WordOrUsize::Word(s) => match s.parse::<usize>() {
                Ok(n) => Match::Hit {
                    reductum: Reductum::Consequence(Consequence::new(vec![Some(
                        Consequent::try_new(1, WordOrUsize::Usize(n)).unwrap(),
                    )])),
                },
                Err(e) => Match::Error { reason: e.to_string() },
            },
            _ => Match::Miss,
        }
    }
}

#[test]
fn usize_0() {
    let ruleset = Ruleset::new(vec![Subrule::new(ParseWord, None), Subrule::new(ParseWord, None)]);
    let grammar = [&ruleset];
    let mut parser: Parser<WordOrUsize, WordOrUsize, ParseWord> = Parser::new();
    for input in "42".split_whitespace().map(WordOrUsize::Word) {
        parser.parse(input, &grammar);
    }
    let result = parser
        .interpret()
        .into_iter()
        .filter(|r| matches!(r.value(), WordOrUsize::Usize(42)));
    assert!(result.count() == 2);
}

enum Boxed {
    Word(Box<String>),
    Number(Box<usize>),
}

// Boxed::Word(&&"hello") => Boxed::Word(Default::default());
// Boxed::Number(&(42..43)) if let s = true && s == true => Boxed::Word(Default::default());
// Boxed::Number(&n @ 0..42) => Boxed::Number(Box::new(n * 2));
// Boxed::Number(&n), Boxed::Number(&n) => Boxed::Number(Box::new(n * n));
enum BoxedStep {
    Hello,
    FortyTwo,
    Small,
    Square,
    SquareAgain(usize),
}

fn boxed_one(value: Boxed) -> Match<Boxed, BoxedStep> {
    Match::Hit {
        reductum: Reductum::Consequence(Consequence::new(vec![Some(
            Consequent::try_new(1, value).unwrap(),
        )])),
    }
}

impl Matcher<Boxed> for BoxedStep {
    fn spec_reduce(&self, input: Boxed) -> Match<Boxed, BoxedStep> {
        self.reduce(&input)
    }

    fn reduce(&self, input: &Boxed) -> Match<Boxed, BoxedStep> {
        match (self, input) {
            (BoxedStep::Hello, Boxed::Word(w)) if w.as_str() == "hello" => {
                boxed_one(Boxed::Word(Default::default()))
            },
            (BoxedStep::FortyTwo, Boxed::Number(n)) if (42..43).contains(&**n) => {
                boxed_one(Boxed::Word(Default::default()))
            },
            (BoxedStep::Small, Boxed::Number(n)) if (0..42).contains(&**n) => {
                boxed_one(Boxed::Number(Box::new(**n * 2)))
            },
            (BoxedStep::Square, Boxed::Number(n)) => Match::Hit {
                reductum: Reductum::Subrule(Subrule::new(BoxedStep::SquareAgain(**n), None)),
            },
            (BoxedStep::SquareAgain(m), Boxed::Number(n)) if **n == *m => Match::Hit {
                reductum: Reductum::Consequence(Consequence::new(vec![Some(
                    Consequent::try_new(2, Boxed::Number(Box::new(m * m))).unwrap(),
                )])),
            },
            _ => Match::Miss,
        }
    }
}

#[test]
fn derefs_0() {
    let _ruleset: Ruleset<Boxed, BoxedStep> = Ruleset::new(vec![
        Subrule::new(BoxedStep::Hello, None),
        Subrule::new(BoxedStep::FortyTwo, None),
        Subrule::new(BoxedStep::Small, None),
        Subrule::new(BoxedStep::Square, None),
    ]);
}

#[test]
fn dynamic_0() {
    let mut inputs = "A B C".split_ascii_whitespace();
    let ruleset_ab = literal_ruleset(vec![rule(&["A"], &[Some((1, "B"))])]);
    let ruleset_bc = literal_ruleset(vec![rule(&["B"], &[Some((1, "C"))])]);
    let ruleset_cd = literal_ruleset(vec![rule(&["C"], &[Some((1, "D"))])]);
    let mut parser: Parser<&'static str, &'static str, LiteralStep> = Parser::new();
    parser.parse(inputs.next().unwrap(), &[&ruleset_ab]);
    assert!(parser
        .interpret_within(parser.chart().len() - 1..parser.chart().len())
        .iter()
        .any(|r| *r.value() == "B"));
    parser.parse(inputs.next().unwrap(), &[&ruleset_bc]);
    assert!(parser
        .interpret_within(parser.chart().len() - 1..parser.chart().len())
        .iter()
        .any(|r| *r.value() == "C"));
    parser.parse(inputs.next().unwrap(), &[&ruleset_cd]);
    assert!(parser
        .interpret_within(parser.chart().len() - 1..parser.chart().len())
        .iter()
        .any(|r| *r.value() == "D"));

    let interpretation = parser
        .interpret_within(parser.chart().len() - 1..parser.chart().len())
        .into_iter()
        .find(|r| *r.value() == "D")
        .unwrap();
    let tree = Tree::from_reducer(&interpretation);
    assert_eq!(*tree.value(), "D");
    assert_eq!(tree.range(), 2..3);
    assert_eq!(tree.subtrees().len(), 1);
    assert_eq!(*tree.subtrees()[0].value(), "C");
    assert!(tree.subtrees()[0].is_leaf());
}

#[test]
fn conclusions_cover_the_antecedents_of_their_consequent() {
    // "A", "B", "C" => _, _."D": "B" and "C" make "D" over them, "A" stays as it was.
    let ruleset = literal_ruleset(vec![rule(&["A", "B", "C"], &[None, Some((2, "D"))])]);
    let mut parser: Parser<&'static str, &'static str, LiteralStep> = Parser::new();
    parser.parse_all(vec!["A", "B", "C"], &[&ruleset]);
    let d = parser.interpret_within(1..3);
    assert_eq!(d.len(), 1);
    assert_eq!(*d[0].value(), "D");
    assert_eq!((d[0].start(), d[0].end()), (1, 3));
    let covered: Vec<&str> = d[0].antecedents().iter().map(|r| *r.value()).collect();
    assert_eq!(covered, vec!["B", "C"]);
    let reduction = d[0].conclusion().unwrap().reduction();
    let all: Vec<&str> = reduction.antecedents().iter().map(|r| *r.value()).collect();
    assert_eq!(all, vec!["A", "B", "C"]);
}
