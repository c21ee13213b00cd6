use ruleset::{Consequence, Consequent, IteratorReducerExt, Match, Matcher, Parser, Reductum, Ruleset, Subrule};

/// `n, m => n + m`
#[derive(Clone, Debug)]
enum Sum {
    First,
    Second(usize),
}

impl Matcher<usize> for Sum {
    fn spec_reduce(&self, input: usize) -> Match<usize, Sum> {
        self.reduce(&input)
    }

    fn reduce(&self, input: &usize) -> Match<usize, Sum> {
        match self {
            Sum::First => Match::Hit {
                reductum: Reductum::Subrule(Subrule::new(Sum::Second(*input), Some("m => n + m".to_string()))),
            },
            Sum::Second(n) => Match::Hit {
                reductum: Reductum::Consequence(Consequence::new_with_debug_text(
                    vec![Some(Consequent::try_new(2, n + input).unwrap())],
                    "n + m".to_string(),
                )),
            },
        }
    }
}

#[test]
fn sum_naive() {
    let ruleset = Ruleset::new(vec![Subrule::new(Sum::First, Some("n, m => n + m".to_string()))]);
    let mut parser: Parser<usize, usize, Sum> = Parser::new();
    parser.parse_all(vec![0, 1, 2], &[&ruleset]);
    let trees = parser.interpret_as(&3).collect_trees();
    assert!(trees.len() == 2);
}

fn text_of(tree: &ruleset::Tree<usize>) -> String {
    let labels: Vec<String> = tree.values_in_order().iter().map(|v| v.to_string()).collect();
    tree.text_with(&labels)
}

#[test]
fn sum_naive_trees_are_flattened() {
    let ruleset = Ruleset::new(vec![Subrule::new(Sum::First, Some("n, m => n + m".to_string()))]);
    let mut parser: Parser<usize, usize, Sum> = Parser::new();
    parser.parse_all(vec![0, 1, 2], &[&ruleset]);
    let trees = parser.interpret_as(&3).collect_trees();
    let texts: Vec<String> = trees.iter().map(text_of).collect();
    assert_eq!(
        texts,
        vec![
            "3@0..3\n├─0@0..1\n├─1@1..2\n└─2@2..3".to_string(),
            "3@0..3\n├─1@0..2\n│ └─0@0..1\n└─2@2..3".to_string(),
        ]
    );
}

#[test]
fn parse_all_is_parse_word_by_word() {
    let ruleset = Ruleset::new(vec![Subrule::new(Sum::First, Some("n, m => n + m".to_string()))]);
    let mut all: Parser<usize, usize, Sum> = Parser::new();
    all.parse_all(vec![0, 1, 2], &[&ruleset]);
    let mut one_by_one: Parser<usize, usize, Sum> = Parser::new();
    for word in [0, 1, 2] {
        one_by_one.parse(word, &[&ruleset]);
    }
    let texts = |parser: &Parser<usize, usize, Sum>| -> Vec<String> {
        parser.interpret_as(&3).collect_trees().iter().map(text_of).collect()
    };
    assert_eq!(texts(&all), texts(&one_by_one));
    assert_eq!(all.interpret().len(), one_by_one.interpret().len());
}
