use ruleset::{
    reducer_item_line, reduction_item_line, Consequence, Consequent, Match, Matcher, Parser,
    Reductum, Ruleset, Subrule,
};

#[derive(Debug, PartialEq, Eq, Hash, Clone)]
enum Symbol {
    Sum(usize, usize),
    Usize(usize),
}

impl From<usize> for Symbol {
    fn from(value: usize) -> Self {
        Symbol::Usize(value)
    }
}

/// The steps of
/// ```text
/// Sum(l, n), Usize(m) => Sum(l + 1, n + m);
/// Usize(n), Usize(m) => Sum(0, n + m);
/// ```
/// with the debug texts each step would be written with.
enum Step {
    SumFirst,
    SumThen(usize, usize),
    UsizeFirst,
    UsizeThen(usize),
}

fn next(step: Step, text: &str) -> Match<Symbol, Step> {
    Match::Hit { reductum: Reductum::Subrule(Subrule::new(step, Some(text.to_string()))) }
}

fn done(value: Symbol, text: &str) -> Match<Symbol, Step> {
    Match::Hit {
        reductum: Reductum::Consequence(Consequence::new_with_debug_text(
            vec![Some(Consequent::try_new(2, value).unwrap())],
            text.to_string(),
        )),
    }
}

impl Matcher<Symbol> for Step {
    fn spec_reduce(&self, input: Symbol) -> Match<Symbol, Step> {
        self.reduce(&input)
    }

    fn reduce(&self, input: &Symbol) -> Match<Symbol, Step> {
        match (self, input) {
            (Step::SumFirst, Symbol::Sum(l, n)) => {
                next(Step::SumThen(*l, *n), "Usize(m) => Sum(l + 1, n + m)")
            },
            (Step::SumThen(l, n), Symbol::Usize(m)) => done(Symbol::Sum(l + 1, n + m), "Sum(l + 1, n + m)"),
            (Step::UsizeFirst, Symbol::Usize(n)) => next(Step::UsizeThen(*n), "Usize(m) => Sum(0, n + m)"),
            (Step::UsizeThen(n), Symbol::Usize(m)) => done(Symbol::Sum(0, n + m), "Sum(0, n + m)"),
            _ => Match::Miss,
        }
    }
}

fn parsed() -> Parser<usize, Symbol, Step> {
    let ruleset = Ruleset::new(vec![
        Subrule::new(Step::SumFirst, Some("Sum(l, n), Usize(m) => Sum(l + 1, n + m)".to_string())),
        Subrule::new(Step::UsizeFirst, Some("Usize(n), Usize(m) => Sum(0, n + m)".to_string())),
    ]);
    let mut parser = Parser::new();
    parser.parse_all(vec![0, 1, 2], &[&ruleset]);
    parser
}

fn labels(parser: &Parser<usize, Symbol, Step>) -> Vec<Vec<Vec<String>>> {
    parser
        .chart()
        .rows()
        .iter()
        .map(|row| {
            row.iter()
                .map(|cell| {
                    cell.iter()
                        .map(|item| item.reducer().map(|r| format!("{:?}", r.value())).unwrap_or_default())
                        .collect()
                })
                .collect()
        })
        .collect()
}

#[test]
fn cells_show_items_in_two_lines() {
    let parser = parsed();
    let cells = parser.chart().cell_texts(&labels(&parser));
    assert_eq!(cells.len(), 3);
    assert_eq!(cells.iter().map(|row| row.len()).collect::<Vec<_>>(), vec![1, 2, 3]);
    let first: Vec<&str> = cells[0][0].lines().collect();
    assert_eq!(first.len(), 4);
    assert!(first[0].starts_with('ϛ') && first[0].chars().count() == 5);
    assert_eq!(first[1], "└─Usize(0)");
    assert!(first[2].starts_with('Δ') && first[2].chars().count() == 15);
    assert!(first[2].contains('⋅'));
    assert_eq!(first[3], "└─Usize(m) => Sum(0, n + m)");
    let middle: Vec<&str> = cells[1][1].lines().collect();
    assert_eq!(middle[1], "└─=> Sum(0, n + m)");
    assert!(middle[0].contains(':'));
    assert_eq!(middle[3], "└─Sum(0, 1)");
    assert!(middle[2].starts_with('ϛ') && middle[2].chars().count() == 10);
    let last: Vec<&str> = cells[2][2].lines().collect();
    assert_eq!(last[3], "└─Sum(1, 3)");
    assert!(cells[2][2].ends_with('\n'));
}

#[test]
fn table_draws_every_cell() {
    let parser = parsed();
    let text = parser.text_with(&labels(&parser));
    assert!(text.starts_with('┌'));
    assert!(text.ends_with('┘'));
    assert!(text.contains("└─Usize(m) => Sum(l + 1, n + m)"));
    assert!(text.contains("└─Sum(1, 3)"));
    assert_eq!(text.lines().filter(|l| l.starts_with('├')).count(), 2);
}

#[test]
fn item_lines_from_digests() {
    let line = reduction_item_line(0x05F3_0000_0000_0000, 0x2387_0000_0000_0000, true, 0xF399_0000_0000_0000, "Usize(m) => Sum(0, n + m)", Some(4));
    assert_eq!(line, "Δ05F3∵2387⋅F399\n└─Usize(m) => Sum(0, n + m)");
    let line = reduction_item_line(0x2BAA_0000_0000_0000, 0x05F3_0000_0000_0000, false, 0x0462_0000_0000_0000, "=> Sum(0, n + m)", Some(4));
    assert_eq!(line, "Δ2BAA∵05F3:0462\n└─=> Sum(0, n + m)");
    let line = reducer_item_line(0x22F6_0000_0000_0000, Some(0x2BAA_0000_0000_0000), "Sum(0, 1)", Some(4));
    assert_eq!(line, "ϛ22F6∵2BAA\n└─Sum(0, 1)");
    let line = reducer_item_line(0xF399_0000_0000_0000, None, "Usize(0)", None);
    assert_eq!(line, "ϛF399000000000000\n└─Usize(0)");
}
