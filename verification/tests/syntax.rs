use ruleset::syntax::{step_texts, Consequent, Subrule, SyntaxError};

fn written(antecedents: usize, consequents: Vec<Consequent>) -> Subrule {
    Subrule { antecedents, consequents }
}

#[test]
fn a_rule_needs_an_antecedent() {
    let rule = written(0, vec![Consequent::Value { dots: 0 }]);
    assert_eq!(rule.expand(), Err(SyntaxError::NoAntecedent));
}

#[test]
fn a_rule_needs_a_consequent() {
    let rule = written(2, vec![]);
    assert_eq!(rule.expand(), Err(SyntaxError::NoConsequent));
}

#[test]
fn a_rule_needs_a_value() {
    let rule = written(2, vec![Consequent::Placeholder, Consequent::Placeholder]);
    assert_eq!(rule.expand(), Err(SyntaxError::OnlyPlaceholders));
}

#[test]
fn context_sensitive_widths_must_add_up() {
    let rule = written(3, vec![Consequent::Value { dots: 0 }, Consequent::Value { dots: 0 }]);
    assert_eq!(
        rule.expand(),
        Err(SyntaxError::WidthMismatch { antecedents: 3, consequents: 2 })
    );
}

#[test]
fn a_context_free_value_covers_all_antecedents() {
    let rule = written(3, vec![Consequent::Value { dots: 0 }]);
    assert!(rule.is_context_free());
    assert_eq!(rule.expand(), Ok(vec![Some(3)]));
}

#[test]
fn underscore_dots_hand_antecedents_on() {
    let rule = written(3, vec![Consequent::Value { dots: 1 }, Consequent::Value { dots: 0 }]);
    assert!(!rule.is_context_free());
    assert_eq!(rule.expand(), Ok(vec![Some(2), Some(1)]));
    let rule = written(3, vec![Consequent::Value { dots: 0 }, Consequent::Value { dots: 1 }]);
    assert_eq!(rule.expand(), Ok(vec![Some(1), Some(2)]));
}

#[test]
fn placeholders_keep_their_antecedents() {
    let rule = written(2, vec![Consequent::Placeholder, Consequent::Value { dots: 0 }]);
    assert_eq!(rule.expand(), Ok(vec![None, Some(1)]));
    assert!(Consequent::Placeholder.is_placeholder());
    assert_eq!(Consequent::Placeholder.len(), 1);
    assert_eq!(Consequent::Value { dots: 2 }.len(), 3);
}

#[test]
fn steps_are_written_as_suffixes_of_the_rule() {
    let antecedents = vec!["Sum(l, n)".to_string(), "Usize(m)".to_string()];
    let texts = step_texts(&antecedents, "Sum(l + 1, n + m)");
    assert_eq!(
        texts,
        vec![
            "Sum(l, n), Usize(m) => Sum(l + 1, n + m)".to_string(),
            "Usize(m) => Sum(l + 1, n + m)".to_string(),
        ]
    );
    assert!(step_texts(&vec![], "x").is_empty());
}
