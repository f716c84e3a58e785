use lint_rules::specificity::{
    find_tail_selector_str, AnyCssSelector, CssRule, CssSelector, DescendingSelector,
    NoDescendingSpecificity, SemanticModel, Specificity,
};
use lint_rules::text_range::TextRange;

fn compound(simple: &str, sub: &str) -> AnyCssSelector {
    AnyCssSelector::CssCompoundSelector {
        simple_selector: if simple.is_empty() { None } else { Some(simple.to_string()) },
        sub_selectors: sub.to_string(),
    }
}

fn complex(right: AnyCssSelector) -> AnyCssSelector {
    AnyCssSelector::CssComplexSelector { right: Some(Box::new(right)) }
}

fn selector(node: AnyCssSelector, start: u32, end: u32, spec: (u32, u32, u32)) -> CssSelector {
    CssSelector {
        node,
        range: TextRange { start, end },
        specificity: Specificity(spec.0, spec.1, spec.2),
    }
}

fn rule(selectors: Vec<CssSelector>, child_ids: Vec<usize>) -> CssRule {
    CssRule { selectors, child_ids }
}

#[test]
fn tail_selector_of_compound_and_complex() {
    assert_eq!(find_tail_selector_str(&compound("b", ":hover")), Some("b:hover".to_string()));
    assert_eq!(find_tail_selector_str(&complex(compound("a", ""))), Some("a".to_string()));
    assert_eq!(find_tail_selector_str(&compound("", ".x")), Some(".x".to_string()));
    assert_eq!(find_tail_selector_str(&AnyCssSelector::CssBogusSelector), None);
    assert_eq!(
        find_tail_selector_str(&AnyCssSelector::CssComplexSelector { right: None }),
        None
    );
}

#[test]
fn specificity_compares_lexicographically() {
    assert!(Specificity(1, 0, 0).is_greater_than(&Specificity(0, 9, 9)));
    assert!(Specificity(0, 1, 0).is_greater_than(&Specificity(0, 0, 9)));
    assert!(Specificity(0, 0, 2).is_greater_than(&Specificity(0, 0, 1)));
    assert!(!Specificity(0, 0, 1).is_greater_than(&Specificity(0, 0, 1)));
}

#[test]
fn descending_selector_is_reported() {
    // b a { color: red; } a { color: red; }
    let model = SemanticModel {
        rules: vec![
            rule(vec![selector(complex(compound("a", "")), 0, 3, (0, 0, 2))], vec![]),
            rule(vec![selector(compound("a", ""), 20, 21, (0, 0, 1))], vec![]),
        ],
        root_ids: vec![0, 1],
    };
    let found = NoDescendingSpecificity::run(&model);
    assert_eq!(
        found,
        vec![DescendingSelector {
            high: (TextRange { start: 0, end: 3 }, Specificity(0, 0, 2)),
            low: (TextRange { start: 20, end: 21 }, Specificity(0, 0, 1)),
        }]
    );
}

#[test]
fn ascending_or_equal_selectors_are_not_reported() {
    // a { color: red; } b a { color: red; } a { }
    let model = SemanticModel {
        rules: vec![
            rule(vec![selector(compound("a", ""), 0, 1, (0, 0, 1))], vec![]),
            rule(vec![selector(complex(compound("a", "")), 18, 21, (0, 0, 2))], vec![]),
            rule(vec![selector(compound("a", ""), 40, 41, (0, 0, 1))], vec![]),
        ],
        root_ids: vec![0, 1],
    };
    assert!(NoDescendingSpecificity::run(&model).is_empty());
}

#[test]
fn entry_follows_the_last_non_descending_selector() {
    // a, b a, a: the last is lower than the second, which replaced the first.
    let model = SemanticModel {
        rules: vec![rule(
            vec![
                selector(compound("a", ""), 0, 1, (0, 0, 1)),
                selector(complex(compound("a", "")), 3, 6, (0, 0, 2)),
                selector(compound("a", ""), 8, 9, (0, 0, 1)),
            ],
            vec![],
        )],
        root_ids: vec![0],
    };
    let found = NoDescendingSpecificity::run(&model);
    assert_eq!(found.len(), 1);
    assert_eq!(found[0].high.0, TextRange { start: 3, end: 6 });
    assert_eq!(found[0].low.0, TextRange { start: 8, end: 9 });
}

#[test]
fn chain_of_descending_selectors_keeps_the_first_as_reference() {
    let model = SemanticModel {
        rules: vec![rule(
            vec![
                selector(compound("a", ""), 0, 1, (1, 0, 0)),
                selector(compound("a", ""), 2, 3, (0, 1, 0)),
                selector(compound("a", ""), 4, 5, (0, 0, 1)),
            ],
            vec![],
        )],
        root_ids: vec![0],
    };
    let found = NoDescendingSpecificity::run(&model);
    assert_eq!(found.len(), 2);
    assert_eq!(found[0].high.0, TextRange { start: 0, end: 1 });
    assert_eq!(found[1].high.0, TextRange { start: 0, end: 1 });
    assert_eq!(found[1].low.0, TextRange { start: 4, end: 5 });
}

#[test]
fn shared_child_is_visited_once() {
    let model = SemanticModel {
        rules: vec![
            rule(vec![selector(complex(compound("a", "")), 0, 5, (1, 0, 1))], vec![2]),
            rule(vec![], vec![2, 7]),
            rule(vec![selector(compound("a", ""), 10, 11, (0, 0, 1))], vec![]),
        ],
        root_ids: vec![0, 1],
    };
    let found = NoDescendingSpecificity::run(&model);
    assert_eq!(found.len(), 1);
    assert_eq!(found[0].low.0, TextRange { start: 10, end: 11 });
}

#[test]
fn cyclic_rule_graph_terminates() {
    let model = SemanticModel {
        rules: vec![
            rule(vec![selector(compound("a", ""), 0, 1, (0, 1, 0))], vec![1, 0]),
            rule(vec![selector(compound("a", ""), 2, 3, (0, 0, 1))], vec![0]),
        ],
        root_ids: vec![0, 1, 0],
    };
    assert_eq!(NoDescendingSpecificity::run(&model).len(), 1);
}

#[test]
fn nested_rules_are_checked_after_their_parent() {
    let model = SemanticModel {
        rules: vec![
            rule(vec![selector(compound("a", ""), 0, 1, (0, 0, 1))], vec![1]),
            rule(vec![selector(compound("a", ".x"), 5, 7, (0, 1, 1))], vec![]),
            rule(vec![selector(compound("a", ".x"), 9, 11, (0, 0, 1))], vec![]),
        ],
        root_ids: vec![0, 2],
    };
    let found = NoDescendingSpecificity::run(&model);
    assert_eq!(found.len(), 1);
    assert_eq!(found[0].high.0, TextRange { start: 5, end: 7 });
    assert_eq!(found[0].low.0, TextRange { start: 9, end: 11 });
}

#[test]
fn diagnostic_names_both_specificities() {
    let finding = DescendingSelector {
        high: (TextRange { start: 0, end: 3 }, Specificity(10, 0, 123)),
        low: (TextRange { start: 20, end: 21 }, Specificity(0, 0, 1)),
    };
    let d = NoDescendingSpecificity::diagnostic(&finding);
    assert_eq!(d.range, TextRange { start: 20, end: 21 });
    assert_eq!(d.message, "Descending specificity selector found. This selector specificity is (0, 0, 1)");
    let (detail_range, detail) = d.detail.unwrap();
    assert_eq!(detail_range, TextRange { start: 0, end: 3 });
    assert_eq!(detail, "This selector specificity is (10, 0, 123)");
    assert!(d.note.is_some());
}

#[test]
fn specificity_text_is_decimal() {
    assert_eq!(Specificity(0, 0, 0).to_text(), "(0, 0, 0)");
    assert_eq!(Specificity(4294967295, 9, 10).to_text(), "(4294967295, 9, 10)");
}
