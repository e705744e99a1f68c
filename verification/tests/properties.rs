use filter_parser::error::ParsingError;
use filter_parser::expr::Expr;
use filter_parser::run;
use filter_parser::token_type::TokenType;

/// The lexemes of the leaf tokens of `e`, concatenated in order.
fn leaves_of(e: &Expr) -> String {
    match e {
        Expr::Grouping { expr } => leaves_of(expr),
        Expr::Logical { left, operator, right } => {
            format!("{}{}{}", leaves_of(left), operator.lexeme, leaves_of(right))
        }
        Expr::Term { expr } => leaves_of(expr),
        Expr::Filter { left, operator, right } => {
            format!("{}{}{}", leaves_of(left), operator.lexeme, leaves_of(right))
        }
        Expr::SetRef { question, item } => match question {
            Some(q) => format!("{}{}", q.lexeme, item.lexeme),
            None => item.lexeme.clone(),
        },
        Expr::Element => String::new(),
        Expr::Range { left, right } => format!("{}{}", left.lexeme, right.lexeme),
        Expr::List { value, next } => format!("{}{}", value.lexeme, leaves_of(next)),
        Expr::EndOfList => String::new(),
        Expr::Literal { value } => value.lexeme.clone(),
    }
}

/// A textual rendering of the tree, re-joined per the grammar. The bracket
/// style of a grouping is not retained by the tree, so parentheses stand for
/// all three.
fn render(e: &Expr) -> String {
    match e {
        Expr::Grouping { expr } => format!("({})", render(expr)),
        Expr::Logical { left, operator, right } => {
            format!("{}{}{}", render(left), operator.lexeme, render(right))
        }
        Expr::Term { expr } => render(expr),
        Expr::Filter { left, operator, right } => {
            format!("{}{}{}", render(left), operator.lexeme, render(right))
        }
        Expr::SetRef { question, item } => match question {
            Some(q) => format!("{};{}", q.lexeme, item.lexeme),
            None => item.lexeme.clone(),
        },
        Expr::Element => String::new(),
        Expr::Range { left, right } => format!("{}:{}", left.lexeme, right.lexeme),
        Expr::List { value, next } => match next.as_ref() {
            Expr::EndOfList => value.lexeme.clone(),
            rest => format!("{},{}", value.lexeme, render(rest)),
        },
        Expr::EndOfList => String::new(),
        Expr::Literal { value } => value.lexeme.clone(),
    }
}

/// Whether two trees have the same variant shape, operator kinds included.
fn shape_eq(a: &Expr, b: &Expr) -> bool {
    match (a, b) {
        (Expr::Grouping { expr: ea }, Expr::Grouping { expr: eb }) => shape_eq(ea, eb),
        (
            Expr::Logical { left: la, operator: oa, right: ra },
            Expr::Logical { left: lb, operator: ob, right: rb },
        ) => oa.variant == ob.variant && shape_eq(la, lb) && shape_eq(ra, rb),
        (Expr::Term { expr: ea }, Expr::Term { expr: eb }) => shape_eq(ea, eb),
        (
            Expr::Filter { left: la, operator: oa, right: ra },
            Expr::Filter { left: lb, operator: ob, right: rb },
        ) => oa.variant == ob.variant && shape_eq(la, lb) && shape_eq(ra, rb),
        (Expr::SetRef { question: qa, .. }, Expr::SetRef { question: qb, .. }) => {
            qa.is_some() == qb.is_some()
        }
        (Expr::Element, Expr::Element) => true,
        (Expr::Range { .. }, Expr::Range { .. }) => true,
        (Expr::List { next: na, .. }, Expr::List { next: nb, .. }) => shape_eq(na, nb),
        (Expr::EndOfList, Expr::EndOfList) => true,
        (Expr::Literal { .. }, Expr::Literal { .. }) => true,
        _ => false,
    }
}

fn reportables(ds: &[ParsingError]) -> Vec<(String, usize, usize)> {
    ds.iter()
        .map(|e| match e {
            ParsingError::Report { message, line, column } => (message.clone(), *line, *column),
            ParsingError::Internal { message, line, column } => (message.clone(), *line, *column),
        })
        .collect()
}

#[test]
fn filter_with_qualified_set_and_literal() {
    let tree = run("q01;elb0001=1").expect("parse should succeed");
    match tree {
        Expr::Filter { left, operator, right } => {
            assert_eq!(operator.variant, TokenType::Equal);
            match *left {
                Expr::SetRef { question, item } => {
                    let q = question.expect("question should be present");
                    assert_eq!(q.lexeme, "q01");
                    assert_eq!((q.line, q.column), (1, 1));
                    assert_eq!(item.lexeme, "elb0001");
                    assert_eq!((item.line, item.column), (1, 5));
                }
                other => panic!("expected a set reference, got {:?}", other),
            }
            match *right {
                Expr::Literal { value } => {
                    assert_eq!(value.lexeme, "1");
                    assert_eq!((value.line, value.column), (1, 13));
                }
                other => panic!("expected a number literal, got {:?}", other),
            }
        }
        other => panic!("expected a filter, got {:?}", other),
    }
}

#[test]
fn filter_with_list_of_numbers() {
    let tree = run("q01;elb001 = 1, 2, 4").expect("parse should succeed");
    match tree {
        Expr::Filter { right, .. } => match *right {
            Expr::List { value: v1, next: n1 } => {
                assert_eq!(v1.lexeme, "1");
                match *n1 {
                    Expr::List { value: v2, next: n2 } => {
                        assert_eq!(v2.lexeme, "2");
                        match *n2 {
                            Expr::List { value: v3, next: n3 } => {
                                assert_eq!(v3.lexeme, "4");
                                assert!(matches!(*n3, Expr::EndOfList));
                            }
                            other => panic!("expected a third list node, got {:?}", other),
                        }
                    }
                    other => panic!("expected a second list node, got {:?}", other),
                }
            }
            other => panic!("expected a list, got {:?}", other),
        },
        other => panic!("expected a filter, got {:?}", other),
    }
}

#[test]
fn missing_closing_paren_reports_expected_paren() {
    let ds = run("(q01;hl0001=1 & q02;hl0012=3").expect_err("parse should fail");
    assert_eq!(ds.len(), 1, "expected exactly one diagnostic, got {:?}", ds);
    let (message, _, _) = &reportables(&ds)[0];
    assert_eq!(message, "Expected ')'");
}

#[test]
fn bare_number_left_operand_fails() {
    let ds = run("1=2").expect_err("parse should fail");
    assert!(ds.len() >= 1);
    assert!(ds.iter().all(|e| matches!(e, ParsingError::Report { .. })));
}

#[test]
fn empty_grouping_fails() {
    assert!(run("()").is_err());
}

#[test]
fn two_filters_without_combinator_report_expected_combinator() {
    let ds = run("q01;hl0001=1  q02;hl0012=3").expect_err("parse should fail");
    assert_eq!(ds.len(), 1, "expected exactly one diagnostic, got {:?}", ds);
    let (message, _, _) = &reportables(&ds)[0];
    assert_eq!(message, "Expected '&' or '|'");
}

#[test]
fn and_is_right_associative() {
    let tree = run("a=1 & b=2 & c=3").expect("parse should succeed");
    match tree {
        Expr::Logical { left, operator, right } => {
            assert_eq!(operator.variant, TokenType::And);
            assert!(
                matches!(*left, Expr::Filter { .. }),
                "left child of the outer conjunction should be the first filter"
            );
            match *right {
                Expr::Logical { left: l2, operator: o2, right: r2 } => {
                    assert_eq!(o2.variant, TokenType::And);
                    assert_eq!(leaves_of(&l2), "b=2");
                    assert_eq!(leaves_of(&r2), "c=3");
                }
                other => panic!(
                    "right child should be the conjunction of the rest, got {:?}",
                    other
                ),
            }
        }
        other => panic!("expected a conjunction, got {:?}", other),
    }
}

#[test]
fn or_is_right_associative() {
    let tree = run("a=1 | b=2 | c=3").expect("parse should succeed");
    match tree {
        Expr::Logical { operator, right, .. } => {
            assert_eq!(operator.variant, TokenType::Or);
            assert!(matches!(*right, Expr::Logical { .. }));
        }
        other => panic!("expected a disjunction, got {:?}", other),
    }
}

#[test]
fn one_reportable_per_malformed_segment() {
    // One malformed segment joined by `&` to a valid one: parsing resumes
    // past the bad segment and exactly one diagnostic reaches the user.
    let ds = run("1=2 & q01;a=1").expect_err("parse should fail");
    assert_eq!(ds.len(), 1, "expected exactly one diagnostic, got {:?}", ds);
    assert!(matches!(ds[0], ParsingError::Report { .. }));
}

#[test]
fn illegal_character_reported_at_its_position() {
    let ds = run("#q01;elb001=2").expect_err("parse should fail");
    let rs = reportables(&ds);
    assert!(
        rs.iter().any(|(m, l, c)| m == "Unexpected character" && *l == 1 && *c == 1),
        "missing diagnostic at the '#': {:?}",
        ds
    );
}

#[test]
fn stray_dot_reported_at_its_position() {
    let ds = run("q01.elb001 = 2").expect_err("parse should fail");
    let rs = reportables(&ds);
    assert!(
        rs.iter().any(|(m, l, c)| {
            m == "'.' only allowed as decimal separator" && *l == 1 && *c == 4
        }),
        "missing diagnostic at the '.': {:?}",
        ds
    );
}

#[test]
fn dangling_minus_reports_expected_number() {
    let ds = run("elb03 = -").expect_err("parse should fail");
    let rs = reportables(&ds);
    assert!(rs.iter().any(|(m, _, _)| m == "Expected number"), "{:?}", ds);
}

#[test]
fn missing_item_identifier_reported() {
    let ds = run("elb01;=2").expect_err("parse should fail");
    let (message, _, _) = &reportables(&ds)[0];
    assert_eq!(message, "Expected item identifier");
}

#[test]
fn missing_question_identifier_reported() {
    let ds = run(";;").expect_err("parse should fail");
    let (message, _, _) = &reportables(&ds)[0];
    assert_eq!(message, "Expected question identifier");
}

#[test]
fn missing_operator_reported() {
    let ds = run("elb01;elb01;").expect_err("parse should fail");
    let (message, _, _) = &reportables(&ds)[0];
    assert_eq!(message, "Expected one of '=', '==', '!=', '>', '>=', '<', '<='");
}

#[test]
fn empty_input_fails_with_generic_diagnostic() {
    let ds = run("").expect_err("parse should fail");
    assert_eq!(ds.len(), 1);
    match &ds[0] {
        ParsingError::Report { message, line, column } => {
            assert_eq!(message, "Parsing Error");
            assert_eq!((*line, *column), (1, 1));
        }
        other => panic!("expected a user-facing diagnostic, got {:?}", other),
    }
}

#[test]
fn blank_input_fails() {
    assert!(run("   ").is_err());
}

#[test]
fn diagnostics_are_deduplicated_by_position() {
    let ds = run("q01)elb001 = 3").expect_err("parse should fail");
    let rs = reportables(&ds);
    for (i, (_, l1, c1)) in rs.iter().enumerate() {
        for (_, l2, c2) in rs.iter().skip(i + 1) {
            assert!(
                (l1, c1) != (l2, c2),
                "two diagnostics at one position: {:?}",
                ds
            );
        }
    }
}

#[test]
fn leaves_spell_source_without_whitespace_and_punctuation() {
    let source = "q01;hl0001=1 & (q02;hl0012=3 | q03;hl041=4)";
    let tree = run(source).expect("parse should succeed");
    let stripped: String = source
        .chars()
        .filter(|c| !c.is_whitespace() && !"()[]{},:;".contains(*c))
        .collect();
    assert_eq!(leaves_of(&tree), stripped);
}

#[test]
fn reparsing_the_rendering_gives_the_same_shape() {
    let cases = vec![
        "q01;elb0001=1",
        "q01;hl0001 = 1, 2, 4",
        "q01;elb001 = 2:3",
        "q01;hl0001=1 & (q02;hl0012=3 | q03;hl041=4)",
        "q02;hl0012 = hl0001",
    ];
    for case in cases {
        let tree = run(case).expect("parse should succeed");
        let rendered = render(&tree);
        let tree2 = run(&rendered).expect("rendering should parse again");
        assert!(
            shape_eq(&tree, &tree2),
            "shapes differ for {:?} rendered as {:?}",
            case,
            rendered
        );
    }
}

#[test]
fn reparsing_keeps_shape_across_bracket_styles() {
    let tree = run("[q01;hl0001=1 & q02;hl0012=3]").expect("parse should succeed");
    let rendered = render(&tree);
    assert_eq!(rendered, "(q01;hl0001=1&q02;hl0012=3)");
    let tree2 = run(&rendered).expect("rendering should parse again");
    assert!(shape_eq(&tree, &tree2));
}
