use sexpr_sched::parse::{collect_sexprs, parse_sexpr, ParseError, ParseErrorKind};
use sexpr_sched::tree::{OpType, Sexpr};

fn leaf(v: i64, id: usize) -> Sexpr {
    Sexpr { op: OpType::Int(v), sexprs: Vec::new(), depth_cost: 0, id }
}

#[test]
fn minus_no_children_is_zero() {
    let e = Sexpr { op: OpType::Minus, sexprs: Vec::new(), depth_cost: 0, id: 0 };
    assert_eq!(e.interpret(), Some(0));
}

#[test]
fn minus_one_child_negates() {
    let e = Sexpr { op: OpType::Minus, sexprs: vec![leaf(5, 1)], depth_cost: 0, id: 0 };
    assert_eq!(e.interpret(), Some(-5));
    assert_eq!(parse_sexpr("(- 5)").unwrap().interpret(), Some(-5));
}

#[test]
fn minus_folds_left_to_right() {
    assert_eq!(parse_sexpr("(- 10 1 2 3)").unwrap().interpret(), Some(4));
}

#[test]
fn sum_no_children_is_zero() {
    let e = Sexpr { op: OpType::Plus, sexprs: Vec::new(), depth_cost: 0, id: 0 };
    assert_eq!(e.interpret(), Some(0));
}

#[test]
fn product_no_children_is_one() {
    let e = Sexpr { op: OpType::Mul, sexprs: Vec::new(), depth_cost: 0, id: 0 };
    assert_eq!(e.interpret(), Some(1));
}

#[test]
fn negative_literal_parses() {
    assert_eq!(parse_sexpr("-42").unwrap().interpret(), Some(-42));
    assert_eq!(parse_sexpr("(- (+ 10 10) -5 0)").unwrap().interpret(), Some(25));
}

#[test]
fn interpret_reports_overflow() {
    assert_eq!(parse_sexpr("(* 9223372036854775807 2)").unwrap().interpret(), None);
    assert_eq!(parse_sexpr("(+ 9223372036854775807 1)").unwrap().interpret(), None);
    assert_eq!(parse_sexpr("(- -9223372036854775807 2)").unwrap().interpret(), None);
}

#[test]
fn negation_of_min_reports_overflow() {
    let e = Sexpr {
        op: OpType::Minus,
        sexprs: vec![leaf(i64::MIN, 1)],
        depth_cost: 0,
        id: 0,
    };
    assert_eq!(e.interpret(), None);
}

#[test]
fn operator_costs() {
    assert_eq!(OpType::Plus.cost(), 2);
    assert_eq!(OpType::Minus.cost(), 3);
    assert_eq!(OpType::Mul.cost(), 10);
    assert_eq!(OpType::Int(7).cost(), 0);
}

#[test]
fn total_work_sums_all_operator_costs() {
    // (+ (* 4 4) (* 2 (- 7 5)) 1): one +, two *, one - => 2 + 10 + 10 + 3 = 25
    let e = parse_sexpr("(+ (* 4 4) (* 2 (- 7 5)) 1)").unwrap();
    assert_eq!(e.total_work(), 25);
    assert_eq!(parse_sexpr("10").unwrap().total_work(), 0);
}

#[test]
fn parse_error_unexpected_char() {
    assert_eq!(
        parse_sexpr("(? 1 2)").unwrap_err(),
        ParseError { pos: 1, kind: ParseErrorKind::UnexpectedChar }
    );
    assert!(parse_sexpr("abc").is_err());
}

#[test]
fn parse_error_unexpected_end() {
    assert_eq!(
        parse_sexpr("").unwrap_err(),
        ParseError { pos: 0, kind: ParseErrorKind::UnexpectedEnd }
    );
    assert!(parse_sexpr("(+ 1 2").is_err());
    assert!(parse_sexpr("(").is_err());
}

#[test]
fn parse_error_int_out_of_range() {
    assert_eq!(
        parse_sexpr("99999999999999999999").unwrap_err(),
        ParseError { pos: 0, kind: ParseErrorKind::IntOutOfRange }
    );
    // the digit run must fit before the sign is applied, as the original did
    assert!(parse_sexpr("-9223372036854775808").is_err());
    assert_eq!(parse_sexpr("9223372036854775807").unwrap().interpret(), Some(i64::MAX));
}

#[test]
fn parse_tolerates_whitespace() {
    assert_eq!(parse_sexpr("  ( +  1   2 ) ").unwrap().interpret(), Some(3));
    assert_eq!(parse_sexpr("( - 5 )").unwrap().interpret(), Some(-5));
}

#[test]
fn parse_assigns_preorder_ids() {
    let e = parse_sexpr("(+ 1 (* 2 3))").unwrap();
    assert_eq!(e.id, 0);
    assert_eq!(e.sexprs[0].id, 1);
    assert_eq!(e.sexprs[1].id, 2);
    assert_eq!(e.sexprs[1].sexprs[0].id, 3);
    assert_eq!(e.sexprs[1].sexprs[1].id, 4);
    assert_eq!(e.node_count(), 5);
    assert!(!e.is_leaf());
    assert!(e.sexprs[0].is_leaf());
    assert!(matches!(e.operator_of(), OpType::Plus));
    assert_eq!(e.children_of().len(), 2);
}

#[test]
fn update_depth_cost_adds_parent_costs() {
    let mut e = parse_sexpr("(+ 1 (* 2 3))").unwrap();
    e.update_depth_cost(1);
    assert_eq!(e.depth_cost, 1);
    assert_eq!(e.sexprs[0].depth_cost, 3); // 1 + cost of '+'
    assert_eq!(e.sexprs[1].depth_cost, 3);
    assert_eq!(e.sexprs[1].sexprs[0].depth_cost, 13); // 3 + cost of '*'
}

#[test]
fn collect_sexprs_folds_and_propagates_errors() {
    let err = ParseError { pos: 7, kind: ParseErrorKind::UnexpectedChar };
    let ok = collect_sexprs(Ok(Vec::new()), Ok(leaf(1, 0)));
    let v = ok.unwrap();
    assert_eq!(v.len(), 1);
    assert_eq!(v[0].interpret(), Some(1));
    assert_eq!(
        collect_sexprs(Ok(Vec::new()), Err(err)).unwrap_err(),
        err
    );
    assert_eq!(collect_sexprs(Err(err), Ok(leaf(1, 0))).unwrap_err(), err);
}
