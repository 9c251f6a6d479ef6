use minicc::error::ParseError;
use minicc::parser::NodeKind::{
    NdAdd, NdAssign, NdDiv, NdEq, NdLess, NdLessEq, NdMul, NdNotEq, NdSub,
};
use minicc::parser::{program, LVar, Node, NodeKind};
use minicc::tokenizer::{at_eof, Token};

fn parse(source: &str) -> (Result<Vec<Node>, ParseError>, Vec<LVar>) {
    let mut tokens = Token::tokenize(source.chars().collect()).unwrap();
    let mut vars: Vec<LVar> = Vec::new();
    let result = program(&mut tokens, &mut vars);
    (result, vars)
}

fn parse_ok(source: &str) -> Vec<Node> {
    parse(source).0.unwrap()
}

fn n(val: u32) -> Node {
    Node::new(NodeKind::NdNum, None, None, Some(val), None)
}

fn v(offset: u32) -> Node {
    Node::new(NodeKind::NdLVar, None, None, None, Some(offset))
}

fn bin(kind: NodeKind, lhs: Node, rhs: Node) -> Node {
    Node::new(kind, Some(Box::new(lhs)), Some(Box::new(rhs)), None, None)
}

fn table(vars: &[LVar]) -> Vec<(String, u32)> {
    vars.iter().map(|var| (var.name(), var.offset())).collect()
}

#[test]
fn empty_program_has_no_statements() {
    let (result, vars) = parse("");
    assert_eq!(result, Ok(vec![]));
    assert!(vars.is_empty());
}

#[test]
fn literal_statement() {
    assert_eq!(parse_ok("42;"), vec![n(42)]);
}

#[test]
fn multiplication_binds_tighter_than_addition() {
    assert_eq!(
        parse_ok("1+2*3-4;"),
        vec![bin(NdSub, bin(NdAdd, n(1), bin(NdMul, n(2), n(3))), n(4))]
    );
}

#[test]
fn parentheses_group() {
    assert_eq!(parse_ok("(1+2)*3;"), vec![bin(NdMul, bin(NdAdd, n(1), n(2)), n(3))]);
    assert_eq!(parse_ok("((7));"), vec![n(7)]);
}

#[test]
fn operators_of_one_level_group_to_the_left() {
    assert_eq!(parse_ok("1-2-3;"), vec![bin(NdSub, bin(NdSub, n(1), n(2)), n(3))]);
    assert_eq!(parse_ok("1-2+3;"), vec![bin(NdAdd, bin(NdSub, n(1), n(2)), n(3))]);
    assert_eq!(parse_ok("8/4/2;"), vec![bin(NdDiv, bin(NdDiv, n(8), n(4)), n(2))]);
    assert_eq!(parse_ok("8/4*2;"), vec![bin(NdMul, bin(NdDiv, n(8), n(4)), n(2))]);
    assert_eq!(parse_ok("1<2<3;"), vec![bin(NdLess, bin(NdLess, n(1), n(2)), n(3))]);
    assert_eq!(parse_ok("1==2!=3;"), vec![bin(NdNotEq, bin(NdEq, n(1), n(2)), n(3))]);
}

#[test]
fn levels_nest_in_order_of_precedence() {
    assert_eq!(
        parse_ok("1==2<3+4*5;"),
        vec![bin(NdEq, n(1), bin(NdLess, n(2), bin(NdAdd, n(3), bin(NdMul, n(4), n(5)))))]
    );
    assert_eq!(
        parse_ok("1*2+3<4==5;"),
        vec![bin(NdEq, bin(NdLess, bin(NdAdd, bin(NdMul, n(1), n(2)), n(3)), n(4)), n(5))]
    );
}

#[test]
fn comparisons() {
    assert_eq!(parse_ok("1==2;"), vec![bin(NdEq, n(1), n(2))]);
    assert_eq!(parse_ok("1!=2;"), vec![bin(NdNotEq, n(1), n(2))]);
    assert_eq!(parse_ok("1<2;"), vec![bin(NdLess, n(1), n(2))]);
    assert_eq!(parse_ok("1<=2;"), vec![bin(NdLessEq, n(1), n(2))]);
}

#[test]
fn greater_than_is_less_than_with_operands_exchanged() {
    assert_eq!(parse_ok("1>2;"), vec![bin(NdLess, n(2), n(1))]);
    assert_eq!(parse_ok("1>=2;"), vec![bin(NdLessEq, n(2), n(1))]);
    assert_eq!(parse_ok("1>2>3;"), vec![bin(NdLess, n(3), bin(NdLess, n(2), n(1)))]);
    assert_eq!(parse_ok("a>b;"), vec![bin(NdLess, v(16), v(8))]);
}

#[test]
fn unary_minus_is_subtraction_from_zero() {
    assert_eq!(parse_ok("-5;"), vec![bin(NdSub, n(0), n(5))]);
    assert_eq!(parse_ok("-(1);"), vec![bin(NdSub, n(0), n(1))]);
    assert_eq!(parse_ok("2*-3;"), vec![bin(NdMul, n(2), bin(NdSub, n(0), n(3)))]);
    assert_eq!(parse_ok("1--2;"), vec![bin(NdSub, n(1), bin(NdSub, n(0), n(2)))]);
}

#[test]
fn unary_plus_is_nothing() {
    assert_eq!(parse_ok("+5;"), vec![n(5)]);
    assert_eq!(parse_ok("1++2;"), vec![bin(NdAdd, n(1), n(2))]);
}

#[test]
fn only_one_sign_before_a_primary() {
    assert_eq!(parse("--1;").0, Err(ParseError::ExpectedNumber));
    assert_eq!(parse("+-1;").0, Err(ParseError::ExpectedNumber));
}

#[test]
fn assignment_groups_to_the_right() {
    assert_eq!(parse_ok("a=1;"), vec![bin(NdAssign, v(8), n(1))]);
    assert_eq!(parse_ok("a=b=3;"), vec![bin(NdAssign, v(8), bin(NdAssign, v(16), n(3)))]);
    assert_eq!(parse_ok("a=1+2;"), vec![bin(NdAssign, v(8), bin(NdAdd, n(1), n(2)))]);
}

#[test]
fn anything_may_stand_left_of_an_assignment() {
    assert_eq!(parse_ok("1=2;"), vec![bin(NdAssign, n(1), n(2))]);
    assert_eq!(parse_ok("a+1=2;"), vec![bin(NdAssign, bin(NdAdd, v(8), n(1)), n(2))]);
}

#[test]
fn statements_come_in_source_order() {
    let (result, vars) = parse("a=3; b=5; a+b;");
    assert_eq!(
        result,
        Ok(vec![bin(NdAssign, v(8), n(3)), bin(NdAssign, v(16), n(5)), bin(NdAdd, v(8), v(16))])
    );
    assert_eq!(table(&vars), vec![("a".to_string(), 8), ("b".to_string(), 16)]);
}

#[test]
fn offsets_follow_first_occurrence() {
    let (result, vars) = parse("z; a; z; m; a; z;");
    assert_eq!(result, Ok(vec![v(8), v(16), v(8), v(24), v(16), v(8)]));
    assert_eq!(
        table(&vars),
        vec![("z".to_string(), 8), ("a".to_string(), 16), ("m".to_string(), 24)]
    );
}

#[test]
fn offsets_follow_the_tokens_not_the_tree() {
    let (result, vars) = parse("x = p > q;");
    assert_eq!(result, Ok(vec![bin(NdAssign, v(8), bin(NdLess, v(24), v(16)))]));
    assert_eq!(
        table(&vars),
        vec![("x".to_string(), 8), ("p".to_string(), 16), ("q".to_string(), 24)]
    );
}

#[test]
fn upper_and_lower_case_are_different_names() {
    let (result, vars) = parse("a; A;");
    assert_eq!(result, Ok(vec![v(8), v(16)]));
    assert_eq!(table(&vars), vec![("a".to_string(), 8), ("A".to_string(), 16)]);
}

#[test]
fn all_fifty_two_letters_fit() {
    let mut source = String::new();
    for c in ('a'..='z').chain('A'..='Z') {
        source.push(c);
        source.push(';');
    }
    let (result, vars) = parse(&source);
    let nodes = result.unwrap();
    assert_eq!(nodes.len(), 52);
    assert_eq!(vars.len(), 52);
    for (i, var) in vars.iter().enumerate() {
        assert_eq!(var.offset(), 8 * (i as u32 + 1));
        assert_eq!(nodes[i], v(8 * (i as u32 + 1)));
    }
    assert_eq!(vars[51].name(), "Z");
    assert_eq!(vars[51].offset(), 416);
}

#[test]
fn table_that_is_handed_in_is_kept() {
    let mut vars: Vec<LVar> = Vec::new();
    let mut first = Token::tokenize("a; b;".chars().collect()).unwrap();
    assert_eq!(program(&mut first, &mut vars), Ok(vec![v(8), v(16)]));
    let mut second = Token::tokenize("c; b; a;".chars().collect()).unwrap();
    assert_eq!(program(&mut second, &mut vars), Ok(vec![v(24), v(16), v(8)]));
    assert_eq!(
        table(&vars),
        vec![("a".to_string(), 8), ("b".to_string(), 16), ("c".to_string(), 24)]
    );
}

#[test]
fn cloned_variable_is_the_same_variable() {
    let (_, vars) = parse("k;");
    let copy = vars[0].clone();
    assert_eq!(copy.name(), "k");
    assert_eq!(copy.offset(), 8);
}

#[test]
fn parsing_stops_at_the_end_marker() {
    let mut tokens = Token::tokenize("1; 2;".chars().collect()).unwrap();
    let mut vars: Vec<LVar> = Vec::new();
    assert_eq!(program(&mut tokens, &mut vars), Ok(vec![n(1), n(2)]));
    assert_eq!(tokens.len(), 1);
    assert!(at_eof(&tokens));
}

#[test]
fn missing_closing_parenthesis() {
    assert_eq!(parse("(1+2;").0, Err(ParseError::ExpectedSymbol));
    assert_eq!(parse("(1+2").0, Err(ParseError::ExpectedSymbol));
}

#[test]
fn missing_semicolon() {
    assert_eq!(parse("1+2").0, Err(ParseError::ExpectedSymbol));
    assert_eq!(parse("1 2;").0, Err(ParseError::ExpectedSymbol));
    assert_eq!(parse("1; 2").0, Err(ParseError::ExpectedSymbol));
    assert_eq!(parse("a b;").0, Err(ParseError::ExpectedSymbol));
    assert_eq!(parse("1);").0, Err(ParseError::ExpectedSymbol));
}

#[test]
fn missing_operand() {
    assert_eq!(parse("1+;").0, Err(ParseError::ExpectedNumber));
    assert_eq!(parse(";").0, Err(ParseError::ExpectedNumber));
    assert_eq!(parse("*2;").0, Err(ParseError::ExpectedNumber));
    assert_eq!(parse("a=;").0, Err(ParseError::ExpectedNumber));
    assert_eq!(parse("()").0, Err(ParseError::ExpectedNumber));
    assert_eq!(parse("1<").0, Err(ParseError::ExpectedNumber));
}

#[test]
fn lone_exclamation_mark_is_no_operator() {
    assert_eq!(parse("!1;").0, Err(ParseError::ExpectedNumber));
    assert_eq!(parse("1!2;").0, Err(ParseError::ExpectedSymbol));
}

#[test]
fn first_error_ends_parsing() {
    assert_eq!(parse("1; (2; 3+;").0, Err(ParseError::ExpectedSymbol));
    assert_eq!(parse("1; 3+; (2;").0, Err(ParseError::ExpectedNumber));
}

#[test]
fn parsing_twice_gives_the_same_trees() {
    let source = "a = 3; b = a * (c + 40) >= -7; c = b = a;";
    let (first, first_vars) = parse(source);
    let (second, second_vars) = parse(source);
    assert_eq!(first, second);
    assert_eq!(table(&first_vars), table(&second_vars));
    assert_eq!(first.unwrap().len(), 3);
}

#[test]
fn cloned_tree_is_the_same_tree() {
    let nodes = parse_ok("a = (1 + 2) * -b;");
    assert_eq!(nodes[0].clone(), nodes[0]);
}

#[test]
fn node_new_fills_the_fields() {
    let node = Node::new(NodeKind::NdAdd, Some(Box::new(n(1))), Some(Box::new(v(8))), None, None);
    assert_eq!(node.kind, NodeKind::NdAdd);
    assert_eq!(node.lhs, Some(Box::new(n(1))));
    assert_eq!(node.rhs, Some(Box::new(v(8))));
    assert_eq!(node.val, None);
    assert_eq!(node.offset, None);
    assert_eq!(n(3).val, Some(3));
    assert_eq!(v(16).offset, Some(16));
}
