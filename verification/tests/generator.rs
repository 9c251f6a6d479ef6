use minicc::assembly::{assembly, write_instr};
use minicc::error::ParseError;
use minicc::generator::{generate_program, generator, Instr};
use minicc::parser::{Node, NodeKind};

fn num_node(val: u32) -> Node {
    Node::new(NodeKind::NdNum, None, None, Some(val), None)
}

fn var_node(offset: u32) -> Node {
    Node::new(NodeKind::NdLVar, None, None, None, Some(offset))
}

fn node(kind: NodeKind, lhs: Node, rhs: Node) -> Node {
    Node::new(kind, Some(Box::new(lhs)), Some(Box::new(rhs)), None, None)
}

fn lines_of(instr: Instr) -> Vec<String> {
    let mut lines = Vec::new();
    write_instr(instr, &mut lines);
    lines
}

#[test]
fn literal_is_pushed() {
    assert_eq!(generator(num_node(7)), Ok(vec![Instr::PushNum(7)]));
}

#[test]
fn variable_is_address_then_load() {
    assert_eq!(generator(var_node(16)), Ok(vec![Instr::PushAddr(16), Instr::Load]));
}

#[test]
fn assignment_is_address_value_store() {
    assert_eq!(
        generator(node(NodeKind::NdAssign, var_node(8), num_node(5))),
        Ok(vec![Instr::PushAddr(8), Instr::PushNum(5), Instr::Store])
    );
}

#[test]
fn operands_come_left_to_right_before_the_operator() {
    assert_eq!(
        generator(node(NodeKind::NdSub, var_node(8), num_node(2))),
        Ok(vec![Instr::PushAddr(8), Instr::Load, Instr::PushNum(2), Instr::Sub])
    );
    assert_eq!(
        generator(node(
            NodeKind::NdAdd,
            node(NodeKind::NdMul, num_node(1), num_node(2)),
            node(NodeKind::NdDiv, num_node(3), num_node(4)),
        )),
        Ok(vec![
            Instr::PushNum(1),
            Instr::PushNum(2),
            Instr::Mul,
            Instr::PushNum(3),
            Instr::PushNum(4),
            Instr::Div,
            Instr::Add,
        ])
    );
}

#[test]
fn every_operator_has_its_instruction() {
    for (kind, instr) in [
        (NodeKind::NdAdd, Instr::Add),
        (NodeKind::NdSub, Instr::Sub),
        (NodeKind::NdMul, Instr::Mul),
        (NodeKind::NdDiv, Instr::Div),
        (NodeKind::NdEq, Instr::Eq),
        (NodeKind::NdNotEq, Instr::NotEq),
        (NodeKind::NdLess, Instr::Less),
        (NodeKind::NdLessEq, Instr::LessEq),
    ] {
        assert_eq!(
            generator(node(kind, num_node(1), num_node(2))),
            Ok(vec![Instr::PushNum(1), Instr::PushNum(2), instr])
        );
    }
}

#[test]
fn assignment_to_something_else_than_a_variable_fails() {
    assert_eq!(
        generator(node(NodeKind::NdAssign, num_node(1), num_node(2))),
        Err(ParseError::NotAssignable)
    );
    assert_eq!(
        generator(node(
            NodeKind::NdAssign,
            node(NodeKind::NdAdd, var_node(8), num_node(1)),
            num_node(2)
        )),
        Err(ParseError::NotAssignable)
    );
}

#[test]
fn bad_assignment_deep_in_the_tree_fails() {
    let bad = node(NodeKind::NdAssign, num_node(1), num_node(2));
    assert_eq!(
        generator(node(NodeKind::NdAdd, num_node(3), node(NodeKind::NdMul, num_node(4), bad))),
        Err(ParseError::NotAssignable)
    );
    let bad = node(NodeKind::NdAssign, num_node(1), num_node(2));
    assert_eq!(
        generator(node(NodeKind::NdAssign, var_node(8), bad)),
        Err(ParseError::NotAssignable)
    );
}

#[test]
fn program_pops_after_every_statement() {
    let nodes = vec![
        node(NodeKind::NdAssign, var_node(8), num_node(3)),
        node(NodeKind::NdAdd, var_node(8), num_node(1)),
    ];
    assert_eq!(
        generate_program(&nodes),
        Ok(vec![
            Instr::PushAddr(8),
            Instr::PushNum(3),
            Instr::Store,
            Instr::Pop,
            Instr::PushAddr(8),
            Instr::Load,
            Instr::PushNum(1),
            Instr::Add,
            Instr::Pop,
        ])
    );
}

#[test]
fn empty_program_has_no_code() {
    assert_eq!(generate_program(&vec![]), Ok(vec![]));
}

#[test]
fn program_with_a_bad_statement_has_no_code() {
    let nodes = vec![num_node(1), node(NodeKind::NdAssign, num_node(1), num_node(2)), num_node(3)];
    assert_eq!(generate_program(&nodes), Err(ParseError::NotAssignable));
}

#[test]
fn lines_of_the_stack_instructions() {
    assert_eq!(lines_of(Instr::PushNum(42)), vec!["  push 42"]);
    assert_eq!(lines_of(Instr::PushNum(0)), vec!["  push 0"]);
    assert_eq!(lines_of(Instr::PushNum(4294967295)), vec!["  push 4294967295"]);
    assert_eq!(
        lines_of(Instr::PushAddr(16)),
        vec!["  mov rax, rbp", "  sub rax, 16", "  push rax"]
    );
    assert_eq!(lines_of(Instr::Load), vec!["  pop rax", "  mov rax, [rax]", "  push rax"]);
    assert_eq!(
        lines_of(Instr::Store),
        vec!["  pop rdi", "  pop rax", "  mov [rax], rdi", "  push rdi"]
    );
    assert_eq!(lines_of(Instr::Pop), vec!["  pop rax"]);
}

#[test]
fn lines_of_the_arithmetic_instructions() {
    assert_eq!(
        lines_of(Instr::Add),
        vec!["  pop rdi", "  pop rax", "  add rax, rdi", "  push rax"]
    );
    assert_eq!(
        lines_of(Instr::Sub),
        vec!["  pop rdi", "  pop rax", "  sub rax, rdi", "  push rax"]
    );
    assert_eq!(
        lines_of(Instr::Mul),
        vec!["  pop rdi", "  pop rax", "  imul rax, rdi", "  push rax"]
    );
    assert_eq!(
        lines_of(Instr::Div),
        vec!["  pop rdi", "  pop rax", "  cqo", "  idiv rdi", "  push rax"]
    );
}

#[test]
fn lines_of_the_comparisons() {
    for (instr, set) in [
        (Instr::Eq, "  sete al"),
        (Instr::NotEq, "  setne al"),
        (Instr::Less, "  setl al"),
        (Instr::LessEq, "  setle al"),
    ] {
        assert_eq!(
            lines_of(instr),
            vec!["  pop rdi", "  pop rax", "  cmp rax, rdi", set, "  movzb rax, al", "  push rax"]
        );
    }
}

#[test]
fn write_instr_appends() {
    let mut lines = vec!["first".to_string()];
    write_instr(Instr::Pop, &mut lines);
    assert_eq!(lines, vec!["first", "  pop rax"]);
}

#[test]
fn assembly_of_a_statement() {
    let code = vec![Instr::PushAddr(8), Instr::PushNum(5), Instr::Store, Instr::Pop];
    assert_eq!(
        assembly(&code),
        vec![
            "  mov rax, rbp",
            "  sub rax, 8",
            "  push rax",
            "  push 5",
            "  pop rdi",
            "  pop rax",
            "  mov [rax], rdi",
            "  push rdi",
            "  pop rax",
        ]
    );
    assert!(assembly(&vec![]).is_empty());
}
