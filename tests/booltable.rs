use booltable::compiler::Compiler;
use booltable::lexer::{Lexer, Span, Token, TK};
use booltable::parser::{BinOp, Expected, Expr, Parser, SpanExpr, SyntaxError};
use booltable::vm::{usize_to_bools, Op, TruthTable, VM};

fn table(src: &str) -> TruthTable {
    let mut parser = Parser::new(src);
    let equation = parser.parse_equation().unwrap();
    let compiled = Compiler::new(equation).compile();
    let mut vm = VM::new(compiled);
    vm.gen()
}

fn program(src: &str) -> (Vec<Vec<u8>>, Vec<Op>, Vec<u8>) {
    let mut parser = Parser::new(src);
    let equation = parser.parse_equation().unwrap();
    let compiled = Compiler::new(equation).compile();
    (compiled.inputs, compiled.lhs, compiled.output)
}

fn parse_err(src: &str) -> SyntaxError {
    let mut parser = Parser::new(src);
    match parser.parse_equation() {
        Ok(_) => panic!("parsed"),
        Err(e) => e,
    }
}

fn kinds(src: &str) -> Vec<TK> {
    let mut lexer = Lexer::new(src);
    let mut out = Vec::new();
    while let Some(t) = lexer.next() {
        out.push(t.kind);
    }
    out
}

fn names(v: &[Vec<u8>]) -> Vec<String> {
    v.iter().map(|n| String::from_utf8(n.clone()).unwrap()).collect()
}

fn var_index(e: &SpanExpr) -> usize {
    match &e.node {
        Expr::Var(i) => *i,
        other => panic!("not a variable: {:?}", other),
    }
}

#[test]
fn test() {
    let test = 0b101010;
    let bits = usize_to_bools(test, 6);
    println!("{:#b} {:?}", test, bits);
    assert_eq!(bits, vec![true, false, true, false, true, false]);
}

#[test]
fn row_count_and_width() {
    let t = table("A AND B OR C = Z");
    assert_eq!(t.inputs.len(), 8);
    assert_eq!(t.outputs.len(), 8);
    for row in &t.inputs {
        assert_eq!(row.len(), 3);
    }
    let t = table("A XOR B XOR C XOR D = E");
    assert_eq!(t.inputs.len(), 16);
}

#[test]
fn rows_count_in_binary_first_input_highest() {
    let t = table("A AND B OR C = Z");
    for (r, row) in t.inputs.iter().enumerate() {
        assert_eq!(row[0], (r >> 2) & 1 == 1);
        assert_eq!(row[1], (r >> 1) & 1 == 1);
        assert_eq!(row[2], r & 1 == 1);
    }
}

#[test]
fn operand_order_does_not_change_outputs() {
    let a = table("A AND NOT B = Z");
    let b = table("(NOT B) AND A = Z");
    // the second table's inputs are (B, A)
    for r in 0..4usize {
        let x = (r >> 1) & 1 == 1;
        let y = r & 1 == 1;
        assert_eq!(a.outputs[r], x && !y);
        assert_eq!(b.outputs[r], y && !x);
    }
}

#[test]
fn binary_operators_are_right_associative() {
    let mut parser = Parser::new("A AND B OR C = Z");
    let eq = parser.parse_equation().unwrap();
    match &eq.lhs.node {
        Expr::BinOp { op: BinOp::And, lhs, rhs } => {
            assert_eq!(var_index(lhs), 0);
            match &rhs.node {
                Expr::BinOp { op: BinOp::Or, lhs, rhs } => {
                    assert_eq!(var_index(lhs), 1);
                    assert_eq!(var_index(rhs), 2);
                }
                other => panic!("unexpected {:?}", other),
            }
        }
        other => panic!("unexpected {:?}", other),
    }
    let t = table("A AND B OR C = Z");
    let mut differs = false;
    for (row, out) in t.inputs.iter().zip(&t.outputs) {
        let (a, b, c) = (row[0], row[1], row[2]);
        assert_eq!(*out, a && (b || c));
        if *out != ((a && b) || c) {
            differs = true;
        }
    }
    assert!(differs);
}

#[test]
fn variables_are_numbered_by_first_occurrence() {
    let mut parser = Parser::new("B AND A = C");
    let eq = parser.parse_equation().unwrap();
    assert_eq!(names(&eq.inputs), vec!["B", "A"]);
    assert_eq!(String::from_utf8(eq.output.clone()).unwrap(), "C");
    match &eq.lhs.node {
        Expr::BinOp { lhs, rhs, .. } => {
            assert_eq!(var_index(lhs), 0);
            assert_eq!(var_index(rhs), 1);
        }
        other => panic!("unexpected {:?}", other),
    }
}

#[test]
fn repeated_variable_keeps_its_index() {
    let (inputs, ops, _) = program("A XOR A = Q");
    assert_eq!(names(&inputs), vec!["A"]);
    assert_eq!(ops, vec![Op::Load(0), Op::Load(0), Op::Xor]);
}

#[test]
fn output_name_is_not_an_input() {
    let (inputs, _, output) = program("A OR B = A");
    assert_eq!(names(&inputs), vec!["A", "B"]);
    assert_eq!(output, b"A".to_vec());
}

#[test]
fn not_of_a_literal() {
    let t = table("NOT true = Z");
    assert_eq!(t.inputs, vec![Vec::<bool>::new()]);
    assert_eq!(t.outputs, vec![false]);
}

#[test]
fn identity_renders_exactly() {
    let t = table("A = A");
    let text = String::from_utf8(t.render()).unwrap();
    assert_eq!(text, "| A | A |\n|---|---|\n| 0 | 0 |\n| 1 | 1 |\n");
}

#[test]
fn wide_names_pad_cells() {
    let t = table("foo OR b = out");
    let text = String::from_utf8(t.render()).unwrap();
    assert_eq!(
        text,
        "| foo | b | out |\n|-----|---|-----|\n| 0   | 0 | 0   |\n| 0   | 1 | 1   |\n| 1   | 0 | 1   |\n| 1   | 1 | 1   |\n"
    );
}

#[test]
fn table_without_inputs_renders() {
    let t = table("0 = Z");
    let text = String::from_utf8(t.render()).unwrap();
    assert_eq!(text, "| Z |\n|---|\n| 0 |\n");
    let t = table("NOT true = Z");
    let text = String::from_utf8(t.render()).unwrap();
    assert_eq!(text, "| Z |\n|---|\n| 0 |\n");
}

#[test]
fn unrecognized_characters_are_skipped() {
    assert_eq!(program("A # OR B = C"), program("A OR B = C"));
    assert_eq!(program("A $ AND ~B? = C"), program("A AND B = C"));
}

#[test]
fn leading_binary_operator_fails() {
    assert_eq!(
        parse_err("AND A = B"),
        SyntaxError::UnexpectedToken {
            expected: Expected::Expression,
            got: Token { kind: TK::And, span: Span { start: 0, end: 3 } },
        }
    );
}

#[test]
fn missing_equals_fails() {
    assert_eq!(
        parse_err("A"),
        SyntaxError::UnexpectedToken {
            expected: Expected::Kind(TK::Equals),
            got: Token { kind: TK::Eof, span: Span { start: 1, end: 1 } },
        }
    );
}

#[test]
fn missing_output_fails() {
    assert_eq!(
        parse_err("A = 1"),
        SyntaxError::UnexpectedToken {
            expected: Expected::Kind(TK::Var),
            got: Token { kind: TK::True, span: Span { start: 4, end: 5 } },
        }
    );
}

#[test]
fn two_operands_without_operator_fail() {
    assert_eq!(
        parse_err("A B = C"),
        SyntaxError::UnexpectedToken {
            expected: Expected::Operator,
            got: Token { kind: TK::Var, span: Span { start: 2, end: 3 } },
        }
    );
}

#[test]
fn unclosed_group_fails() {
    assert_eq!(
        parse_err("(A = B"),
        SyntaxError::UnexpectedToken {
            expected: Expected::Kind(TK::RParen),
            got: Token { kind: TK::Equals, span: Span { start: 3, end: 4 } },
        }
    );
}

#[test]
fn empty_input_fails() {
    assert_eq!(
        parse_err(""),
        SyntaxError::UnexpectedToken {
            expected: Expected::Expression,
            got: Token { kind: TK::Eof, span: Span { start: 0, end: 0 } },
        }
    );
}

#[test]
fn lexer_spellings() {
    assert_eq!(
        kinds("NOT ! AND . OR + XOR ^ ⊕ ⊻ true 1 false 0 ( ) = -> x"),
        vec![
            TK::Not, TK::Not, TK::And, TK::And, TK::Or, TK::Or, TK::Xor, TK::Xor, TK::Xor,
            TK::Xor, TK::True, TK::True, TK::False, TK::False, TK::LParen, TK::RParen,
            TK::Equals, TK::Equals, TK::Var, TK::Eof,
        ]
    );
}

#[test]
fn lexer_longest_match_and_digits() {
    assert_eq!(kinds("NOTE ANDY or_1 _x 10"), vec![
        TK::Var, TK::Var, TK::Var, TK::Var, TK::True, TK::False, TK::Eof,
    ]);
}

#[test]
fn lexer_spans_and_single_eof() {
    let mut lexer = Lexer::new(" A\t->\n⊕ ");
    assert_eq!(lexer.next(), Some(Token { kind: TK::Var, span: Span { start: 1, end: 2 } }));
    assert_eq!(lexer.next(), Some(Token { kind: TK::Equals, span: Span { start: 3, end: 5 } }));
    assert_eq!(lexer.next(), Some(Token { kind: TK::Xor, span: Span { start: 6, end: 9 } }));
    assert_eq!(lexer.next(), Some(Token { kind: TK::Eof, span: Span { start: 10, end: 10 } }));
    assert_eq!(lexer.next(), None);
    assert_eq!(lexer.next(), None);
}

#[test]
fn token_text_slices_source() {
    let src = "ab AND cd";
    let t = Token { kind: TK::Var, span: Span { start: 7, end: 9 } };
    assert_eq!(t.text(src), b"cd".to_vec());
}

#[test]
fn compiled_program_emits_right_operand_first() {
    let (_, ops, _) = program("A AND (B OR NOT 0) = Z");
    assert_eq!(
        ops,
        vec![Op::Push(false), Op::Not, Op::Load(1), Op::Or, Op::Load(0), Op::And]
    );
}

#[test]
fn group_and_not_evaluate() {
    let t = table("NOT (A XOR B) = Z");
    assert_eq!(t.outputs, vec![true, false, false, true]);
    // NOT takes the whole rest of the expression
    let t = table("!A + B -> Z");
    assert_eq!(t.outputs, vec![true, false, false, false]);
}

#[test]
fn full_width_row_bits() {
    let width = usize::BITS as usize;
    let bits = usize_to_bools(1usize << (width - 1), width);
    assert_eq!(bits.len(), width);
    assert!(bits[0]);
    assert!(bits[1..].iter().all(|b| !b));
    assert!(usize_to_bools(usize::MAX, width).iter().all(|b| *b));
}

#[test]
fn second_gen_gives_same_table() {
    let mut parser = Parser::new("A XOR (B AND C) = Q");
    let compiled = Compiler::new(parser.parse_equation().unwrap()).compile();
    let mut vm = VM::new(compiled);
    let first = vm.gen();
    let second = vm.gen();
    assert_eq!(first.input_names, second.input_names);
    assert_eq!(first.inputs, second.inputs);
    assert_eq!(first.output_name, second.output_name);
    assert_eq!(first.outputs, second.outputs);
}
