use prospero::compiler::compile;
use prospero::literal::Literal;
use prospero::operation::Operation;
use prospero::program::{Cause, MalformedProgram};

fn literal(text: &str) -> Literal {
    Literal::parse(text.as_bytes()).unwrap()
}

fn operations(source: &str) -> Vec<Operation<String>> {
    let table = compile(source).unwrap();
    let text = |l: &Literal| String::from_utf8(l.as_bytes().to_vec()).unwrap();
    table.map_constants(&text).operations().clone()
}

fn rejection(source: &str) -> MalformedProgram {
    compile(source).unwrap_err()
}

#[test]
fn empty_text_compiles_to_the_empty_table() {
    assert_eq!(compile("").unwrap().len(), 0);
    assert_eq!(compile("\n\n").unwrap().len(), 0);
    assert_eq!(compile("# nothing here\n").unwrap().len(), 0);
}

#[test]
fn each_operator_compiles_to_its_operation() {
    let source = "x var-x\ny var-y\nc const 2.5\n\
                  a add x y\ns sub a c\nm mul s s\n\
                  hi max m x\nlo min hi y\n\
                  n neg lo\nq square n\nr sqrt q";
    assert_eq!(
        operations(source),
        vec![
            Operation::VariableX,
            Operation::VariableY,
            Operation::Constant(String::from("2.5")),
            Operation::Add(0, 1),
            Operation::Subtract(3, 2),
            Operation::Multiply(4, 4),
            Operation::Max(5, 0),
            Operation::Min(6, 1),
            Operation::Negate(7),
            Operation::Square(8),
            Operation::SquareRoot(9),
        ]
    );
}

#[test]
fn constants_keep_the_text_of_their_literals() {
    let table = compile("a const -1.5e3\nb const +inf\nc const NaN\nd const .5").unwrap();
    assert_eq!(
        table.operations(),
        &vec![
            Operation::Constant(literal("-1.5e3")),
            Operation::Constant(literal("+inf")),
            Operation::Constant(literal("NaN")),
            Operation::Constant(literal(".5")),
        ]
    );
}

#[test]
fn comments_and_empty_lines_are_skipped() {
    let source = "# header\n\nx var-x\n# between\n\n\ny neg x\n";
    assert_eq!(operations(source), vec![Operation::VariableX, Operation::Negate(0)]);
}

#[test]
fn a_comment_marker_counts_only_at_the_start_of_a_line() {
    assert_eq!(operations("x# var-x"), vec![Operation::VariableX]);
    assert_eq!(
        rejection(" # var-x"),
        MalformedProgram { line: 1, cause: Cause::UnknownOperator }
    );
}

#[test]
fn tokens_after_the_operands_are_not_read() {
    assert_eq!(
        operations("x var-x trailing words\ny neg x nothing more\nz add x y w"),
        vec![Operation::VariableX, Operation::Negate(0), Operation::Add(0, 1)]
    );
    assert_eq!(operations("c const 1 2 3"), vec![Operation::Constant(String::from("1"))]);
}

#[test]
fn a_name_bound_again_shadows_the_earlier_binding() {
    let source = "a var-x\na var-y\nb neg a\na const 1\nc add a b";
    assert_eq!(
        operations(source),
        vec![
            Operation::VariableX,
            Operation::VariableY,
            Operation::Negate(1),
            Operation::Constant(String::from("1")),
            Operation::Add(3, 2),
        ]
    );
}

#[test]
fn a_name_is_any_token_even_the_empty_one() {
    assert_eq!(
        operations(" var-x\nadd neg \nsqrt add add "),
        vec![Operation::VariableX, Operation::Negate(0), Operation::Add(1, 0)]
    );
}

#[test]
fn names_are_compared_byte_by_byte() {
    assert_eq!(
        rejection("Name var-x\nb neg name"),
        MalformedProgram { line: 2, cause: Cause::UndefinedReference }
    );
    assert_eq!(
        operations("\u{3c0} var-x\nb neg \u{3c0}"),
        vec![Operation::VariableX, Operation::Negate(0)]
    );
}

#[test]
fn a_carriage_return_belongs_to_the_last_token() {
    assert_eq!(
        rejection("x var-x\r\ny neg x\r\n"),
        MalformedProgram { line: 1, cause: Cause::UnknownOperator }
    );
}

#[test]
fn undefined_reference_is_rejected() {
    assert_eq!(
        rejection("a var-x\nb add a c\n"),
        MalformedProgram { line: 2, cause: Cause::UndefinedReference }
    );
    assert_eq!(
        rejection("a var-x\nb add c a\n"),
        MalformedProgram { line: 2, cause: Cause::UndefinedReference }
    );
    assert_eq!(
        rejection("b sqrt a"),
        MalformedProgram { line: 1, cause: Cause::UndefinedReference }
    );
}

#[test]
fn forward_and_self_references_are_rejected() {
    assert_eq!(
        rejection("a var-x\nb neg c\nc neg a"),
        MalformedProgram { line: 2, cause: Cause::UndefinedReference }
    );
    assert_eq!(
        rejection("a var-x\nb add a b"),
        MalformedProgram { line: 2, cause: Cause::UndefinedReference }
    );
}

#[test]
fn a_missing_operand_is_rejected() {
    assert_eq!(
        rejection("a var-x\nb add a"),
        MalformedProgram { line: 2, cause: Cause::UndefinedReference }
    );
    assert_eq!(
        rejection("a var-x\nb neg"),
        MalformedProgram { line: 2, cause: Cause::UndefinedReference }
    );
}

#[test]
fn two_spaces_enclose_an_empty_token() {
    assert_eq!(
        rejection("a var-x\nb neg  a"),
        MalformedProgram { line: 2, cause: Cause::UndefinedReference }
    );
    assert_eq!(
        rejection("a  var-x"),
        MalformedProgram { line: 1, cause: Cause::UnknownOperator }
    );
}

#[test]
fn unknown_operator_is_rejected() {
    assert_eq!(
        rejection("a var-x\n\nb pow a a"),
        MalformedProgram { line: 3, cause: Cause::UnknownOperator }
    );
    assert_eq!(
        rejection("a VAR-X"),
        MalformedProgram { line: 1, cause: Cause::UnknownOperator }
    );
    assert_eq!(
        rejection("a var-z"),
        MalformedProgram { line: 1, cause: Cause::UnknownOperator }
    );
}

#[test]
fn a_missing_operator_is_rejected() {
    assert_eq!(rejection("lonely"), MalformedProgram { line: 1, cause: Cause::UnknownOperator });
}

#[test]
fn division_has_no_operation() {
    assert_eq!(
        rejection("a var-x\nb var-y\nc div a b"),
        MalformedProgram { line: 3, cause: Cause::UnknownOperator }
    );
    assert_eq!(
        rejection("a var-x\nc div a b"),
        MalformedProgram { line: 2, cause: Cause::UndefinedReference }
    );
}

#[test]
fn an_invalid_literal_is_rejected() {
    assert_eq!(
        rejection("a const three"),
        MalformedProgram { line: 1, cause: Cause::InvalidLiteral }
    );
    assert_eq!(rejection("a const"), MalformedProgram { line: 1, cause: Cause::InvalidLiteral });
    assert_eq!(rejection("a const "), MalformedProgram { line: 1, cause: Cause::InvalidLiteral });
    assert_eq!(
        rejection("x var-x\n# c\na const 1.0f"),
        MalformedProgram { line: 3, cause: Cause::InvalidLiteral }
    );
}

#[test]
fn only_the_first_rejection_is_reported() {
    assert_eq!(
        rejection("a const x\nb frobnicate\nc neg d"),
        MalformedProgram { line: 1, cause: Cause::InvalidLiteral }
    );
}

#[test]
fn every_operand_of_a_compiled_table_precedes_its_operation() {
    let source = "x var-x\ny var-y\na add x y\nb mul a a\nx neg b\nc max x y\nd sqrt c\ne min d a";
    let table = compile(source).unwrap();
    for (i, operation) in table.operations().iter().enumerate() {
        assert!(operation.reads_below(i), "{:?} at {}", operation, i);
    }
}

#[test]
fn the_table_has_one_entry_for_each_instruction() {
    let source = "# a\nx var-x\n\n# b\ny var-y\nz add x y\n\n";
    assert_eq!(compile(source).unwrap().len(), 3);
}

#[test]
fn renaming_every_name_leaves_the_table_unchanged() {
    let program = "x var-x\ny var-y\nsum add x y\nx square sum\nout sub x y";
    let renamed = "_0 var-x\n_1 var-y\n_2 add _0 _1\n_0 square _2\n_3 sub _0 _1";
    assert_eq!(operations(program), operations(renamed));
    assert_eq!(
        operations(program),
        vec![
            Operation::VariableX,
            Operation::VariableY,
            Operation::Add(0, 1),
            Operation::Square(2),
            Operation::Subtract(3, 1),
        ]
    );
}

#[test]
fn renaming_every_name_leaves_a_rejection_unchanged() {
    assert_eq!(rejection("x var-x\ny neg z"), rejection("first var-x\nsecond neg third"));
}

#[test]
fn merging_two_names_may_change_the_table() {
    let program = "x var-x\ny var-y\nz neg x";
    let merged = "n var-x\nn var-y\nz neg n";
    assert_ne!(operations(program), operations(merged));
}
