use prospero::compiler::compile;
use prospero::evaluator::{eval, evaluate, Arithmetic};
use prospero::literal::Literal;
use prospero::operation::{InternalInvariantViolation, Operation, OperationTable};

fn single_precision(step: Arithmetic<f32>) -> f32 {
    match step {
        Arithmetic::Add(a, b) => a + b,
        Arithmetic::Subtract(a, b) => a - b,
        Arithmetic::Multiply(a, b) => a * b,
        Arithmetic::Max(a, b) => a.max(b),
        Arithmetic::Min(a, b) => a.min(b),
        Arithmetic::Negate(a) => -a,
        Arithmetic::Square(a) => a.powi(2),
        Arithmetic::SquareRoot(a) => a.sqrt(),
    }
}

fn wrapping_integers(step: Arithmetic<i64>) -> i64 {
    match step {
        Arithmetic::Add(a, b) => a.wrapping_add(b),
        Arithmetic::Subtract(a, b) => a.wrapping_sub(b),
        Arithmetic::Multiply(a, b) => a.wrapping_mul(b),
        Arithmetic::Max(a, b) => a.max(b),
        Arithmetic::Min(a, b) => a.min(b),
        Arithmetic::Negate(a) => a.wrapping_neg(),
        Arithmetic::Square(a) => a.wrapping_mul(a),
        Arithmetic::SquareRoot(a) => (a as f64).sqrt() as i64,
    }
}

fn value_of(literal: &Literal) -> f32 {
    std::str::from_utf8(literal.as_bytes()).unwrap().parse().unwrap()
}

fn numeric(source: &str) -> OperationTable<f32> {
    compile(source).unwrap().map_constants(&value_of)
}

fn run(source: &str, x: f32, y: f32) -> f32 {
    evaluate(&numeric(source), x, y, &single_precision).unwrap()
}

#[test]
fn arithmetic_round_trip() {
    let source = "a const 3\nb const 4\nc mul a b";
    assert_eq!(run(source, 0.0, 0.0), 12.0);
    assert_eq!(run(source, 0.25, -7.0), 12.0);
    assert_eq!(run(source, f32::NAN, f32::INFINITY), 12.0);
}

#[test]
fn variable_substitution() {
    let source = "a var-x\nb var-y\nc add a b";
    assert_eq!(run(source, 2.0, 5.0), 7.0);
    assert_eq!(run(source, -1.5, 0.25), -1.25);
}

#[test]
fn square_semantics() {
    let source = "a const -3\nb square a";
    assert_eq!(run(source, 0.0, 0.0), 9.0);
}

#[test]
fn square_matches_multiplication_for_subnormal_and_huge_inputs() {
    let source = "a var-x\nb square a";
    for x in [1.0e-20f32, -1.0e-23, 3.0e19, -2.5e38, 1.1754942e-38, 0.1] {
        assert_eq!(run(source, x, 0.0).to_bits(), (x * x).to_bits());
    }
}

#[test]
fn each_operation_has_its_value() {
    assert_eq!(run("a var-x\nb var-y\nc sub a b", 2.0, 5.0), -3.0);
    assert_eq!(run("a var-x\nb var-y\nc mul a b", 2.5, 4.0), 10.0);
    assert_eq!(run("a var-x\nb var-y\nc max a b", 2.0, 5.0), 5.0);
    assert_eq!(run("a var-x\nb var-y\nc min a b", 2.0, 5.0), 2.0);
    assert_eq!(run("a var-x\nc neg a", 2.0, 5.0), -2.0);
    assert_eq!(run("a var-y\nc sqrt a", 2.0, 6.25), 2.5);
    assert_eq!(run("a const 0.1\nb const 0.2\nc add a b", 0.0, 0.0), 0.1f32 + 0.2f32);
    assert_eq!(run("a var-x", 2.0, 5.0), 2.0);
    assert_eq!(run("a var-y", 2.0, 5.0), 5.0);
    assert_eq!(run("a const -0.75", 2.0, 5.0), -0.75);
}

#[test]
fn constants_are_rounded_to_single_precision() {
    assert_eq!(run("a const 0.1", 0.0, 0.0).to_bits(), 0.1f32.to_bits());
    assert_eq!(run("a const 16777217", 0.0, 0.0), 16777216.0);
    assert_eq!(run("a const 1e39", 0.0, 0.0), f32::INFINITY);
    assert_eq!(run("a const -inf", 0.0, 0.0), f32::NEG_INFINITY);
    assert!(run("a const nan", 0.0, 0.0).is_nan());
}

#[test]
fn square_root_of_a_negative_value_is_no_number() {
    assert!(run("a const -4\nb sqrt a", 0.0, 0.0).is_nan());
    let later = run("a const -4\nb sqrt a\nc var-x\nd add b c", 1.0, 0.0);
    assert!(later.is_nan());
}

#[test]
fn infinities_pass_through_the_operations() {
    assert_eq!(run("a var-x\nb var-y\nc mul a b", 3.0e38, 10.0), f32::INFINITY);
    assert_eq!(run("a var-x\nb neg a", f32::INFINITY, 0.0), f32::NEG_INFINITY);
    assert!(run("a var-x\nb sub a a", f32::INFINITY, 0.0).is_nan());
}

#[test]
fn max_and_min_prefer_a_number_to_no_number() {
    assert_eq!(run("a var-x\nb var-y\nc max a b", f32::NAN, 1.0), 1.0);
    assert_eq!(run("a var-x\nb var-y\nc min a b", 1.0, f32::NAN), 1.0);
}

#[test]
fn the_result_is_the_value_of_the_last_operation() {
    let source = "a var-x\nb var-y\nc add a b\nd const 100";
    assert_eq!(run(source, 2.0, 5.0), 100.0);
}

#[test]
fn a_longer_program_evaluates_in_table_order() {
    let source = "# distance from (1, 2), clamped\n\
                  x var-x\ny var-y\none const 1\ntwo const 2\n\
                  dx sub x one\ndy sub y two\n\
                  dx2 square dx\ndy2 square dy\n\
                  sum add dx2 dy2\nd sqrt sum\n\
                  cap const 4.5\nout min d cap";
    assert_eq!(run(source, 4.0, 6.0), 4.5);
    assert_eq!(run(source, 4.0, -2.0), 4.5);
    assert_eq!(run(source, 1.0, 2.0), 0.0);
    assert_eq!(run(source, 4.0, 2.0), 3.0);
    assert_eq!(run(source, -2.0, 6.0), 4.5);
    let (dx, dy) = (1.6f32 - 1.0, 2.8f32 - 2.0);
    assert_eq!(run(source, 1.6, 2.8), (dx * dx + dy * dy).sqrt());
}

#[test]
fn eval_fills_the_buffer_with_every_value() {
    let table = numeric("a var-x\nb var-y\nc add a b\nd neg c\ne square d");
    let mut values = Vec::new();
    eval(&table, 2.0, 5.0, &single_precision, &mut values);
    assert_eq!(values, vec![2.0, 5.0, 7.0, -7.0, 49.0]);
}

#[test]
fn eval_reuses_a_buffer_of_any_length() {
    let table = numeric("a var-x\nb neg a");
    let mut values = vec![9.0; 7];
    eval(&table, 1.0, 0.0, &single_precision, &mut values);
    assert_eq!(values, vec![1.0, -1.0]);
    eval(&table, -3.0, 0.0, &single_precision, &mut values);
    assert_eq!(values, vec![-3.0, 3.0]);
    let empty = OperationTable::<f32>::new();
    eval(&empty, 1.0, 0.0, &single_precision, &mut values);
    assert_eq!(values, Vec::<f32>::new());
}

#[test]
fn the_empty_table_has_no_result() {
    let table = OperationTable::<f32>::new();
    assert_eq!(table.len(), 0);
    assert_eq!(evaluate(&table, 1.0, 2.0, &single_precision), None);
    assert_eq!(evaluate(&numeric("# only a comment"), 1.0, 2.0, &single_precision), None);
}

#[test]
fn evaluation_is_deterministic() {
    let table = numeric("x var-x\ny var-y\na mul x y\nb sqrt a\nc const 0.3\nd sub b c\ne max d x");
    for (x, y) in [(0.5f32, 0.25f32), (-1.0, 1.0), (3.0e20, 7.0e-3), (f32::NAN, 1.0)] {
        let first = evaluate(&table, x, y, &single_precision).unwrap();
        let second = evaluate(&table, x, y, &single_precision).unwrap();
        assert_eq!(first.to_bits(), second.to_bits());
    }
}

#[test]
fn one_table_serves_another_domain() {
    let table = compile("x var-x\ny var-y\nc const 10\na mul x c\nb add a y\nd square b")
        .unwrap()
        .map_constants(&|literal: &Literal| {
            std::str::from_utf8(literal.as_bytes()).unwrap().parse::<i64>().unwrap()
        });
    assert_eq!(evaluate(&table, 4, 2, &wrapping_integers), Some(1764));
}

#[test]
fn a_table_made_by_hand_is_checked() {
    let table = OperationTable::from_operations(vec![
        Operation::Constant(3.0f32),
        Operation::Constant(4.0f32),
        Operation::Multiply(0, 1),
    ])
    .unwrap();
    assert_eq!(table.len(), 3);
    assert_eq!(evaluate(&table, 0.0, 0.0, &single_precision), Some(12.0));
}

#[test]
fn a_table_that_reads_ahead_is_refused() {
    let forward = vec![Operation::<f32>::VariableX, Operation::Negate(2), Operation::VariableY];
    assert_eq!(
        OperationTable::from_operations(forward).unwrap_err(),
        InternalInvariantViolation { index: 1 }
    );
    let itself = vec![Operation::<f32>::VariableX, Operation::VariableY, Operation::Add(0, 2)];
    assert_eq!(
        OperationTable::from_operations(itself).unwrap_err(),
        InternalInvariantViolation { index: 2 }
    );
    let first = vec![Operation::<f32>::SquareRoot(0)];
    assert_eq!(
        OperationTable::from_operations(first).unwrap_err(),
        InternalInvariantViolation { index: 0 }
    );
    let outside = vec![Operation::<f32>::Constant(1.0), Operation::Max(0, usize::MAX)];
    assert_eq!(
        OperationTable::from_operations(outside).unwrap_err(),
        InternalInvariantViolation { index: 1 }
    );
}

#[test]
fn only_the_first_breach_is_reported() {
    let operations = vec![
        Operation::<f32>::VariableX,
        Operation::Min(0, 1),
        Operation::Negate(5),
    ];
    assert_eq!(
        OperationTable::from_operations(operations).unwrap_err(),
        InternalInvariantViolation { index: 1 }
    );
}

#[test]
fn converting_constants_keeps_everything_else() {
    let table = compile("a const 1.5\nb var-x\nc add a b\nd const 2\ne mul c d").unwrap();
    let doubled = table.map_constants(&|literal: &Literal| 2.0 * value_of(literal));
    assert_eq!(
        doubled.operations(),
        &vec![
            Operation::Constant(3.0),
            Operation::VariableX,
            Operation::Add(0, 1),
            Operation::Constant(4.0),
            Operation::Multiply(2, 3),
        ]
    );
    assert_eq!(table.len(), 5);
}
