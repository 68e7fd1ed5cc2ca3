use prospero::compiler::compile;
use prospero::evaluator::{eval, Arithmetic};
use prospero::literal::Literal;

fn single_precision(step: Arithmetic<f32>) -> f32 {
    match step {
        Arithmetic::Add(a, b) => a + b,
        Arithmetic::Subtract(a, b) => a - b,
        Arithmetic::Multiply(a, b) => a * b,
        Arithmetic::Max(a, b) => a.max(b),
        Arithmetic::Min(a, b) => a.min(b),
        Arithmetic::Negate(a) => -a,
        Arithmetic::Square(a) => a.powi(2),
        Arithmetic::SquareRoot(a) => a.sqrt(),
    }
}

fn value_of(literal: &Literal) -> f32 {
    std::str::from_utf8(literal.as_bytes()).unwrap().parse().unwrap()
}

/// A program of `count` instructions in the shape of a large real one:
/// the two inputs first, then constants and operations that read both
/// recent and early results.
fn large_program(count: usize) -> String {
    let operators = ["add", "sub", "mul", "max", "min", "neg", "square", "sqrt"];
    let mut text = String::from("# a large program\n_0 var-x\n_1 var-y\n");
    for i in 2..count {
        let name = format!("_{:x}", i);
        if i % 5 == 2 {
            text.push_str(&format!("{} const {}.{}\n", name, i % 17, i % 10));
        } else {
            let operator = operators[i % operators.len()];
            let recent = format!("_{:x}", i - 1);
            let early = format!("_{:x}", i % 2);
            if operator == "neg" || operator == "square" || operator == "sqrt" {
                text.push_str(&format!("{} {} {}\n", name, operator, recent));
            } else {
                text.push_str(&format!("{} {} {} {}\n", name, operator, recent, early));
            }
        }
    }
    text
}

#[test]
fn large_program_compiles_to_one_entry_per_instruction() {
    let table = compile(&large_program(7866)).unwrap();
    assert_eq!(table.len(), 7866);
    for (i, operation) in table.operations().iter().enumerate() {
        assert!(operation.reads_below(i));
    }
}

#[test]
fn large_program_evaluates_reproducibly_over_a_grid() {
    let table = compile(&large_program(7866)).unwrap().map_constants(&value_of);
    let mut values = Vec::new();
    let mut first = Vec::new();
    for y in 0..65 {
        for x in 0..65 {
            let fx = x as f32 / 65.0 * 2.0 - 1.0;
            let fy = -(y as f32) / 65.0 * 2.0 + 1.0;
            eval(&table, fx, fy, &single_precision, &mut values);
            assert_eq!(values.len(), 7866);
            first.push(values.last().unwrap().to_bits());
        }
    }
    let mut second = Vec::new();
    for y in 0..65 {
        for x in 0..65 {
            let fx = x as f32 / 65.0 * 2.0 - 1.0;
            let fy = -(y as f32) / 65.0 * 2.0 + 1.0;
            eval(&table, fx, fy, &single_precision, &mut values);
            second.push(values.last().unwrap().to_bits());
        }
    }
    assert_eq!(first, second);
}
