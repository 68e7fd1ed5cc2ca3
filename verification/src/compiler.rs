//! The compiler: from the text of a program to its operation table.

use vstd::prelude::*;
use vstd::string::StringSliceAdditionalSpecFns;
use crate::literal::Literal;
use crate::operation::{Operation, OperationTable, ordered};
use crate::program::{
    Cause, MalformedProgram, Operator, Progress, compile_lines, compiled, decode, instructions,
    lemma_decode_bound, lemma_one_operation_per_instruction, lemma_rejection_stays, operand,
    operand_count, operator_of,
};
use crate::symbols::Symbols;
use crate::text::{contents, same_bytes, split, split_bytes};

verus! {

/// The operations of `table`, each constant given by the text of its literal.
pub open spec fn texts(table: Seq<Operation<Literal>>) -> Seq<Operation<Seq<u8>>> {
    Seq::new(table.len(), |i: int| table[i]@)
}

/// What the compiler returned, each constant given by the text of its literal.
pub open spec fn outcome(out: Result<OperationTable<Literal>, MalformedProgram>) -> Result<
    Seq<Operation<Seq<u8>>>,
    MalformedProgram,
> {
    match out {
        Ok(table) => Ok(texts(table@)),
        Err(e) => Err(e),
    }
}

/// Computes `operator_of`.
fn operator(token: &[u8]) -> (r: Option<Operator>)
    ensures
        r == operator_of(token@),
{
    if same_bytes(token, "var-x".as_bytes()) {
        Some(Operator::VariableX)
    } else if same_bytes(token, "var-y".as_bytes()) {
        Some(Operator::VariableY)
    } else if same_bytes(token, "const".as_bytes()) {
        Some(Operator::Constant)
    } else if same_bytes(token, "add".as_bytes()) {
        Some(Operator::Add)
    } else if same_bytes(token, "sub".as_bytes()) {
        Some(Operator::Subtract)
    } else if same_bytes(token, "mul".as_bytes()) {
        Some(Operator::Multiply)
    } else if same_bytes(token, "div".as_bytes()) {
        Some(Operator::Divide)
    } else if same_bytes(token, "max".as_bytes()) {
        Some(Operator::Max)
    } else if same_bytes(token, "min".as_bytes()) {
        Some(Operator::Min)
    } else if same_bytes(token, "neg".as_bytes()) {
        Some(Operator::Negate)
    } else if same_bytes(token, "square".as_bytes()) {
        Some(Operator::Square)
    } else if same_bytes(token, "sqrt".as_bytes()) {
        Some(Operator::SquareRoot)
    } else {
        None
    }
}

/// Computes `operand`.
fn lookup_operand(symbols: &Symbols, tokens: &Vec<&[u8]>, position: usize) -> (r: Option<usize>)
    ensures
        r == operand(symbols@, contents(tokens@), position as int),
{
    if position < tokens.len() {
        symbols.resolve(tokens[position])
    } else {
        None
    }
}

/// Computes `operand_count`.
fn operands(operator: Operator) -> (count: usize)
    ensures
        count == operand_count(operator),
{
    match operator {
        Operator::VariableX | Operator::VariableY | Operator::Constant => 0,
        Operator::Negate | Operator::Square | Operator::SquareRoot => 1,
        Operator::Add
        | Operator::Subtract
        | Operator::Multiply
        | Operator::Divide
        | Operator::Max
        | Operator::Min => 2,
    }
}

/// Computes `decode`.
fn decode_tokens(symbols: &Symbols, tokens: &Vec<&[u8]>) -> (out: Result<
    Operation<Literal>,
    Cause,
>)
    ensures
        match out {
            Ok(operation) => decode(symbols@, contents(tokens@)) matches Ok(o) && o
                == operation@,
            Err(cause) => decode(symbols@, contents(tokens@)) matches Err(c) && c == cause,
        },
{
    if tokens.len() < 2 {
        return Err(Cause::UnknownOperator);
    }
    let operator = match operator(tokens[1]) {
        Some(operator) => operator,
        None => return Err(Cause::UnknownOperator),
    };
    let count = operands(operator);
    let mut first: usize = 0;
    let mut second: usize = 0;
    if count >= 1 {
        match lookup_operand(symbols, tokens, 2) {
            Some(index) => first = index,
            None => return Err(Cause::UndefinedReference),
        }
    }
    if count >= 2 {
        match lookup_operand(symbols, tokens, 3) {
            Some(index) => second = index,
            None => return Err(Cause::UndefinedReference),
        }
    }
    match operator {
        Operator::VariableX => Ok(Operation::VariableX),
        Operator::VariableY => Ok(Operation::VariableY),
        Operator::Constant => {
            if tokens.len() > 2 {
                match Literal::parse(tokens[2]) {
                    Some(literal) => Ok(Operation::Constant(literal)),
                    None => Err(Cause::InvalidLiteral),
                }
            } else {
                Err(Cause::InvalidLiteral)
            }
        },
        Operator::Add => Ok(Operation::Add(first, second)),
        Operator::Subtract => Ok(Operation::Subtract(first, second)),
        Operator::Multiply => Ok(Operation::Multiply(first, second)),
        Operator::Divide => Err(Cause::UnknownOperator),
        Operator::Max => Ok(Operation::Max(first, second)),
        Operator::Min => Ok(Operation::Min(first, second)),
        Operator::Negate => Ok(Operation::Negate(first)),
        Operator::Square => Ok(Operation::Square(first)),
        Operator::SquareRoot => Ok(Operation::SquareRoot(first)),
    }
}

/// Compiles the program `source`: returns its table, one operation for each
/// instruction in the order of the lines, or the first instruction that is
/// rejected. The constants of the table are the literals as they are written.
pub fn compile(source: &str) -> (out: Result<OperationTable<Literal>, MalformedProgram>)
    ensures
        outcome(out) == compiled(source.spec_bytes()),
        out matches Ok(table) ==> ordered(table@) && table@.len() == instructions(
            source.spec_bytes(),
        ).len(),
        out matches Err(e) ==> 1 <= e.line <= split(source.spec_bytes(), '\n' as u8).len(),
{
    let bytes = source.as_bytes();
    let lines = split_bytes(bytes, '\n' as u8);
    let ghost all = contents(lines@);
    let mut operations: Vec<Operation<Literal>> = Vec::new();
    let mut symbols = Symbols::new();
    let mut i: usize = 0;
    assert(texts(operations@) =~= Seq::empty());
    while i < lines.len()
        invariant
            all == contents(lines@),
            all == split(source.spec_bytes(), '\n' as u8),
            i <= lines@.len(),
            symbols@.len() == operations@.len(),
            ordered(operations@),
            compile_lines(all.take(i as int)) matches Ok(progress) && progress == (Progress {
                operations: texts(operations@),
                names: symbols@,
            }),
        decreases lines@.len() - i,
    {
        let line = lines[i];
        let ghost read = all.take(i + 1);
        assert(read.drop_last() =~= all.take(i as int));
        if line.len() > 0 && line[0] != '#' as u8 {
            let tokens = split_bytes(line, ' ' as u8);
            proof {
                lemma_decode_bound(symbols@, contents(tokens@));
            }
            match decode_tokens(&symbols, &tokens) {
                Ok(operation) => {
                    let ghost before = operations@;
                    operations.push(operation);
                    symbols = symbols.bind(tokens[0]);
                    assert(texts(operations@) =~= texts(before).push(operation@));
                },
                Err(cause) => {
                    proof {
                        lemma_rejection_stays(all, i + 1);
                    }
                    return Err(MalformedProgram { line: i + 1, cause });
                },
            }
        }
        i += 1;
    }
    proof {
        assert(all.take(i as int) =~= all);
        lemma_one_operation_per_instruction(source.spec_bytes());
    }
    Ok(OperationTable::from_ordered(operations))
}

} // verus!
