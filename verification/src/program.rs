//! The meaning of program text.
//!
//! A program is a sequence of lines, separated by line feeds. An empty line
//! and a line that begins with `#` are skipped. Every other line is an
//! instruction, `name operator operand...`, its tokens separated by single
//! spaces. It appends one operation to the table and binds `name` to the
//! index of that operation; an operand is a name bound by an earlier line.
//! A name may be bound again: later lines then see the later binding.
//! Tokens after the last one that the operator takes are not read.

use vstd::prelude::*;
use vstd::string::StringSliceAdditionalSpecFns;
use crate::literal::is_float_literal;
use crate::operation::{Operation, ordered};
use crate::text::split;

verus! {

/// The operators of the program text.
#[derive(Clone, Copy, Debug, PartialEq, Eq)]
pub enum Operator {
    /// `var-x`
    VariableX,
    /// `var-y`
    VariableY,
    /// `const`, followed by a literal
    Constant,
    /// `add`
    Add,
    /// `sub`
    Subtract,
    /// `mul`
    Multiply,
    /// `div`. It takes two operands as the other binary operators do, but
    /// the table has no operation for it: an instruction that uses it is
    /// rejected, once its operands are found to be bound.
    Divide,
    /// `max`
    Max,
    /// `min`
    Min,
    /// `neg`
    Negate,
    /// `square`
    Square,
    /// `sqrt`
    SquareRoot,
}

/// Why an instruction was rejected.
#[derive(Clone, Copy, Debug, PartialEq, Eq)]
pub enum Cause {
    /// The operator is missing, is not one of the vocabulary, or is `div`.
    UnknownOperator,
    /// An operand is missing, or is a name that no earlier line binds.
    UndefinedReference,
    /// The token after `const` is missing or is no floating-point literal.
    InvalidLiteral,
}

/// A program that cannot be compiled: the first instruction that was
/// rejected, by the number of its line counted from 1, and why.
#[derive(Clone, Copy, Debug, PartialEq, Eq)]
pub struct MalformedProgram {
    pub line: usize,
    pub cause: Cause,
}

/// What the lines read so far have come to: the operations and, at the same
/// indices, the names they are bound to.
pub struct Progress {
    pub operations: Seq<Operation<Seq<u8>>>,
    pub names: Seq<Seq<u8>>,
}

/// The operator that `token` spells.
pub open spec fn operator_of(token: Seq<u8>) -> Option<Operator> {
    if token == "var-x".spec_bytes() {
        Some(Operator::VariableX)
    } else if token == "var-y".spec_bytes() {
        Some(Operator::VariableY)
    } else if token == "const".spec_bytes() {
        Some(Operator::Constant)
    } else if token == "add".spec_bytes() {
        Some(Operator::Add)
    } else if token == "sub".spec_bytes() {
        Some(Operator::Subtract)
    } else if token == "mul".spec_bytes() {
        Some(Operator::Multiply)
    } else if token == "div".spec_bytes() {
        Some(Operator::Divide)
    } else if token == "max".spec_bytes() {
        Some(Operator::Max)
    } else if token == "min".spec_bytes() {
        Some(Operator::Min)
    } else if token == "neg".spec_bytes() {
        Some(Operator::Negate)
    } else if token == "square".spec_bytes() {
        Some(Operator::Square)
    } else if token == "sqrt".spec_bytes() {
        Some(Operator::SquareRoot)
    } else {
        None
    }
}

/// The number of operands that `operator` takes.
pub open spec fn operand_count(operator: Operator) -> int {
    match operator {
        Operator::VariableX | Operator::VariableY | Operator::Constant => 0,
        Operator::Negate | Operator::Square | Operator::SquareRoot => 1,
        Operator::Add
        | Operator::Subtract
        | Operator::Multiply
        | Operator::Divide
        | Operator::Max
        | Operator::Min => 2,
    }
}

/// The index that `name` is bound to: that of the last of `names` equal to it.
pub open spec fn resolve(names: Seq<Seq<u8>>, name: Seq<u8>) -> Option<usize>
    decreases names.len(),
{
    if names.len() == 0 {
        None
    } else if names.last() == name {
        Some((names.len() - 1) as usize)
    } else {
        resolve(names.drop_last(), name)
    }
}

/// The index that the token at `position` is bound to, if there is such a
/// token.
pub open spec fn operand(names: Seq<Seq<u8>>, tokens: Seq<Seq<u8>>, position: int) -> Option<
    usize,
> {
    if position < tokens.len() {
        resolve(names, tokens[position])
    } else {
        None
    }
}

/// The operation that an instruction with these tokens stands for, where
/// `names` are the names bound so far.
pub open spec fn decode(names: Seq<Seq<u8>>, tokens: Seq<Seq<u8>>) -> Result<
    Operation<Seq<u8>>,
    Cause,
> {
    if tokens.len() < 2 {
        Err(Cause::UnknownOperator)
    } else {
        let first = operand(names, tokens, 2);
        let second = operand(names, tokens, 3);
        match operator_of(tokens[1]) {
            None => Err(Cause::UnknownOperator),
            Some(operator) => if operand_count(operator) >= 1 && first is None
                || operand_count(operator) >= 2 && second is None {
                Err(Cause::UndefinedReference)
            } else {
                match operator {
                    Operator::VariableX => Ok(Operation::VariableX),
                    Operator::VariableY => Ok(Operation::VariableY),
                    Operator::Constant => if tokens.len() > 2 && is_float_literal(tokens[2]) {
                        Ok(Operation::Constant(tokens[2]))
                    } else {
                        Err(Cause::InvalidLiteral)
                    },
                    Operator::Add => Ok(Operation::Add(first.unwrap(), second.unwrap())),
                    Operator::Subtract => Ok(
                        Operation::Subtract(first.unwrap(), second.unwrap()),
                    ),
                    Operator::Multiply => Ok(
                        Operation::Multiply(first.unwrap(), second.unwrap()),
                    ),
                    Operator::Divide => Err(Cause::UnknownOperator),
                    Operator::Max => Ok(Operation::Max(first.unwrap(), second.unwrap())),
                    Operator::Min => Ok(Operation::Min(first.unwrap(), second.unwrap())),
                    Operator::Negate => Ok(Operation::Negate(first.unwrap())),
                    Operator::Square => Ok(Operation::Square(first.unwrap())),
                    Operator::SquareRoot => Ok(Operation::SquareRoot(first.unwrap())),
                }
            },
        }
    }
}

/// Whether `line` is an instruction: it is not empty and is no comment.
pub open spec fn is_instruction(line: Seq<u8>) -> bool {
    line.len() > 0 && line[0] != '#' as u8
}

/// What `lines`, read one after the other, come to: the operations of the
/// instructions among them, or the first instruction that is rejected.
pub open spec fn compile_lines(lines: Seq<Seq<u8>>) -> Result<Progress, MalformedProgram>
    decreases lines.len(),
{
    if lines.len() == 0 {
        Ok(Progress { operations: Seq::empty(), names: Seq::empty() })
    } else {
        match compile_lines(lines.drop_last()) {
            Err(e) => Err(e),
            Ok(progress) => if is_instruction(lines.last()) {
                let tokens = split(lines.last(), ' ' as u8);
                match decode(progress.names, tokens) {
                    Ok(operation) => Ok(
                        Progress {
                            operations: progress.operations.push(operation),
                            names: progress.names.push(tokens[0]),
                        },
                    ),
                    Err(cause) => Err(MalformedProgram { line: lines.len() as usize, cause }),
                }
            } else {
                Ok(progress)
            },
        }
    }
}

/// The table that the program `source` compiles to, each constant given by
/// the text of its literal, or the reason why it does not compile.
pub open spec fn compiled(source: Seq<u8>) -> Result<Seq<Operation<Seq<u8>>>, MalformedProgram> {
    match compile_lines(split(source, '\n' as u8)) {
        Ok(progress) => Ok(progress.operations),
        Err(e) => Err(e),
    }
}

/// The lines of `source` that are instructions, in order.
pub open spec fn instructions(source: Seq<u8>) -> Seq<Seq<u8>> {
    split(source, '\n' as u8).filter(|line: Seq<u8>| is_instruction(line))
}

/// Whether an instruction among the first `before` of `lines` binds `name`.
pub open spec fn bound_before(lines: Seq<Seq<u8>>, before: int, name: Seq<u8>) -> bool {
    exists|j: int|
        0 <= j < before && j < lines.len() && is_instruction(#[trigger] lines[j]) && split(
            lines[j],
            ' ' as u8,
        )[0] == name
}

/// A name resolves to an index among the names, and to nothing only where
/// none of the names is equal to it. Where the indices fit the index type,
/// it resolves to the last of the names equal to it.
pub proof fn lemma_resolve(names: Seq<Seq<u8>>, name: Seq<u8>)
    ensures
        resolve(names, name) matches Some(i) ==> i < names.len(),
        resolve(names, name) is Some <==> exists|k: int|
            0 <= k < names.len() && #[trigger] names[k] == name,
        names.len() <= usize::MAX ==> (resolve(names, name) matches Some(i) ==> {
            &&& names[i as int] == name
            &&& forall|k: int| i < k < names.len() ==> #[trigger] names[k] != name
        }),
    decreases names.len(),
{
    if names.len() > 0 && names.last() != name {
        let earlier = names.drop_last();
        lemma_resolve(earlier, name);
        if exists|k: int| 0 <= k < names.len() && #[trigger] names[k] == name {
            let k = choose|k: int| 0 <= k < names.len() && #[trigger] names[k] == name;
            assert(earlier[k] == name);
        }
        if names.len() <= usize::MAX {
            if let Some(i) = resolve(names, name) {
                assert forall|k: int| i < k < earlier.len() implies #[trigger] names[k]
                    != name by {
                    assert(earlier[k] == names[k]);
                }
            }
        }
    }
}

/// An operation that `decode` yields reads only indices among the names.
pub proof fn lemma_decode_bound(names: Seq<Seq<u8>>, tokens: Seq<Seq<u8>>)
    ensures
        decode(names, tokens) matches Ok(operation) ==> operation.operands_below(
            names.len() as int,
        ),
{
    if tokens.len() > 2 {
        lemma_resolve(names, tokens[2]);
    }
    if tokens.len() > 3 {
        lemma_resolve(names, tokens[3]);
    }
}

/// What any lines come to is ordered, has one name for each operation and
/// one operation for each instruction, and holds only names that the
/// instructions bind.
pub proof fn lemma_progress(lines: Seq<Seq<u8>>)
    ensures
        compile_lines(lines) matches Ok(progress) ==> {
            &&& ordered(progress.operations)
            &&& progress.names.len() == progress.operations.len()
            &&& progress.operations.len() == lines.filter(
                |line: Seq<u8>| is_instruction(line),
            ).len()
            &&& forall|k: int|
                0 <= k < progress.names.len() ==> bound_before(
                    lines,
                    lines.len() as int,
                    #[trigger] progress.names[k],
                )
        },
    decreases lines.len(),
{
    reveal(Seq::filter);
    if lines.len() > 0 {
        let earlier = lines.drop_last();
        lemma_progress(earlier);
        if let Ok(before) = compile_lines(earlier) {
            lemma_decode_bound(before.names, split(lines.last(), ' ' as u8));
        }
    }
}

/// Once a line is rejected, so is every program that continues it.
pub proof fn lemma_rejection_stays(lines: Seq<Seq<u8>>, n: int)
    requires
        0 <= n <= lines.len(),
        compile_lines(lines.take(n)) is Err,
    ensures
        compile_lines(lines) == compile_lines(lines.take(n)),
    decreases lines.len(),
{
    if n == lines.len() {
        assert(lines.take(n) =~= lines);
    } else {
        assert(lines.drop_last().take(n) =~= lines.take(n));
        lemma_rejection_stays(lines.drop_last(), n);
    }
}

/// A rejection names the first instruction that is rejected: the lines
/// before it are accepted, and it is rejected for the cause given.
pub proof fn lemma_rejection(lines: Seq<Seq<u8>>)
    ensures
        compile_lines(lines) matches Err(e) ==> exists|k: int|
            {
                &&& 0 <= k < lines.len()
                &&& e.line == (k + 1) as usize
                &&& is_instruction(lines[k])
                &&& #[trigger] compile_lines(lines.take(k)) matches Ok(progress) && decode(
                    progress.names,
                    split(lines[k], ' ' as u8),
                ) == Err::<Operation<Seq<u8>>, Cause>(e.cause)
            },
    decreases lines.len(),
{
    if let Err(e) = compile_lines(lines) {
        let earlier = lines.drop_last();
        if compile_lines(earlier) is Err {
            lemma_rejection(earlier);
            let k = choose|k: int|
                {
                    &&& 0 <= k < earlier.len()
                    &&& e.line == (k + 1) as usize
                    &&& is_instruction(earlier[k])
                    &&& #[trigger] compile_lines(earlier.take(k)) matches Ok(progress) && decode(
                        progress.names,
                        split(earlier[k], ' ' as u8),
                    ) == Err::<Operation<Seq<u8>>, Cause>(e.cause)
                };
            assert(earlier.take(k) =~= lines.take(k));
        } else {
            assert(lines.take(lines.len() - 1) =~= earlier);
        }
    }
}

/// Index ordering. Every table that a program compiles to is ordered: the
/// operation at index `i` reads only entries at indices below `i`.
pub proof fn lemma_compiled_ordered(source: Seq<u8>)
    ensures
        compiled(source) matches Ok(table) ==> ordered(table),
{
    lemma_progress(split(source, '\n' as u8));
}

/// Table length. A program that compiles yields one operation for each of
/// its instructions.
pub proof fn lemma_one_operation_per_instruction(source: Seq<u8>)
    ensures
        compiled(source) matches Ok(table) ==> table.len() == instructions(source).len(),
{
    lemma_progress(split(source, '\n' as u8));
}

/// Undefined references. A program is rejected if one of its instructions
/// has, in the place of an operand, a name that no instruction on an earlier
/// line binds: at that instruction, for the undefined reference, unless an
/// earlier one is rejected.
pub proof fn lemma_undefined_reference_rejected(source: Seq<u8>, line: int, position: int)
    requires
        0 <= line < split(source, '\n' as u8).len(),
        is_instruction(split(source, '\n' as u8)[line]),
        ({
            let lines = split(source, '\n' as u8);
            let tokens = split(lines[line], ' ' as u8);
            &&& tokens.len() >= 2
            &&& operator_of(tokens[1]) matches Some(operator)
            &&& 2 <= position < 2 + operand_count(operator)
            &&& position < tokens.len()
            &&& !bound_before(lines, line, tokens[position])
        }),
    ensures
        compiled(source) matches Err(e) && (compile_lines(
            split(source, '\n' as u8).take(line),
        ) is Ok ==> e == MalformedProgram {
            line: (line + 1) as usize,
            cause: Cause::UndefinedReference,
        }),
{
    let lines = split(source, '\n' as u8);
    let tokens = split(lines[line], ' ' as u8);
    let read = lines.take(line + 1);
    let earlier = lines.take(line);
    assert(read.drop_last() =~= earlier);
    if let Ok(progress) = compile_lines(earlier) {
        lemma_progress(earlier);
        lemma_resolve(progress.names, tokens[position]);
    }
    lemma_rejection_stays(lines, line + 1);
}

} // verus!
