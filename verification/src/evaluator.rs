//! The straight-line evaluator.
//!
//! An evaluation walks the table once, from the first operation to the
//! last, and computes the value of each operation from the two inputs and
//! from values computed before it. The evaluator is generic in the type of
//! the values and is handed the arithmetic on them: one table serves any
//! numeric domain.

use vstd::prelude::*;
use crate::operation::{Operation, OperationTable, ordered};

verus! {

/// One arithmetic step on values that are already known: what the
/// evaluator asks of the arithmetic it is handed.
#[derive(Clone, Copy, Debug, PartialEq)]
pub enum Arithmetic<V> {
    /// The sum of two values.
    Add(V, V),
    /// The first value less the second.
    Subtract(V, V),
    /// The product of two values.
    Multiply(V, V),
    /// The larger of two values.
    Max(V, V),
    /// The smaller of two values.
    Min(V, V),
    /// A value with its sign changed.
    Negate(V),
    /// A value times itself.
    Square(V),
    /// The square root of a value.
    SquareRoot(V),
}

/// The arithmetic step that `operation` takes on `values`, the values of
/// the table's operations; none for an operation that computes nothing.
pub open spec fn step_of<V>(operation: Operation<V>, values: Seq<V>) -> Option<Arithmetic<V>> {
    match operation {
        Operation::Constant(_) | Operation::VariableX | Operation::VariableY => None,
        Operation::Add(a, b) => Some(Arithmetic::Add(values[a as int], values[b as int])),
        Operation::Subtract(a, b) => Some(Arithmetic::Subtract(values[a as int], values[b as int])),
        Operation::Multiply(a, b) => Some(Arithmetic::Multiply(values[a as int], values[b as int])),
        Operation::Max(a, b) => Some(Arithmetic::Max(values[a as int], values[b as int])),
        Operation::Min(a, b) => Some(Arithmetic::Min(values[a as int], values[b as int])),
        Operation::Negate(a) => Some(Arithmetic::Negate(values[a as int])),
        Operation::Square(a) => Some(Arithmetic::Square(values[a as int])),
        Operation::SquareRoot(a) => Some(Arithmetic::SquareRoot(values[a as int])),
    }
}

/// `value` is a value of `operation` at `(x, y)`: the constant, the input,
/// or a result of `arithmetic` for the step that the operation takes on
/// `values`.
pub open spec fn is_value<V, A: Fn(Arithmetic<V>) -> V>(
    arithmetic: &A,
    operation: Operation<V>,
    x: V,
    y: V,
    values: Seq<V>,
    value: V,
) -> bool {
    match operation {
        Operation::Constant(c) => value == c,
        Operation::VariableX => value == x,
        Operation::VariableY => value == y,
        _ => arithmetic.ensures((step_of(operation, values).unwrap(),), value),
    }
}

/// `values` is a trace of `table` at `(x, y)`: it holds, at the index of
/// each operation, a value of that operation.
pub open spec fn is_trace<V, A: Fn(Arithmetic<V>) -> V>(
    arithmetic: &A,
    table: Seq<Operation<V>>,
    x: V,
    y: V,
    values: Seq<V>,
) -> bool {
    &&& values.len() == table.len()
    &&& forall|i: int|
        0 <= i < table.len() ==> is_value(arithmetic, #[trigger] table[i], x, y, values, values[i])
}

/// `out` is a result of `table` at `(x, y)`: the last value of one of its
/// traces, or nothing where the table is empty.
pub open spec fn is_result<V, A: Fn(Arithmetic<V>) -> V>(
    arithmetic: &A,
    table: Seq<Operation<V>>,
    x: V,
    y: V,
    out: Option<V>,
) -> bool {
    match out {
        None => table.len() == 0,
        Some(value) => exists|values: Seq<V>|
            #[trigger] is_trace(arithmetic, table, x, y, values) && values.len() > 0
                && values.last() == value,
    }
}

/// `arithmetic` computes `f`: whatever it returns for a step is `f` of the step.
pub open spec fn computes<V, A: Fn(Arithmetic<V>) -> V>(
    arithmetic: &A,
    f: spec_fn(Arithmetic<V>) -> V,
) -> bool {
    forall|step: Arithmetic<V>, value: V| #[trigger]
        arithmetic.ensures((step,), value) ==> value == f(step)
}

/// `arithmetic` has at most one result for each step.
pub open spec fn deterministic<V, A: Fn(Arithmetic<V>) -> V>(arithmetic: &A) -> bool {
    forall|step: Arithmetic<V>, first: V, second: V|
        #[trigger] arithmetic.ensures((step,), first) && #[trigger] arithmetic.ensures(
            (step,),
            second,
        ) ==> first == second
}

/// The values of the operations of `table` at `(x, y)`, in table order,
/// where `f` is the arithmetic.
pub open spec fn values_of<V>(
    f: spec_fn(Arithmetic<V>) -> V,
    table: Seq<Operation<V>>,
    x: V,
    y: V,
) -> Seq<V>
    decreases table.len(),
{
    if table.len() == 0 {
        Seq::empty()
    } else {
        let before = values_of(f, table.drop_last(), x, y);
        before.push(
            match table.last() {
                Operation::Constant(c) => c,
                Operation::VariableX => x,
                Operation::VariableY => y,
                operation => f(step_of(operation, before).unwrap()),
            },
        )
    }
}

/// The value of the last operation of `table` at `(x, y)`, where `f` is the
/// arithmetic; nothing where the table is empty.
pub open spec fn result_of<V>(
    f: spec_fn(Arithmetic<V>) -> V,
    table: Seq<Operation<V>>,
    x: V,
    y: V,
) -> Option<V> {
    if table.len() == 0 {
        None
    } else {
        Some(values_of(f, table, x, y).last())
    }
}

/// The first values of a trace are a trace of the first operations, and its
/// last value is a value of the last operation on them.
proof fn lemma_trace_prefix<V, A: Fn(Arithmetic<V>) -> V>(
    arithmetic: &A,
    table: Seq<Operation<V>>,
    x: V,
    y: V,
    values: Seq<V>,
)
    requires
        ordered(table),
        is_trace(arithmetic, table, x, y, values),
        table.len() > 0,
    ensures
        ordered(table.drop_last()),
        is_trace(arithmetic, table.drop_last(), x, y, values.drop_last()),
        is_value(arithmetic, table.last(), x, y, values.drop_last(), values.last()),
        values == values.drop_last().push(values.last()),
{
    let n = table.len() - 1;
    assert forall|i: int| 0 <= i <= n implies is_value(
        arithmetic,
        #[trigger] table[i],
        x,
        y,
        values.drop_last(),
        values[i],
    ) by {
        assert(table[i].operands_below(i));
        assert(is_value(arithmetic, table[i], x, y, values, values[i]));
    }
    assert(values =~= values.drop_last().push(values.last()));
}

/// Where the arithmetic computes `f`, the one trace of a table is `values_of`.
pub proof fn lemma_trace_is_values<V, A: Fn(Arithmetic<V>) -> V>(
    arithmetic: &A,
    f: spec_fn(Arithmetic<V>) -> V,
    table: Seq<Operation<V>>,
    x: V,
    y: V,
    values: Seq<V>,
)
    requires
        ordered(table),
        computes(arithmetic, f),
        is_trace(arithmetic, table, x, y, values),
    ensures
        values == values_of(f, table, x, y),
    decreases table.len(),
{
    if table.len() > 0 {
        lemma_trace_prefix(arithmetic, table, x, y, values);
        lemma_trace_is_values(arithmetic, f, table.drop_last(), x, y, values.drop_last());
    }
}

/// Determinism of the trace: where the arithmetic has at most one result
/// for each step, a table has at most one trace at each point.
pub proof fn lemma_trace_unique<V, A: Fn(Arithmetic<V>) -> V>(
    arithmetic: &A,
    table: Seq<Operation<V>>,
    x: V,
    y: V,
    first: Seq<V>,
    second: Seq<V>,
)
    requires
        ordered(table),
        deterministic(arithmetic),
        is_trace(arithmetic, table, x, y, first),
        is_trace(arithmetic, table, x, y, second),
    ensures
        first == second,
    decreases table.len(),
{
    if table.len() > 0 {
        lemma_trace_prefix(arithmetic, table, x, y, first);
        lemma_trace_prefix(arithmetic, table, x, y, second);
        lemma_trace_unique(
            arithmetic,
            table.drop_last(),
            x,
            y,
            first.drop_last(),
            second.drop_last(),
        );
    }
}

/// Determinism of the result: where the arithmetic has at most one result
/// for each step, two evaluations of one table at one point return the same.
pub proof fn lemma_result_unique<V, A: Fn(Arithmetic<V>) -> V>(
    arithmetic: &A,
    table: Seq<Operation<V>>,
    x: V,
    y: V,
    first: Option<V>,
    second: Option<V>,
)
    requires
        ordered(table),
        deterministic(arithmetic),
        is_result(arithmetic, table, x, y, first),
        is_result(arithmetic, table, x, y, second),
    ensures
        first == second,
{
    if first is Some && second is Some {
        let a = choose|values: Seq<V>|
            #[trigger] is_trace(arithmetic, table, x, y, values) && values.len() > 0
                && values.last() == first.unwrap();
        let b = choose|values: Seq<V>|
            #[trigger] is_trace(arithmetic, table, x, y, values) && values.len() > 0
                && values.last() == second.unwrap();
        lemma_trace_unique(arithmetic, table, x, y, a, b);
    }
}

/// Evaluates `table` at `(x, y)` into `values`, which it empties first: it
/// then holds the value of every operation, at the operation's index.
pub fn eval<V: Copy, A: Fn(Arithmetic<V>) -> V>(
    table: &OperationTable<V>,
    x: V,
    y: V,
    arithmetic: &A,
    values: &mut Vec<V>,
)
    requires
        forall|step: Arithmetic<V>| arithmetic.requires((step,)),
    ensures
        is_trace(arithmetic, table@, x, y, final(values)@),
        deterministic(arithmetic) ==> forall|other: Seq<V>| #[trigger]
            is_trace(arithmetic, table@, x, y, other) ==> other == final(values)@,
        forall|f: spec_fn(Arithmetic<V>) -> V| #[trigger]
            computes(arithmetic, f) ==> final(values)@ == values_of(f, table@, x, y),
{
    let operations = table.operations();
    values.clear();
    let mut i: usize = 0;
    while i < operations.len()
        invariant
            operations@ == table@,
            ordered(operations@),
            forall|step: Arithmetic<V>| arithmetic.requires((step,)),
            i <= operations@.len(),
            values@.len() == i,
            forall|k: int|
                0 <= k < i ==> is_value(
                    arithmetic,
                    #[trigger] operations@[k],
                    x,
                    y,
                    values@,
                    values@[k],
                ),
        decreases operations.len() - i,
    {
        let operation = operations[i];
        let ghost before = values@;
        let value = match operation {
            Operation::Constant(c) => c,
            Operation::VariableX => x,
            Operation::VariableY => y,
            Operation::Add(a, b) => arithmetic(Arithmetic::Add(values[a], values[b])),
            Operation::Subtract(a, b) => arithmetic(Arithmetic::Subtract(values[a], values[b])),
            Operation::Multiply(a, b) => arithmetic(Arithmetic::Multiply(values[a], values[b])),
            Operation::Max(a, b) => arithmetic(Arithmetic::Max(values[a], values[b])),
            Operation::Min(a, b) => arithmetic(Arithmetic::Min(values[a], values[b])),
            Operation::Negate(a) => arithmetic(Arithmetic::Negate(values[a])),
            Operation::Square(a) => arithmetic(Arithmetic::Square(values[a])),
            Operation::SquareRoot(a) => arithmetic(Arithmetic::SquareRoot(values[a])),
        };
        values.push(value);
        proof {
            // The operands are before `i`: the new value changes nothing
            // that the values so far were computed from.
            assert forall|k: int| 0 <= k <= i implies is_value(
                arithmetic,
                #[trigger] operations@[k],
                x,
                y,
                values@,
                values@[k],
            ) by {
                assert(operations@[k].operands_below(k));
                if k < i {
                    assert(is_value(arithmetic, operations@[k], x, y, before, before[k]));
                }
            }
        }
        i += 1;
    }
    proof {
        assert forall|f: spec_fn(Arithmetic<V>) -> V| #[trigger]
            computes(arithmetic, f) implies values@ == values_of(f, table@, x, y) by {
            lemma_trace_is_values(arithmetic, f, table@, x, y, values@);
        }
        if deterministic(arithmetic) {
            assert forall|other: Seq<V>| #[trigger]
                is_trace(arithmetic, table@, x, y, other) implies other == values@ by {
                lemma_trace_unique(arithmetic, table@, x, y, other, values@);
            }
        }
    }
}

/// Evaluates `table` at `(x, y)` and returns the value of its last
/// operation, or nothing where the table is empty.
pub fn evaluate<V: Copy, A: Fn(Arithmetic<V>) -> V>(
    table: &OperationTable<V>,
    x: V,
    y: V,
    arithmetic: &A,
) -> (out: Option<V>)
    requires
        forall|step: Arithmetic<V>| arithmetic.requires((step,)),
    ensures
        is_result(arithmetic, table@, x, y, out),
        deterministic(arithmetic) ==> forall|other: Option<V>| #[trigger]
            is_result(arithmetic, table@, x, y, other) ==> other == out,
        forall|f: spec_fn(Arithmetic<V>) -> V| #[trigger]
            computes(arithmetic, f) ==> out == result_of(f, table@, x, y),
{
    let mut values: Vec<V> = Vec::new();
    eval(table, x, y, arithmetic, &mut values);
    let out = if values.len() == 0 {
        None
    } else {
        Some(values[values.len() - 1])
    };
    proof {
        if deterministic(arithmetic) {
            assert forall|other: Option<V>| #[trigger]
                is_result(arithmetic, table@, x, y, other) implies other == out by {
                if let Some(value) = other {
                    let trace = choose|trace: Seq<V>|
                        #[trigger] is_trace(arithmetic, table@, x, y, trace) && trace.len() > 0
                            && trace.last() == value;
                    assert(trace == values@);
                }
            }
        }
    }
    out
}

} // verus!
