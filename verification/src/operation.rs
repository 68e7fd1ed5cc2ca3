//! The operation table: a dense, ordered sequence of operations in which
//! every operand refers to an earlier entry.

use vstd::prelude::*;

verus! {

/// One instruction of a compiled program. `C` is the type of a constant's
/// value; operands are indices into the table that holds the operation.
#[derive(Clone, Copy, Debug, PartialEq)]
pub enum Operation<C> {
    /// A literal value.
    Constant(C),
    /// The first input of the evaluation.
    VariableX,
    /// The second input of the evaluation.
    VariableY,
    /// The sum of two entries.
    Add(usize, usize),
    /// The first entry less the second.
    Subtract(usize, usize),
    /// The product of two entries.
    Multiply(usize, usize),
    /// The larger of two entries.
    Max(usize, usize),
    /// The smaller of two entries.
    Min(usize, usize),
    /// An entry with its sign changed.
    Negate(usize),
    /// An entry times itself.
    Square(usize),
    /// The square root of an entry.
    SquareRoot(usize),
}

impl<C> Operation<C> {
    /// Whether every operand of the operation is an index below `bound`.
    pub open spec fn operands_below(self, bound: int) -> bool {
        match self {
            Operation::Constant(_) | Operation::VariableX | Operation::VariableY => true,
            Operation::Add(a, b)
            | Operation::Subtract(a, b)
            | Operation::Multiply(a, b)
            | Operation::Max(a, b)
            | Operation::Min(a, b) => a < bound && b < bound,
            Operation::Negate(a) | Operation::Square(a) | Operation::SquareRoot(a) => a < bound,
        }
    }

    /// The operation with its constant, if it is one, replaced by `f` of it.
    pub open spec fn with_constant<D>(self, f: spec_fn(C) -> D) -> Operation<D> {
        match self {
            Operation::Constant(c) => Operation::Constant(f(c)),
            Operation::VariableX => Operation::VariableX,
            Operation::VariableY => Operation::VariableY,
            Operation::Add(a, b) => Operation::Add(a, b),
            Operation::Subtract(a, b) => Operation::Subtract(a, b),
            Operation::Multiply(a, b) => Operation::Multiply(a, b),
            Operation::Max(a, b) => Operation::Max(a, b),
            Operation::Min(a, b) => Operation::Min(a, b),
            Operation::Negate(a) => Operation::Negate(a),
            Operation::Square(a) => Operation::Square(a),
            Operation::SquareRoot(a) => Operation::SquareRoot(a),
        }
    }

    /// The operation with the value of its constant, if it is one, forgotten.
    pub open spec fn shape(self) -> Operation<()> {
        self.with_constant(|c: C| ())
    }

    /// Decides `operands_below`.
    pub fn reads_below(&self, bound: usize) -> (r: bool)
        ensures
            r == self.operands_below(bound as int),
    {
        match self {
            Operation::Constant(_) | Operation::VariableX | Operation::VariableY => true,
            Operation::Add(a, b)
            | Operation::Subtract(a, b)
            | Operation::Multiply(a, b)
            | Operation::Max(a, b)
            | Operation::Min(a, b) => *a < bound && *b < bound,
            Operation::Negate(a) | Operation::Square(a) | Operation::SquareRoot(a) => *a < bound,
        }
    }
}

impl<C: View> View for Operation<C> {
    type V = Operation<C::V>;

    open spec fn view(&self) -> Operation<C::V> {
        self.with_constant(|c: C| c@)
    }
}

/// The ordering invariant of a table: the operation at index `i` reads only
/// entries at indices below `i`.
pub open spec fn ordered<C>(operations: Seq<Operation<C>>) -> bool {
    forall|i: int| 0 <= i < operations.len() ==> (#[trigger] operations[i]).operands_below(i)
}

/// `to` is `from` with its constant, if it is one, replaced by what `convert`
/// made of it.
pub open spec fn converted<C, D, F: Fn(&C) -> D>(
    convert: &F,
    from: Operation<C>,
    to: Operation<D>,
) -> bool {
    &&& to.shape() == from.shape()
    &&& from matches Operation::Constant(c) ==> to matches Operation::Constant(d)
        && convert.ensures((&c,), d)
}

/// A table that breaks the ordering invariant: the operation at `index` reads
/// an entry that is not before it.
#[derive(Clone, Copy, Debug, PartialEq, Eq)]
pub struct InternalInvariantViolation {
    pub index: usize,
}

/// An ordered sequence of operations. Every table upholds `ordered`.
#[derive(Debug, PartialEq)]
pub struct OperationTable<C> {
    operations: Vec<Operation<C>>,
}

impl<C> View for OperationTable<C> {
    type V = Seq<Operation<C>>;

    closed spec fn view(&self) -> Seq<Operation<C>> {
        self.operations@
    }
}

impl<C> OperationTable<C> {
    #[verifier::type_invariant]
    spec fn well_formed(self) -> bool {
        ordered(self.operations@)
    }

    /// The empty table.
    pub fn new() -> (table: Self)
        ensures
            table@ == Seq::<Operation<C>>::empty(),
    {
        OperationTable { operations: Vec::new() }
    }

    /// Makes a table of `operations` if they are ordered; otherwise reports
    /// the first operation that reads an entry not before it.
    pub fn from_operations(operations: Vec<Operation<C>>) -> (out: Result<
        Self,
        InternalInvariantViolation,
    >)
        ensures
            match out {
                Ok(table) => ordered(operations@) && table@ == operations@,
                Err(e) => {
                    &&& e.index < operations@.len()
                    &&& !operations@[e.index as int].operands_below(e.index as int)
                    &&& ordered(operations@.take(e.index as int))
                },
            },
    {
        let mut i: usize = 0;
        while i < operations.len()
            invariant
                i <= operations@.len(),
                ordered(operations@.take(i as int)),
            decreases operations.len() - i,
        {
            if !operations[i].reads_below(i) {
                return Err(InternalInvariantViolation { index: i });
            }
            i += 1;
        }
        assert(operations@.take(i as int) =~= operations@);
        Ok(OperationTable { operations })
    }

    /// Makes a table of operations that are known to be ordered.
    pub(crate) fn from_ordered(operations: Vec<Operation<C>>) -> (table: Self)
        requires
            ordered(operations@),
        ensures
            table@ == operations@,
    {
        OperationTable { operations }
    }

    /// The same table with every constant converted by `convert`, which has
    /// to accept each constant of the table.
    pub fn map_constants<D, F: Fn(&C) -> D>(&self, convert: &F) -> (mapped: OperationTable<D>)
        requires
            forall|i: int|
                0 <= i < self@.len() ==> (#[trigger] self@[i] matches Operation::Constant(c)
                    ==> convert.requires((&c,))),
        ensures
            mapped@.len() == self@.len(),
            forall|i: int|
                0 <= i < self@.len() ==> converted(convert, self@[i], #[trigger] mapped@[i]),
            ordered(mapped@),
    {
        proof {
            use_type_invariant(self);
        }
        let mut operations: Vec<Operation<D>> = Vec::new();
        let mut i: usize = 0;
        while i < self.operations.len()
            invariant
                self@ == self.operations@,
                forall|i: int|
                    0 <= i < self@.len() ==> (#[trigger] self@[i] matches Operation::Constant(c)
                        ==> convert.requires((&c,))),
                ordered(self.operations@),
                ordered(operations@),
                i <= self.operations@.len(),
                operations@.len() == i,
                forall|k: int|
                    0 <= k < i ==> converted(convert, self.operations@[k], #[trigger] operations@[k]),
            decreases self.operations@.len() - i,
        {
            let operation = match &self.operations[i] {
                Operation::Constant(c) => Operation::Constant(convert(c)),
                Operation::VariableX => Operation::VariableX,
                Operation::VariableY => Operation::VariableY,
                Operation::Add(a, b) => Operation::Add(*a, *b),
                Operation::Subtract(a, b) => Operation::Subtract(*a, *b),
                Operation::Multiply(a, b) => Operation::Multiply(*a, *b),
                Operation::Max(a, b) => Operation::Max(*a, *b),
                Operation::Min(a, b) => Operation::Min(*a, *b),
                Operation::Negate(a) => Operation::Negate(*a),
                Operation::Square(a) => Operation::Square(*a),
                Operation::SquareRoot(a) => Operation::SquareRoot(*a),
            };
            operations.push(operation);
            i += 1;
        }
        OperationTable { operations }
    }

    /// The number of operations.
    pub fn len(&self) -> (n: usize)
        ensures
            n == self@.len(),
    {
        self.operations.len()
    }

    /// The operations, in table order.
    pub fn operations(&self) -> (operations: &Vec<Operation<C>>)
        ensures
            operations@ == self@,
            ordered(operations@),
    {
        proof {
            use_type_invariant(self);
        }
        &self.operations
    }
}

} // verus!
