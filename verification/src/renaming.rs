//! Names are erased by compilation: a program and the same program with its
//! names consistently replaced compile to the same table.

use vstd::prelude::*;
use crate::program::{
    Operator, Progress, compile_lines, compiled, decode, is_instruction, operator_of, resolve,
};
use crate::text::split;

verus! {

/// `rename` gives different names to different names.
pub open spec fn injective(rename: spec_fn(Seq<u8>) -> Seq<u8>) -> bool {
    forall|a: Seq<u8>, b: Seq<u8>| #[trigger] rename(a) == #[trigger] rename(b) ==> a == b
}

/// The tokens of an instruction with its names replaced: every token but
/// the operator, and but what follows the operator `const`, is a name.
pub open spec fn rename_tokens(
    rename: spec_fn(Seq<u8>) -> Seq<u8>,
    tokens: Seq<Seq<u8>>,
) -> Seq<Seq<u8>> {
    Seq::new(
        tokens.len(),
        |k: int|
            if k == 1 || (k >= 2 && operator_of(tokens[1]) == Some(Operator::Constant)) {
                tokens[k]
            } else {
                rename(tokens[k])
            },
    )
}

/// `to` has a line for each line of `from`: an instruction with the tokens
/// of the instruction in `from`, its names replaced, and a line that is
/// skipped for one that is skipped.
pub open spec fn renamed_lines(
    rename: spec_fn(Seq<u8>) -> Seq<u8>,
    from: Seq<Seq<u8>>,
    to: Seq<Seq<u8>>,
) -> bool {
    &&& to.len() == from.len()
    &&& forall|i: int|
        0 <= i < from.len() ==> {
            &&& is_instruction(#[trigger] to[i]) == is_instruction(from[i])
            &&& is_instruction(from[i]) ==> split(to[i], ' ' as u8) == rename_tokens(
                rename,
                split(from[i], ' ' as u8),
            )
        }
}

/// The program `to` is the program `from` with its names replaced by `rename`.
pub open spec fn is_renaming(rename: spec_fn(Seq<u8>) -> Seq<u8>, from: Seq<u8>, to: Seq<u8>) -> bool {
    renamed_lines(rename, split(from, '\n' as u8), split(to, '\n' as u8))
}

/// A replaced name resolves among the replaced names to what the name
/// resolved to among the names.
proof fn lemma_resolve_renamed(
    rename: spec_fn(Seq<u8>) -> Seq<u8>,
    names: Seq<Seq<u8>>,
    name: Seq<u8>,
)
    requires
        injective(rename),
    ensures
        resolve(names.map_values(rename), rename(name)) == resolve(names, name),
    decreases names.len(),
{
    if names.len() > 0 {
        let earlier = names.drop_last();
        assert(names.map_values(rename).drop_last() =~= earlier.map_values(rename));
        lemma_resolve_renamed(rename, earlier, name);
    }
}

/// An instruction with its names replaced stands for the same operation.
proof fn lemma_decode_renamed(
    rename: spec_fn(Seq<u8>) -> Seq<u8>,
    names: Seq<Seq<u8>>,
    tokens: Seq<Seq<u8>>,
)
    requires
        injective(rename),
    ensures
        decode(names.map_values(rename), rename_tokens(rename, tokens)) == decode(
            names,
            tokens,
        ),
{
    if tokens.len() > 2 {
        lemma_resolve_renamed(rename, names, tokens[2]);
    }
    if tokens.len() > 3 {
        lemma_resolve_renamed(rename, names, tokens[3]);
    }
}

/// Lines with their names replaced compile to the same operations, bound to
/// the replaced names, or are rejected at the same line for the same cause.
proof fn lemma_compile_renamed_lines(
    rename: spec_fn(Seq<u8>) -> Seq<u8>,
    from: Seq<Seq<u8>>,
    to: Seq<Seq<u8>>,
)
    requires
        injective(rename),
        renamed_lines(rename, from, to),
    ensures
        match compile_lines(from) {
            Ok(progress) => compile_lines(to) matches Ok(renamed) && renamed == (Progress {
                operations: progress.operations,
                names: progress.names.map_values(rename),
            }),
            Err(e) => compile_lines(to) matches Err(rejected) && rejected == e,
        },
    decreases from.len(),
{
    if from.len() == 0 {
        assert(Seq::<Seq<u8>>::empty().map_values(rename) =~= Seq::empty());
    } else {
        lemma_compile_renamed_lines(rename, from.drop_last(), to.drop_last());
        if let Ok(progress) = compile_lines(from.drop_last()) {
            if is_instruction(from.last()) {
                let tokens = split(from.last(), ' ' as u8);
                lemma_decode_renamed(rename, progress.names, tokens);
                assert(progress.names.push(tokens[0]).map_values(rename)
                    =~= progress.names.map_values(rename).push(
                    rename_tokens(rename, tokens)[0],
                ));
            }
        }
    }
}

/// Erasure. A program with its names replaced, different names by
/// different ones, compiles to the same table as the program, or is rejected
/// as the program is.
pub proof fn lemma_renaming_preserves_table(
    rename: spec_fn(Seq<u8>) -> Seq<u8>,
    from: Seq<u8>,
    to: Seq<u8>,
)
    requires
        injective(rename),
        is_renaming(rename, from, to),
    ensures
        compiled(to) == compiled(from),
{
    lemma_compile_renamed_lines(rename, split(from, '\n' as u8), split(to, '\n' as u8));
}

} // verus!
