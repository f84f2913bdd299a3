//! How many names the generation of a block gives.

use vstd::prelude::*;

use crate::code;
use crate::code::BlockCode;
use crate::context::FunctionInput;
use crate::laws;
use crate::libfunc::{LibfuncId, Maybe};
use crate::lifetime::DropLocation;
use crate::lowering::{
    BlockId, FlatBlock, FlatBlockEnd, MatchArm, MatchInfo, Statement, StatementLocation,
    VariableId,
};
use crate::meaning;
use crate::names::Names;
use crate::trail;
use crate::trail::Trail;

verus! {

/// The later names have at most so many Sierra variables more, and so many labels.
pub open spec fn gives_up_to(earlier: Names, later: Names, count: nat) -> bool {
    &&& later.next_variable <= earlier.next_variable + count
    &&& later.next_label <= earlier.next_label + count
}

/// How many names the first statements of a block and the drops after them need at most.
pub open spec fn statements_bound(
    input: FunctionInput,
    block_id: BlockId,
    statements: Seq<Statement>,
) -> nat
    decreases statements.len(),
{
    if statements.len() == 0 {
        0
    } else {
        let location = (block_id, (statements.len() - 1) as usize);
        statements_bound(input, block_id, statements.drop_last()) + 2 * laws::input_count(
            statements.last(),
        ) + laws::output_count(statements.last()) + meaning::dying_at(
            input,
            DropLocation::PostStatement(location),
        ).len()
    }
}

/// How many names the end of a block needs at most, but for the blocks to which it leads.
pub open spec fn end_bound(end: FlatBlockEnd) -> nat {
    match end {
        FlatBlockEnd::Return(vars) => 2 * vars@.len(),
        FlatBlockEnd::Goto(_, remapping) => 2 * remapping@.len() + 1,
        FlatBlockEnd::Match { info: MatchInfo::Extern(info) } => info.arms@.len()
            + code::arm_variables(info.arms@).len() + 2 * info.inputs@.len(),
        FlatBlockEnd::Match { info: MatchInfo::Enum(info) } => info.arms@.len()
            + code::arm_variables(info.arms@).len() + 2,
        _ => 0,
    }
}

/// How many names a block needs at most, but for the blocks to which it leads.
pub open spec fn block_bound(input: FunctionInput, block_id: BlockId) -> nat {
    let block = input.lowered.blocks@[block_id.0 as int];
    meaning::dying_at(input, DropLocation::BeginningOfBlock(block_id)).len() + statements_bound(
        input,
        block_id,
        block.statements@,
    ) + meaning::dying_at(
        input,
        DropLocation::PostStatement(meaning::place_of_end(block_id, block)),
    ).len() + end_bound(block.end)
}

/// How many names blocks need at most.
pub open spec fn total_bound(input: FunctionInput, blocks: Seq<BlockId>) -> nat
    decreases blocks.len(),
{
    if blocks.len() == 0 {
        0
    } else {
        total_bound(input, blocks.drop_last()) + block_bound(input, blocks.last())
    }
}

/// Blocks in two lists need what those in each list need.
proof fn lemma_total_bound(input: FunctionInput, first: Seq<BlockId>, second: Seq<BlockId>)
    ensures
        total_bound(input, first + second) == total_bound(input, first) + total_bound(
            input,
            second,
        ),
    decreases second.len(),
{
    if second.len() == 0 {
        assert(first + second == first);
    } else {
        assert((first + second).drop_last() == first + second.drop_last());
        lemma_total_bound(input, first, second.drop_last());
    }
}

/// How many names statements give.
proof fn lemma_statements_count(
    input: FunctionInput,
    names: Names,
    block_id: BlockId,
    statements: Seq<Statement>,
)
    ensures
        gives_up_to(
            names,
            code::statements_code(input, names, block_id, statements).names,
            statements_bound(input, block_id, statements),
        ),
    decreases statements.len(),
{
    if statements.len() > 0 {
        let location = (block_id, (statements.len() - 1) as usize);
        let before = code::statements_code(input, names, block_id, statements.drop_last());
        let statement = code::statement_code(input, before.names, statements.last(), location);
        lemma_statements_count(input, names, block_id, statements.drop_last());
        laws::statements_give_few_names(input, before.names, statements.last(), location);
        laws::drops_give_few_names(
            input,
            statement.names,
            meaning::dying_at(input, DropLocation::PostStatement(location)),
        );
        laws::drops_give_few_names(
            input,
            before.names,
            meaning::dying_at(input, DropLocation::PostStatement(location)),
        );
    }
}

/// The body of a block gives at most one Sierra variable to each drop, two to each input and one to
/// each output.
pub proof fn bodies_give_few_names(
    input: FunctionInput,
    names: Names,
    block_id: BlockId,
    block: FlatBlock,
)
    ensures
        gives_up_to(
            names,
            code::body_code(input, names, block_id, block).names,
            meaning::dying_at(input, DropLocation::BeginningOfBlock(block_id)).len()
                + statements_bound(
                input,
                block_id,
                block.statements@,
            ) + meaning::dying_at(
                input,
                DropLocation::PostStatement(meaning::place_of_end(block_id, block)),
            ).len(),
        ),
{
    let begin = meaning::dying_at(input, DropLocation::BeginningOfBlock(block_id));
    let end = meaning::dying_at(
        input,
        DropLocation::PostStatement(meaning::place_of_end(block_id, block)),
    );
    let first = code::drops_code(input, names, begin);
    let middle = code::statements_code(input, first.names, block_id, block.statements@);
    laws::drops_give_few_names(input, names, begin);
    lemma_statements_count(input, first.names, block_id, block.statements@);
    laws::drops_give_few_names(input, middle.names, end);
}

/// How many names a remapping gives.
pub proof fn lemma_remapping_count(
    input: FunctionInput,
    names: Names,
    entries: Seq<(VariableId, VariableId)>,
)
    requires
        code::remapped_values(input, names, entries) is Some,
    ensures
        gives_up_to(
            names,
            code::remapped_values(input, names, entries)->0.names,
            2 * entries.len(),
        ),
        code::remapped_values(input, names, entries)->0.names.next_label == names.next_label,
    decreases entries.len(),
{
    if entries.len() > 0 {
        lemma_remapping_count(input, names, entries.drop_last());
    }
}

/// Blocks give at most the names that the blocks that are generated for them need.
spec fn give_few_names(input: FunctionInput, blocks: BlockCode, trail: Trail) -> bool {
    forall|names: Names, block_id: BlockId|
        (#[trigger] blocks(names, block_id)) is Some ==> gives_up_to(
            names,
            blocks(names, block_id)->0.names,
            total_bound(input, trail(block_id)),
        )
}

/// How many names arms give.
proof fn lemma_arms_count(
    input: FunctionInput,
    start: Names,
    names: Names,
    arms: Seq<MatchArm>,
    blocks: BlockCode,
    trail: Trail,
)
    requires
        give_few_names(input, blocks, trail),
        code::arms_code(start, names, arms, blocks) is Some,
    ensures
        gives_up_to(
            names,
            code::arms_code(start, names, arms, blocks)->0.names,
            total_bound(input, trail::arms_trail(arms, trail)),
        ),
    decreases arms.len(),
{
    if arms.len() > 0 {
        let before = code::arms_code(start, names, arms.drop_last(), blocks)->0;
        lemma_arms_count(input, start, names, arms.drop_last(), blocks, trail);
        lemma_total_bound(
            input,
            trail::arms_trail(arms.drop_last(), trail),
            trail(arms.last().block_id),
        );
        if before.result is Ok {
            assert(blocks(before.names, arms.last().block_id) is Some);
        }
    }
}

/// How many names a match gives.
proof fn lemma_match_count(
    input: FunctionInput,
    names: Names,
    location: StatementLocation,
    inputs: Seq<VariableId>,
    libfunc_id: Maybe<LibfuncId>,
    arms: Seq<MatchArm>,
    blocks: BlockCode,
    trail: Trail,
)
    requires
        give_few_names(input, blocks, trail),
        code::match_code(input, names, location, inputs, libfunc_id, arms, blocks) is Some,
    ensures
        gives_up_to(
            names,
            code::match_code(
                input,
                names,
                location,
                inputs,
                libfunc_id,
                arms,
                blocks,
            )->0.names,
            arms.len() + code::arm_variables(arms).len() + 2 * inputs.len() + total_bound(
                input,
                trail::arms_trail(arms, trail),
            ),
        ),
{
    let branching = code::branching_code(input, names, location, inputs, libfunc_id, arms);
    laws::variables_give_few_names(
        names.with_fresh_labels(arms.len()),
        code::arm_variables(arms),
    );
    laws::arguments_give_few_names(input, code::match_names(names, arms), location, inputs);
    if branching.result is Ok {
        lemma_arms_count(input, names, branching.names, arms, blocks, trail);
    }
}

/// How many names a block gives, given how many the blocks give to which it leads.
proof fn lemma_parts_count(
    input: FunctionInput,
    names: Names,
    block_id: BlockId,
    blocks: BlockCode,
    trail: Trail,
)
    requires
        give_few_names(input, blocks, trail),
        code::block_parts(input, names, block_id, blocks) is Some,
    ensures
        gives_up_to(
            names,
            code::block_parts(input, names, block_id, blocks)->0.names,
            total_bound(
                input,
                seq![block_id] + trail::end_trail(
                    block_id,
                    input.lowered.blocks@[block_id.0 as int].end,
                    trail,
                ),
            ),
        ),
{
    let block = input.lowered.blocks@[block_id.0 as int];
    let location = meaning::place_of_end(block_id, block);
    let body = code::body_code(input, names, block_id, block);
    let rest = trail::end_trail(block_id, block.end, trail);
    bodies_give_few_names(input, names, block_id, block);
    lemma_total_bound(input, seq![block_id], rest);
    assert(seq![block_id].drop_last() == Seq::<BlockId>::empty());
    assert(total_bound(input, seq![block_id]) == block_bound(input, block_id)) by {
        reveal_with_fuel(total_bound, 2);
    }
    if body.result is Ok {
        match block.end {
            FlatBlockEnd::Return(vars) => {
                laws::returns_give_few_names(input, body.names, location, vars@);
            },
            FlatBlockEnd::Goto(target, remapping) => {
                lemma_remapping_count(input, body.names, remapping@);
                let pushes = code::remapping_code(input, body.names, remapping@)->0;
                let named = pushes.names.with_block_label(target);
                if pushes.result is Ok && target.0 == block_id.0 + 1 {
                    assert(blocks(named, target) is Some);
                }
            },
            FlatBlockEnd::Match { info: MatchInfo::Extern(info) } => {
                lemma_match_count(
                    input,
                    body.names,
                    location,
                    info.inputs@,
                    Ok(LibfuncId::Function { function: info.function }),
                    info.arms@,
                    blocks,
                    trail,
                );
            },
            FlatBlockEnd::Match { info: MatchInfo::Enum(info) } => {
                lemma_match_count(
                    input,
                    body.names,
                    location,
                    seq![info.input],
                    code::match_enum_libfunc(input, info.input),
                    info.arms@,
                    blocks,
                    trail,
                );
            },
            _ => {},
        }
    }
}

/// How many names blocks within a depth give.
proof fn lemma_within_count(input: FunctionInput, depth: nat)
    ensures
        give_few_names(
            input,
            code::blocks_within(input, depth),
            trail::trail_within(input, depth),
        ),
    decreases depth,
{
    let blocks = code::blocks_within(input, depth);
    let trail = trail::trail_within(input, depth);
    if depth > 0 {
        let less = (depth - 1) as nat;
        lemma_within_count(input, less);
        assert forall|names: Names, block_id: BlockId|
            (#[trigger] blocks(names, block_id)) is Some implies gives_up_to(
                names,
                blocks(names, block_id)->0.names,
                total_bound(input, trail(block_id)),
            ) by {
            lemma_parts_count(
                input,
                names,
                block_id,
                code::blocks_within(input, less),
                trail::trail_within(input, less),
            );
        }
    }
}

/// Generating a block gives at most the names that the blocks that are generated for it need: one
/// to each drop, two to each input, one to each output and each arm, and one to each goto.
pub proof fn blocks_give_few_names(input: FunctionInput, names: Names, block_id: BlockId)
    requires
        code::block_code(input, names, block_id) is Some,
    ensures
        gives_up_to(
            names,
            code::block_code(input, names, block_id)->0.names,
            total_bound(input, trail::generated_blocks(input, names, block_id)),
        ),
{
    reveal(code::block_code);
    let depth = code::block_depth(input, names, block_id);
    lemma_within_count(input, depth);
    assert(code::blocks_within(input, depth)(names, block_id) is Some);
}

} // verus!
