//! When the generation of a block succeeds.

use vstd::prelude::*;

use crate::block_laws;
use crate::code;
use crate::code::BlockCode;
use crate::context::FunctionInput;
use crate::laws;
use crate::libfunc::{LibfuncId, Maybe};
use crate::lowering::{
    BlockId, FlatBlock, FlatBlockEnd, MatchArm, MatchInfo, StatementLocation, VariableId,
};
use crate::meaning;
use crate::names::Names;
use crate::trail;
use crate::trail::Trail;

verus! {

/// What the end of a block asks of the types is known.
pub open spec fn end_resolves(input: FunctionInput, block_id: BlockId, block: FlatBlock) -> bool {
    let location = meaning::place_of_end(block_id, block);
    match block.end {
        FlatBlockEnd::NotSet => false,
        FlatBlockEnd::Return(vars) => forall|i: int|
            0 <= i < vars@.len() ==> meaning::type_of(input, #[trigger] vars@[i]) is Ok,
        FlatBlockEnd::Panic(_) => false,
        FlatBlockEnd::Goto(_, remapping) => block_laws::remapping_resolves(input, remapping@),
        FlatBlockEnd::Match { info: MatchInfo::Extern(info) } => laws::arguments_resolve(
            input,
            location,
            info.inputs@,
        ),
        FlatBlockEnd::Match { info: MatchInfo::Enum(info) } => {
            &&& meaning::type_of(input, info.input) is Ok
            &&& !input.db.without_match_enum.map().contains_key(
                meaning::type_of(input, info.input)->Ok_0,
            )
        },
    }
}

/// What a block asks of the types, but for the blocks to which it leads, is known.
pub open spec fn block_resolves(input: FunctionInput, block_id: BlockId) -> bool {
    let block = input.lowered.blocks@[block_id.0 as int];
    laws::body_resolves(input, block_id, block) && end_resolves(input, block_id, block)
}

/// What each of the blocks asks of the types is known.
pub open spec fn all_resolve(input: FunctionInput, blocks: Seq<BlockId>) -> bool {
    forall|i: int| 0 <= i < blocks.len() ==> block_resolves(input, #[trigger] blocks[i])
}

/// What blocks in two lists ask is known where it is of each list.
proof fn lemma_all_resolve(input: FunctionInput, first: Seq<BlockId>, second: Seq<BlockId>)
    ensures
        all_resolve(input, first + second) <==> all_resolve(input, first) && all_resolve(
            input,
            second,
        ),
{
    let whole = first + second;
    if all_resolve(input, whole) {
        assert forall|i: int| 0 <= i < first.len() implies block_resolves(
            input,
            #[trigger] first[i],
        ) by {
            assert(whole[i] == first[i]);
        }
        assert forall|i: int| 0 <= i < second.len() implies block_resolves(
            input,
            #[trigger] second[i],
        ) by {
            assert(whole[first.len() + i] == second[i]);
        }
    }
}

/// Where a block has code, its generation succeeds if and only if what the blocks that are
/// generated for it ask is known.
spec fn succeed_iff_resolved(input: FunctionInput, blocks: BlockCode, trail: Trail) -> bool {
    forall|names: Names, block_id: BlockId|
        (#[trigger] blocks(names, block_id)) is Some ==> (blocks(names, block_id)->0.result is Ok
            <==> all_resolve(input, trail(block_id)))
}

/// When the generation of arms succeeds.
proof fn lemma_arms_succeed(
    input: FunctionInput,
    start: Names,
    names: Names,
    arms: Seq<MatchArm>,
    blocks: BlockCode,
    trail: Trail,
)
    requires
        succeed_iff_resolved(input, blocks, trail),
        code::arms_code(start, names, arms, blocks) is Some,
    ensures
        code::arms_code(start, names, arms, blocks)->0.result is Ok <==> all_resolve(
            input,
            trail::arms_trail(arms, trail),
        ),
    decreases arms.len(),
{
    if arms.len() > 0 {
        let before = code::arms_code(start, names, arms.drop_last(), blocks)->0;
        lemma_arms_succeed(input, start, names, arms.drop_last(), blocks, trail);
        lemma_all_resolve(
            input,
            trail::arms_trail(arms.drop_last(), trail),
            trail(arms.last().block_id),
        );
        if before.result is Ok {
            assert(blocks(before.names, arms.last().block_id) is Some);
        }
    }
}

/// When the generation of a match succeeds.
proof fn lemma_match_succeeds(
    input: FunctionInput,
    names: Names,
    location: StatementLocation,
    inputs: Seq<VariableId>,
    libfunc_id: Maybe<LibfuncId>,
    arms: Seq<MatchArm>,
    blocks: BlockCode,
    trail: Trail,
)
    requires
        succeed_iff_resolved(input, blocks, trail),
        code::match_code(input, names, location, inputs, libfunc_id, arms, blocks) is Some,
    ensures
        code::match_code(
            input,
            names,
            location,
            inputs,
            libfunc_id,
            arms,
            blocks,
        )->0.result is Ok <==> {
            &&& laws::arguments_resolve(input, location, inputs)
            &&& libfunc_id is Ok
            &&& all_resolve(input, trail::arms_trail(arms, trail))
        },
{
    let branching = code::branching_code(input, names, location, inputs, libfunc_id, arms);
    laws::arguments_succeed_iff_resolved(input, code::match_names(names, arms), location, inputs);
    if branching.result is Ok {
        lemma_arms_succeed(input, names, branching.names, arms, blocks, trail);
    }
}

/// When the generation of a block succeeds, given when that of the blocks to which it leads does.
proof fn lemma_parts_succeed(
    input: FunctionInput,
    names: Names,
    block_id: BlockId,
    blocks: BlockCode,
    trail: Trail,
)
    requires
        succeed_iff_resolved(input, blocks, trail),
        code::block_parts(input, names, block_id, blocks) is Some,
    ensures
        code::block_parts(input, names, block_id, blocks)->0.result is Ok <==> all_resolve(
            input,
            seq![block_id] + trail::end_trail(
                block_id,
                input.lowered.blocks@[block_id.0 as int].end,
                trail,
            ),
        ),
{
    let block = input.lowered.blocks@[block_id.0 as int];
    let location = meaning::place_of_end(block_id, block);
    let body = code::body_code(input, names, block_id, block);
    let rest = trail::end_trail(block_id, block.end, trail);
    laws::body_succeeds_iff_resolved(input, names, block_id, block);
    lemma_all_resolve(input, seq![block_id], rest);
    assert(seq![block_id][0] == block_id);
    assert(all_resolve(input, seq![block_id]) <==> block_resolves(input, block_id));
    if body.result is Ok {
        match block.end {
            FlatBlockEnd::Return(vars) => {
                laws::return_pushes_and_returns(input, body.names, location, vars@);
            },
            FlatBlockEnd::Goto(target, remapping) => {
                block_laws::remapping_succeeds_iff_resolved(input, body.names, remapping@);
                let pushes = code::remapping_code(input, body.names, remapping@)->0;
                let named = pushes.names.with_block_label(target);
                if pushes.result is Ok && target.0 == block_id.0 + 1 {
                    assert(blocks(named, target) is Some);
                }
            },
            FlatBlockEnd::Match { info: MatchInfo::Extern(info) } => {
                lemma_match_succeeds(
                    input,
                    body.names,
                    location,
                    info.inputs@,
                    Ok(LibfuncId::Function { function: info.function }),
                    info.arms@,
                    blocks,
                    trail,
                );
            },
            FlatBlockEnd::Match { info: MatchInfo::Enum(info) } => {
                lemma_match_succeeds(
                    input,
                    body.names,
                    location,
                    seq![info.input],
                    code::match_enum_libfunc(input, info.input),
                    info.arms@,
                    blocks,
                    trail,
                );
            },
            _ => {},
        }
    }
}

/// When the generation of blocks within a depth succeeds.
proof fn lemma_within_succeeds(input: FunctionInput, depth: nat)
    ensures
        succeed_iff_resolved(
            input,
            code::blocks_within(input, depth),
            trail::trail_within(input, depth),
        ),
    decreases depth,
{
    let blocks = code::blocks_within(input, depth);
    let trail = trail::trail_within(input, depth);
    if depth > 0 {
        let less = (depth - 1) as nat;
        lemma_within_succeeds(input, less);
        assert forall|names: Names, block_id: BlockId|
            (#[trigger] blocks(names, block_id)) is Some implies (blocks(
                names,
                block_id,
            )->0.result is Ok <==> all_resolve(input, trail(block_id))) by {
            lemma_parts_succeed(
                input,
                names,
                block_id,
                code::blocks_within(input, less),
                trail::trail_within(input, less),
            );
        }
    }
}

/// The generation of a block succeeds if and only if what the blocks that are generated for it ask
/// of the types is known.
pub proof fn block_succeeds_iff_resolved(input: FunctionInput, names: Names, block_id: BlockId)
    requires
        code::block_code(input, names, block_id) is Some,
    ensures
        code::block_code(input, names, block_id)->0.result is Ok <==> all_resolve(
            input,
            trail::generated_blocks(input, names, block_id),
        ),
{
    reveal(code::block_code);
    let depth = code::block_depth(input, names, block_id);
    lemma_within_succeeds(input, depth);
    assert(code::blocks_within(input, depth)(names, block_id) is Some);
}

} // verus!
