//! The depth of a block does not matter to its code, as long as it is enough.

use vstd::prelude::*;

use crate::code;
use crate::code::BlockCode;
use crate::context::FunctionInput;
use crate::growth;
use crate::libfunc::{LibfuncId, Maybe};
use crate::lowering::{
    BlockId, FlatBlock, FlatBlockEnd, MatchArm, MatchInfo, StatementLocation, VariableId,
};
use crate::names::Names;

verus! {

/// Where the first says what code a block has, the second says the same.
pub open spec fn agrees(blocks: BlockCode, more: BlockCode) -> bool {
    forall|names: Names, block_id: BlockId|
        (#[trigger] blocks(names, block_id)) is Some ==> more(names, block_id) == blocks(
            names,
            block_id,
        )
}

/// Arms have the same code where more blocks have code.
proof fn lemma_arms_agree(
    start: Names,
    names: Names,
    arms: Seq<MatchArm>,
    blocks: BlockCode,
    more: BlockCode,
)
    requires
        agrees(blocks, more),
        code::arms_code(start, names, arms, blocks) is Some,
    ensures
        code::arms_code(start, names, arms, more) == code::arms_code(start, names, arms, blocks),
    decreases arms.len(),
{
    if arms.len() > 0 {
        lemma_arms_agree(start, names, arms.drop_last(), blocks, more);
        let before = code::arms_code(start, names, arms.drop_last(), blocks)->0;
        if before.result is Ok {
            assert(blocks(before.names, arms.last().block_id) is Some);
        }
    }
}

/// A match has the same code where more blocks have code.
proof fn lemma_match_agrees(
    input: FunctionInput,
    names: Names,
    location: StatementLocation,
    inputs: Seq<VariableId>,
    libfunc_id: Maybe<LibfuncId>,
    arms: Seq<MatchArm>,
    blocks: BlockCode,
    more: BlockCode,
)
    requires
        agrees(blocks, more),
        code::match_code(input, names, location, inputs, libfunc_id, arms, blocks) is Some,
    ensures
        code::match_code(input, names, location, inputs, libfunc_id, arms, more)
            == code::match_code(input, names, location, inputs, libfunc_id, arms, blocks),
{
    let branching = code::branching_code(input, names, location, inputs, libfunc_id, arms);
    if branching.result is Ok {
        lemma_arms_agree(names, branching.names, arms, blocks, more);
    }
}

/// The end of a block has the same code where more blocks have code.
proof fn lemma_end_agrees(
    input: FunctionInput,
    names: Names,
    block_id: BlockId,
    block: FlatBlock,
    blocks: BlockCode,
    more: BlockCode,
)
    requires
        agrees(blocks, more),
        code::end_code(input, names, block_id, block, blocks) is Some,
    ensures
        code::end_code(input, names, block_id, block, more) == code::end_code(
            input,
            names,
            block_id,
            block,
            blocks,
        ),
{
    let location = code::end_location(block_id, block);
    match block.end {
        FlatBlockEnd::Goto(target, remapping) => {
            let pushes = code::remapping_code(input, names, remapping@)->0;
            let named = pushes.names.with_block_label(target);
            if pushes.result is Ok && target.0 == block_id.0 + 1 {
                assert(blocks(named, target) is Some);
            }
        },
        FlatBlockEnd::Match { info: MatchInfo::Extern(info) } => {
            lemma_match_agrees(
                input,
                names,
                location,
                info.inputs@,
                Ok(LibfuncId::Function { function: info.function }),
                info.arms@,
                blocks,
                more,
            );
        },
        FlatBlockEnd::Match { info: MatchInfo::Enum(info) } => {
            lemma_match_agrees(
                input,
                names,
                location,
                seq![info.input],
                code::match_enum_libfunc(input, info.input),
                info.arms@,
                blocks,
                more,
            );
        },
        _ => {},
    }
}

/// A block has the same code where more blocks have code.
proof fn lemma_parts_agree(
    input: FunctionInput,
    names: Names,
    block_id: BlockId,
    blocks: BlockCode,
    more: BlockCode,
)
    requires
        agrees(blocks, more),
        code::block_parts(input, names, block_id, blocks) is Some,
    ensures
        code::block_parts(input, names, block_id, more) == code::block_parts(
            input,
            names,
            block_id,
            blocks,
        ),
{
    let block = input.lowered.blocks@[block_id.0 as int];
    let body = code::body_code(input, names, block_id, block);
    if body.result is Ok {
        lemma_end_agrees(input, body.names, block_id, block, blocks, more);
    }
}

/// A greater depth gives the same code.
pub proof fn lemma_deeper(input: FunctionInput, depth: nat, deeper: nat)
    requires
        depth <= deeper,
    ensures
        agrees(code::blocks_within(input, depth), code::blocks_within(input, deeper)),
    decreases depth,
{
    let blocks = code::blocks_within(input, depth);
    let more = code::blocks_within(input, deeper);
    if depth > 0 {
        lemma_deeper(input, (depth - 1) as nat, (deeper - 1) as nat);
        assert forall|names: Names, block_id: BlockId| (
        #[trigger] blocks(names, block_id)) is Some implies more(names, block_id) == blocks(
            names,
            block_id,
        ) by {
            lemma_parts_agree(
                input,
                names,
                block_id,
                code::blocks_within(input, (depth - 1) as nat),
                code::blocks_within(input, (deeper - 1) as nat),
            );
        }
    }
}

/// Where some depth is enough, there is a least one.
proof fn lemma_least_depth(
    input: FunctionInput,
    names: Names,
    block_id: BlockId,
    depth: nat,
) -> (least: nat)
    requires
        code::block_code_within(input, names, block_id, depth) is Some,
    ensures
        least <= depth,
        code::block_code_within(input, names, block_id, least) is Some,
        forall|less: nat|
            less < least ==> (#[trigger] code::block_code_within(
                input,
                names,
                block_id,
                less,
            )) is None,
    decreases depth,
{
    if forall|less: nat|
        less < depth ==> (#[trigger] code::block_code_within(
            input,
            names,
            block_id,
            less,
        )) is None {
        depth
    } else {
        let less = choose|less: nat|
            less < depth && (#[trigger] code::block_code_within(
                input,
                names,
                block_id,
                less,
            )) is Some;
        lemma_least_depth(input, names, block_id, less)
    }
}

/// Where a depth is enough, the code of the block is the one within that depth.
pub proof fn lemma_block_code(input: FunctionInput, names: Names, block_id: BlockId, depth: nat)
    requires
        code::block_code_within(input, names, block_id, depth) is Some,
    ensures
        code::block_depth(input, names, block_id) <= depth,
        code::block_code(input, names, block_id) == code::block_code_within(
            input,
            names,
            block_id,
            depth,
        ),
{
    reveal(code::block_code);
    reveal(code::block_depth);
    let least = lemma_least_depth(input, names, block_id, depth);
    let chosen = code::block_depth(input, names, block_id);
    assert(code::block_code_within(input, names, block_id, least) is Some);
    assert(code::block_code_within(input, names, block_id, chosen) is Some);
    lemma_deeper(input, chosen, depth);
    assert(code::blocks_within(input, chosen)(names, block_id) is Some);
}

/// The code of a block is that of its body and then that of its end, which leads to blocks that are
/// less deep.
pub proof fn lemma_block_within_parts(input: FunctionInput, names: Names, block_id: BlockId)
    requires
        code::block_code(input, names, block_id) is Some,
    ensures
        code::block_depth(input, names, block_id) > 0,
        code::block_code(input, names, block_id) == code::block_parts(
            input,
            names,
            block_id,
            code::blocks_within(
                input,
                (code::block_depth(input, names, block_id) - 1) as nat,
            ),
        ),
{
    reveal(code::block_code);
}

/// The code of blocks within a depth is the code of the blocks.
proof fn lemma_within_agrees(input: FunctionInput, depth: nat)
    ensures
        agrees(code::blocks_within(input, depth), code::all_blocks(input)),
{
    let blocks = code::blocks_within(input, depth);
    assert forall|names: Names, block_id: BlockId| (
    #[trigger] blocks(names, block_id)) is Some implies code::all_blocks(input)(names, block_id)
        == blocks(names, block_id) by {
        assert(code::block_code_within(input, names, block_id, depth) is Some);
        lemma_block_code(input, names, block_id, depth);
    }
}

/// Arms whose blocks have code have it within some depth.
proof fn lemma_arms_depth(
    input: FunctionInput,
    start: Names,
    names: Names,
    arms: Seq<MatchArm>,
) -> (depth: nat)
    requires
        code::arms_code(start, names, arms, code::all_blocks(input)) is Some,
    ensures
        code::arms_code(start, names, arms, code::blocks_within(input, depth)) is Some,
    decreases arms.len(),
{
    if arms.len() == 0 {
        0
    } else {
        let all = code::all_blocks(input);
        let shallow = lemma_arms_depth(input, start, names, arms.drop_last());
        let last = arms.last().block_id;
        lemma_within_agrees(input, shallow);
        lemma_arms_agree(
            start,
            names,
            arms.drop_last(),
            code::blocks_within(input, shallow),
            all,
        );
        let before = code::arms_code(start, names, arms.drop_last(), all)->0;
        let needed = code::block_depth(input, before.names, last);
        let depth = if shallow < needed { needed } else { shallow };
        lemma_deeper(input, shallow, depth);
        lemma_arms_agree(
            start,
            names,
            arms.drop_last(),
            code::blocks_within(input, shallow),
            code::blocks_within(input, depth),
        );
        if before.result is Ok {
            reveal(code::block_code);
            assert(all(before.names, last) is Some);
            lemma_deeper(input, needed, depth);
            assert(code::blocks_within(input, needed)(before.names, last) is Some);
        }
        depth
    }
}

/// A match whose blocks have code has it within some depth.
proof fn lemma_match_depth(
    input: FunctionInput,
    names: Names,
    location: StatementLocation,
    inputs: Seq<VariableId>,
    libfunc_id: Maybe<LibfuncId>,
    arms: Seq<MatchArm>,
) -> (depth: nat)
    requires
        code::match_code(
            input,
            names,
            location,
            inputs,
            libfunc_id,
            arms,
            code::all_blocks(input),
        ) is Some,
    ensures
        code::match_code(
            input,
            names,
            location,
            inputs,
            libfunc_id,
            arms,
            code::blocks_within(input, depth),
        ) is Some,
{
    let branching = code::branching_code(input, names, location, inputs, libfunc_id, arms);
    if branching.result is Ok {
        lemma_arms_depth(input, names, branching.names, arms)
    } else {
        0
    }
}

/// A block whose end leads to blocks that have code has code within some depth.
proof fn lemma_parts_depth(input: FunctionInput, names: Names, block_id: BlockId) -> (depth: nat)
    requires
        code::block_parts(input, names, block_id, code::all_blocks(input)) is Some,
    ensures
        code::block_parts(input, names, block_id, code::blocks_within(input, depth)) is Some,
{
    let block = input.lowered.blocks@[block_id.0 as int];
    let body = code::body_code(input, names, block_id, block);
    let location = code::end_location(block_id, block);
    if body.result is Err {
        0
    } else {
        match block.end {
            FlatBlockEnd::Goto(target, remapping) => {
                let pushes = code::remapping_code(input, body.names, remapping@)->0;
                let named = pushes.names.with_block_label(target);
                let depth = code::block_depth(input, named, target);
                if pushes.result is Ok && target.0 == block_id.0 + 1 {
                    reveal(code::block_code);
                    assert(code::all_blocks(input)(named, target) is Some);
                    assert(code::blocks_within(input, depth)(named, target) is Some);
                }
                depth
            },
            FlatBlockEnd::Match { info: MatchInfo::Extern(info) } => lemma_match_depth(
                input,
                body.names,
                location,
                info.inputs@,
                Ok(LibfuncId::Function { function: info.function }),
                info.arms@,
            ),
            FlatBlockEnd::Match { info: MatchInfo::Enum(info) } => lemma_match_depth(
                input,
                body.names,
                location,
                seq![info.input],
                code::match_enum_libfunc(input, info.input),
                info.arms@,
            ),
            _ => 0,
        }
    }
}

/// The code of a block is that of its body, and then that of its end, in which the blocks to which
/// the end leads have their code.
pub proof fn block_code_is_its_parts(input: FunctionInput, names: Names, block_id: BlockId)
    ensures
        code::block_code(input, names, block_id) == code::block_parts(
            input,
            names,
            block_id,
            code::all_blocks(input),
        ),
{
    let all = code::all_blocks(input);
    if code::block_code(input, names, block_id) is Some {
        let less = (code::block_depth(input, names, block_id) - 1) as nat;
        lemma_block_within_parts(input, names, block_id);
        lemma_within_agrees(input, less);
        lemma_parts_agree(input, names, block_id, code::blocks_within(input, less), all);
    } else if code::block_parts(input, names, block_id, all) is Some {
        let less = lemma_parts_depth(input, names, block_id);
        assert(code::block_code_within(input, names, block_id, less + 1) is Some);
        lemma_block_code(input, names, block_id, less + 1);
    }
}

/// The code of one more arm is its head and the code of its block, which is less deep than the
/// match, after the code of the arms before it.
pub proof fn lemma_next_arm(
    input: FunctionInput,
    start: Names,
    names: Names,
    arms: Seq<MatchArm>,
    depth: nat,
    index: int,
)
    requires
        0 <= index < arms.len(),
        code::arms_code(start, names, arms, code::blocks_within(input, depth)) is Some,
        code::arms_code(
            start,
            names,
            arms.take(index),
            code::blocks_within(input, depth),
        ) is Some,
        code::arms_code(
            start,
            names,
            arms.take(index),
            code::blocks_within(input, depth),
        )->0.result is Ok,
    ensures
        ({
            let blocks = code::blocks_within(input, depth);
            let step = code::arms_code(start, names, arms, blocks)->0;
            let before = code::arms_code(start, names, arms.take(index), blocks)->0;
            let after = code::arms_code(start, names, arms.take(index + 1), blocks);
            let block = code::block_code(input, before.names, arms[index].block_id);
            &&& after is Some
            &&& block is Some
            &&& code::block_depth(input, before.names, arms[index].block_id) <= depth
            &&& after->0.names == block->0.names
            &&& after->0.result == block->0.result
            &&& after->0.statements == before.statements + code::arm_head(start, index)
                + block->0.statements
            &&& step.names.fits() ==> block->0.names.fits()
            &&& block->0.result is Err ==> step == after->0
        }),
{
    let before = code::arms_code(
        start,
        names,
        arms.take(index),
        code::blocks_within(input, depth),
    )->0;
    growth::lemma_blocks_within(input, depth);
    growth::lemma_one_more_arm(start, names, arms, code::blocks_within(input, depth), index);
    lemma_block_code(input, before.names, arms[index].block_id, depth);
}

} // verus!
