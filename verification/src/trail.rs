//! Which blocks are generated for a block.

use vstd::prelude::*;

use crate::code;
use crate::context::FunctionInput;
use crate::lowering::{BlockId, FlatBlockEnd, MatchArm, MatchInfo};
use crate::names::Names;

verus! {

/// The blocks that are generated for a block: itself, and then those that are generated for the
/// blocks to which its end leads.
pub type Trail = spec_fn(BlockId) -> Seq<BlockId>;

/// The blocks that are generated for the arms of a match.
pub open spec fn arms_trail(arms: Seq<MatchArm>, trail: Trail) -> Seq<BlockId>
    decreases arms.len(),
{
    if arms.len() == 0 {
        Seq::empty()
    } else {
        arms_trail(arms.drop_last(), trail) + trail(arms.last().block_id)
    }
}

/// The blocks that are generated for the end of a block.
pub open spec fn end_trail(block_id: BlockId, end: FlatBlockEnd, trail: Trail) -> Seq<BlockId> {
    match end {
        FlatBlockEnd::Goto(target, _) => if target.0 == block_id.0 + 1 {
            trail(target)
        } else {
            Seq::empty()
        },
        FlatBlockEnd::Match { info: MatchInfo::Extern(info) } => arms_trail(info.arms@, trail),
        FlatBlockEnd::Match { info: MatchInfo::Enum(info) } => arms_trail(info.arms@, trail),
        _ => Seq::empty(),
    }
}

/// The blocks that are generated for a block, down to a depth.
pub open spec fn trail_within(input: FunctionInput, depth: nat) -> Trail
    decreases depth,
{
    if depth == 0 {
        |block_id: BlockId| Seq::empty()
    } else {
        |block_id: BlockId|
            {
                if block_id.0 < input.lowered.blocks@.len() {
                    seq![block_id] + end_trail(
                        block_id,
                        input.lowered.blocks@[block_id.0 as int].end,
                        trail_within(input, (depth - 1) as nat),
                    )
                } else {
                    Seq::empty()
                }
            }
    }
}

/// The blocks that are generated for a block, one after the other.
pub open spec fn generated_blocks(
    input: FunctionInput,
    names: Names,
    block_id: BlockId,
) -> Seq<BlockId> {
    trail_within(input, code::block_depth(input, names, block_id))(block_id)
}

} // verus!
