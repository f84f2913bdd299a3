//! Which blocks have code.

use vstd::prelude::*;

use crate::block_laws;
use crate::code;
use crate::context::FunctionInput;
use crate::depth;
use crate::laws;
use crate::libfunc::{LibfuncId, Maybe};
use crate::lowering::{
    BlockId, FlatBlock, FlatBlockEnd, MatchArm, MatchInfo, StatementLocation, VariableId,
};
use crate::meaning;
use crate::names::Names;
use crate::outcome_laws;

verus! {

/// No entry to which the pushes of a remapping come has two different types.
pub open spec fn remapping_consistent(
    input: FunctionInput,
    entries: Seq<(VariableId, VariableId)>,
) -> bool {
    forall|i: int|
        0 <= i < entries.len() && block_laws::remapping_resolves(input, entries.take(i))
            && meaning::type_of(input, (#[trigger] entries[i]).0) is Ok && meaning::type_of(
            input,
            entries[i].1,
        ) is Ok ==> meaning::type_of(input, entries[i].0) == meaning::type_of(input, entries[i].1)
}

/// A remapping has code if and only if it is consistent.
pub proof fn remapping_has_code_iff_consistent(
    input: FunctionInput,
    names: Names,
    entries: Seq<(VariableId, VariableId)>,
)
    ensures
        code::remapped_values(input, names, entries) is Some <==> remapping_consistent(
            input,
            entries,
        ),
    decreases entries.len(),
{
    if entries.len() > 0 {
        let shorter = entries.drop_last();
        let last = entries.len() - 1;
        remapping_has_code_iff_consistent(input, names, shorter);
        block_laws::remapping_succeeds_iff_resolved(input, names, shorter);
        assert(entries.take(last) == shorter);
        assert(entries[last] == entries.last());
        assert(forall|i: int|
            0 <= i < last ==> entries.take(i) == #[trigger] shorter.take(i) && shorter[i]
                == entries[i]);
        if remapping_consistent(input, entries) {
            assert forall|i: int|
                0 <= i < shorter.len() && block_laws::remapping_resolves(input, shorter.take(i))
                    && meaning::type_of(input, (#[trigger] shorter[i]).0) is Ok && meaning::type_of(
                    input,
                    shorter[i].1,
                ) is Ok implies meaning::type_of(input, shorter[i].0) == meaning::type_of(
                input,
                shorter[i].1,
            ) by {
                assert(entries.take(i) == shorter.take(i));
                assert(entries[i] == shorter[i]);
            }
        } else if remapping_consistent(input, shorter) {
            let i = choose|i: int|
                0 <= i < entries.len() && block_laws::remapping_resolves(input, entries.take(i))
                    && meaning::type_of(input, (#[trigger] entries[i]).0) is Ok && meaning::type_of(
                    input,
                    entries[i].1,
                ) is Ok && meaning::type_of(input, entries[i].0)
                    != meaning::type_of(input, entries[i].1);
            if i < last {
                assert(entries.take(i) == shorter.take(i));
                assert(entries[i] == shorter[i]);
            }
        }
    }
}

/// A block has code.
pub open spec fn has_code(input: FunctionInput, block_id: BlockId) -> bool {
    code::block_code(input, Names::initial(), block_id) is Some
}

/// The generation of a block stops on a type that is not known.
pub open spec fn stops(input: FunctionInput, block_id: BlockId) -> bool {
    has_code(input, block_id) && code::block_code(
        input,
        Names::initial(),
        block_id,
    )->0.result is Err
}

/// The generation comes to the arm: it does not stop in one before it.
pub open spec fn comes_to_arm(input: FunctionInput, arms: Seq<MatchArm>, index: int) -> bool {
    forall|j: int| 0 <= j < index ==> !stops(input, (#[trigger] arms[j]).block_id)
}

/// How far a block is from the blocks that lead no further.
pub type Ranking = spec_fn(BlockId) -> nat;

/// The next block is one of the reached ones and ranks below.
pub open spec fn goes_down(
    reached: Set<BlockId>,
    rank: Ranking,
    block_id: BlockId,
    next: BlockId,
) -> bool {
    reached.contains(next) && rank(next) < rank(block_id)
}

/// The arms of a match to which the generation comes are reached blocks that rank below.
pub open spec fn arms_go_down(
    input: FunctionInput,
    reached: Set<BlockId>,
    rank: Ranking,
    block_id: BlockId,
    arms: Seq<MatchArm>,
) -> bool {
    forall|i: int|
        0 <= i < arms.len() && comes_to_arm(input, arms, i) ==> goes_down(
            reached,
            rank,
            block_id,
            (#[trigger] arms[i]).block_id,
        )
}

/// The end of a block is in order: it is set and does not panic, its remapping is consistent, its
/// match has arms, and where what it asks of the types is known, the blocks that come next are
/// reached blocks that rank below. A block to which there is a jump does not count.
pub open spec fn end_in_order(
    input: FunctionInput,
    reached: Set<BlockId>,
    rank: Ranking,
    block_id: BlockId,
    block: FlatBlock,
) -> bool {
    let resolves = outcome_laws::end_resolves(input, block_id, block);
    match block.end {
        FlatBlockEnd::NotSet => false,
        FlatBlockEnd::Return(_) => true,
        FlatBlockEnd::Panic(_) => false,
        FlatBlockEnd::Goto(target, remapping) => {
            &&& remapping_consistent(input, remapping@)
            &&& resolves && target.0 == block_id.0 + 1 ==> goes_down(
                reached,
                rank,
                block_id,
                target,
            )
        },
        FlatBlockEnd::Match { info: MatchInfo::Extern(info) } => info.arms@.len() > 0 && (resolves
            ==> arms_go_down(input, reached, rank, block_id, info.arms@)),
        FlatBlockEnd::Match { info: MatchInfo::Enum(info) } => info.arms@.len() > 0 && (resolves
            ==> arms_go_down(input, reached, rank, block_id, info.arms@)),
    }
}

/// The reached blocks are there, and the end of each to whose end the generation comes is in order.
pub open spec fn all_in_order(
    input: FunctionInput,
    reached: Set<BlockId>,
    rank: Ranking,
) -> bool {
    forall|b: BlockId| #[trigger]
        reached.contains(b) ==> {
            let block = input.lowered.blocks@[b.0 as int];
            &&& b.0 < input.lowered.blocks@.len()
            &&& laws::body_resolves(input, b, block) ==> end_in_order(
                input,
                reached,
                rank,
                b,
                block,
            )
        }
}

/// A block that has code within a depth has code, and comes out the same way whatever names were
/// given.
proof fn lemma_has_code(input: FunctionInput, names: Names, block_id: BlockId, depth: nat)
    requires
        code::blocks_within(input, depth)(names, block_id) is Some,
    ensures
        has_code(input, block_id),
        code::block_depth(input, Names::initial(), block_id) <= depth,
        code::blocks_within(input, depth)(names, block_id)->0.result is Err <==> stops(
            input,
            block_id,
        ),
{
    let blocks = code::blocks_within(input, depth);
    block_laws::lemma_within_same_outcome(input, depth);
    assert(block_laws::same_outcome(
        blocks(names, block_id),
        blocks(Names::initial(), block_id),
    ));
    depth::lemma_block_code(input, Names::initial(), block_id, depth);
}

/// The generation of arms that have code succeeds if and only if it stops in none.
proof fn lemma_arms_stop(
    input: FunctionInput,
    start: Names,
    names: Names,
    arms: Seq<MatchArm>,
    depth: nat,
)
    requires
        code::arms_code(start, names, arms, code::blocks_within(input, depth)) is Some,
    ensures
        code::arms_code(start, names, arms, code::blocks_within(input, depth))->0.result is Ok
            <==> comes_to_arm(input, arms, arms.len() as int),
    decreases arms.len(),
{
    if arms.len() > 0 {
        let shorter = arms.drop_last();
        let last = arms.last().block_id;
        let before = code::arms_code(start, names, shorter, code::blocks_within(input, depth))->0;
        lemma_arms_stop(input, start, names, shorter, depth);
        assert(forall|j: int| 0 <= j < shorter.len() ==> #[trigger] shorter[j] == arms[j]);
        assert(arms[arms.len() - 1].block_id == last);
        assert(comes_to_arm(input, arms, arms.len() as int) <==> comes_to_arm(
            input,
            shorter,
            shorter.len() as int,
        ) && !stops(input, last)) by {
            if comes_to_arm(input, arms, arms.len() as int) {
                assert forall|j: int| 0 <= j < shorter.len() implies !stops(
                    input,
                    (#[trigger] shorter[j]).block_id,
                ) by {
                    assert(shorter[j] == arms[j]);
                }
            } else if comes_to_arm(input, shorter, shorter.len() as int) {
                let j = choose|j: int|
                    0 <= j < arms.len() && stops(input, (#[trigger] arms[j]).block_id);
                if j < shorter.len() {
                    assert(shorter[j] == arms[j]);
                }
            }
        }
        if before.result is Ok {
            lemma_has_code(input, before.names, last, depth);
        }
    }
}

/// The generation comes to an arm of the first ones as it does to that of all.
proof fn lemma_comes_to_arm(input: FunctionInput, arms: Seq<MatchArm>, index: int)
    requires
        0 <= index < arms.len(),
    ensures
        comes_to_arm(input, arms, index) <==> comes_to_arm(
            input,
            arms.take(index),
            arms.take(index).len() as int,
        ),
        index < arms.len() - 1 ==> (comes_to_arm(input, arms, index) <==> comes_to_arm(
            input,
            arms.drop_last(),
            index,
        )),
{
    assert(forall|j: int| 0 <= j < index ==> #[trigger] arms.take(index)[j] == arms[j]);
    assert(forall|j: int|
        0 <= j < arms.len() - 1 ==> #[trigger] arms.drop_last()[j] == arms[j]);
    if comes_to_arm(input, arms, index) {
        assert forall|j: int| 0 <= j < index implies !stops(
            input,
            (#[trigger] arms.take(index)[j]).block_id,
        ) by {
            assert(arms.take(index)[j] == arms[j]);
        }
        assert forall|j: int| 0 <= j < index && index < arms.len() - 1 implies !stops(
            input,
            (#[trigger] arms.drop_last()[j]).block_id,
        ) by {
            assert(arms.drop_last()[j] == arms[j]);
        }
    } else {
        let j = choose|j: int| 0 <= j < index && stops(input, (#[trigger] arms[j]).block_id);
        assert(arms.take(index)[j] == arms[j]);
        if index < arms.len() - 1 {
            assert(arms.drop_last()[j] == arms[j]);
        }
    }
}

/// The reached blocks that rank below the depth have code within it.
spec fn covers(
    input: FunctionInput,
    reached: Set<BlockId>,
    rank: Ranking,
    depth: nat,
) -> bool {
    forall|names: Names, b: BlockId|
        reached.contains(b) && rank(b) < depth ==> (#[trigger] code::blocks_within(input, depth)(
            names,
            b,
        )) is Some
}

/// Arms that go down to blocks that have code have code.
proof fn lemma_arms_covered(
    input: FunctionInput,
    start: Names,
    names: Names,
    arms: Seq<MatchArm>,
    reached: Set<BlockId>,
    rank: Ranking,
    block_id: BlockId,
    depth: nat,
)
    requires
        covers(input, reached, rank, depth),
        rank(block_id) <= depth,
        arms_go_down(input, reached, rank, block_id, arms),
    ensures
        code::arms_code(start, names, arms, code::blocks_within(input, depth)) is Some,
    decreases arms.len(),
{
    if arms.len() > 0 {
        let shorter = arms.drop_last();
        let last = arms.len() - 1;
        let blocks = code::blocks_within(input, depth);
        assert forall|i: int|
            0 <= i < shorter.len() && comes_to_arm(input, shorter, i) implies goes_down(
            reached,
            rank,
            block_id,
            (#[trigger] shorter[i]).block_id,
        ) by {
            lemma_comes_to_arm(input, arms, i);
            assert(shorter[i] == arms[i]);
        }
        lemma_arms_covered(input, start, names, shorter, reached, rank, block_id, depth);
        let before = code::arms_code(start, names, shorter, blocks)->0;
        lemma_arms_stop(input, start, names, shorter, depth);
        if before.result is Ok {
            assert(arms.take(last) == shorter);
            lemma_comes_to_arm(input, arms, last);
            assert(goes_down(reached, rank, block_id, arms[last].block_id));
            assert(blocks(before.names, arms.last().block_id) is Some);
        }
    }
}

/// A match whose arms go down to blocks that have code has code.
proof fn lemma_match_covered(
    input: FunctionInput,
    names: Names,
    location: StatementLocation,
    inputs: Seq<VariableId>,
    libfunc_id: Maybe<LibfuncId>,
    arms: Seq<MatchArm>,
    reached: Set<BlockId>,
    rank: Ranking,
    block_id: BlockId,
    depth: nat,
)
    requires
        covers(input, reached, rank, depth),
        rank(block_id) <= depth,
        arms.len() > 0,
        laws::arguments_resolve(input, location, inputs) && libfunc_id is Ok ==> arms_go_down(
            input,
            reached,
            rank,
            block_id,
            arms,
        ),
    ensures
        code::match_code(
            input,
            names,
            location,
            inputs,
            libfunc_id,
            arms,
            code::blocks_within(input, depth),
        ) is Some,
{
    let branching = code::branching_code(input, names, location, inputs, libfunc_id, arms);
    laws::arguments_succeed_iff_resolved(input, code::match_names(names, arms), location, inputs);
    if branching.result is Ok {
        lemma_arms_covered(
            input,
            names,
            branching.names,
            arms,
            reached,
            rank,
            block_id,
            depth,
        );
    }
}

/// A reached block that ranks no higher than the depth within which those below it have code has
/// code.
proof fn lemma_parts_covered(
    input: FunctionInput,
    names: Names,
    block_id: BlockId,
    reached: Set<BlockId>,
    rank: Ranking,
    depth: nat,
)
    requires
        all_in_order(input, reached, rank),
        covers(input, reached, rank, depth),
        reached.contains(block_id),
        rank(block_id) <= depth,
    ensures
        code::block_parts(input, names, block_id, code::blocks_within(input, depth)) is Some,
{
    let block = input.lowered.blocks@[block_id.0 as int];
    let blocks = code::blocks_within(input, depth);
    let body = code::body_code(input, names, block_id, block);
    let location = meaning::place_of_end(block_id, block);
    laws::body_succeeds_iff_resolved(input, names, block_id, block);
    if body.result is Ok {
        assert(end_in_order(input, reached, rank, block_id, block));
        match block.end {
            FlatBlockEnd::Goto(target, remapping) => {
                remapping_has_code_iff_consistent(input, body.names, remapping@);
                block_laws::remapping_succeeds_iff_resolved(input, body.names, remapping@);
                let pushes = code::remapping_code(input, body.names, remapping@)->0;
                if pushes.result is Ok && target.0 == block_id.0 + 1 {
                    assert(goes_down(reached, rank, block_id, target));
                    assert(blocks(pushes.names.with_block_label(target), target) is Some);
                }
            },
            FlatBlockEnd::Match { info: MatchInfo::Extern(info) } => {
                lemma_match_covered(
                    input,
                    body.names,
                    location,
                    info.inputs@,
                    Ok(LibfuncId::Function { function: info.function }),
                    info.arms@,
                    reached,
                    rank,
                    block_id,
                    depth,
                );
            },
            FlatBlockEnd::Match { info: MatchInfo::Enum(info) } => {
                lemma_match_covered(
                    input,
                    body.names,
                    location,
                    seq![info.input],
                    code::match_enum_libfunc(input, info.input),
                    info.arms@,
                    reached,
                    rank,
                    block_id,
                    depth,
                );
            },
            _ => {},
        }
    }
}

/// Reached blocks have code within a depth above their rank.
proof fn lemma_covered(input: FunctionInput, reached: Set<BlockId>, rank: Ranking, depth: nat)
    requires
        all_in_order(input, reached, rank),
    ensures
        covers(input, reached, rank, depth),
    decreases depth,
{
    if depth > 0 {
        let less = (depth - 1) as nat;
        lemma_covered(input, reached, rank, less);
        assert forall|names: Names, b: BlockId|
            reached.contains(b) && rank(b) < depth implies (#[trigger] code::blocks_within(
            input,
            depth,
        )(names, b)) is Some by {
            lemma_parts_covered(input, names, b, reached, rank, less);
        }
    }
}

/// Where the reached blocks are in order and can be ranked, so that no way through arms and blocks
/// that follow comes back to where it was, each reached block has code, whatever names were given.
pub proof fn reached_blocks_have_code(
    input: FunctionInput,
    names: Names,
    block_id: BlockId,
    reached: Set<BlockId>,
    rank: Ranking,
)
    requires
        all_in_order(input, reached, rank),
        reached.contains(block_id),
    ensures
        code::block_code(input, names, block_id) is Some,
{
    let depth = rank(block_id) + 1;
    lemma_covered(input, reached, rank, depth);
    assert(code::blocks_within(input, depth)(names, block_id) is Some);
    depth::lemma_block_code(input, names, block_id, depth);
}

/// The blocks that have code.
pub open spec fn coded_blocks(input: FunctionInput) -> Set<BlockId> {
    Set::new(|b: BlockId| has_code(input, b))
}

/// The depth of each block.
pub open spec fn depth_ranking(input: FunctionInput) -> Ranking {
    |b: BlockId| code::block_depth(input, Names::initial(), b)
}

/// Arms that have code within a depth have it only where those to which the generation comes do.
proof fn lemma_arms_coded(
    input: FunctionInput,
    start: Names,
    names: Names,
    arms: Seq<MatchArm>,
    block_id: BlockId,
    depth: nat,
)
    requires
        code::arms_code(start, names, arms, code::blocks_within(input, depth)) is Some,
        depth < code::block_depth(input, Names::initial(), block_id),
    ensures
        arms_go_down(input, coded_blocks(input), depth_ranking(input), block_id, arms),
    decreases arms.len(),
{
    if arms.len() > 0 {
        let shorter = arms.drop_last();
        let last = arms.len() - 1;
        let reached = coded_blocks(input);
        let rank = depth_ranking(input);
        let before = code::arms_code(start, names, shorter, code::blocks_within(input, depth))->0;
        lemma_arms_coded(input, start, names, shorter, block_id, depth);
        lemma_arms_stop(input, start, names, shorter, depth);
        assert forall|i: int|
            0 <= i < arms.len() && comes_to_arm(input, arms, i) implies goes_down(
            reached,
            rank,
            block_id,
            (#[trigger] arms[i]).block_id,
        ) by {
            lemma_comes_to_arm(input, arms, i);
            if i < last {
                assert(shorter[i] == arms[i]);
            } else {
                assert(arms.take(last) == shorter);
                lemma_has_code(input, before.names, arms.last().block_id, depth);
            }
        }
    }
}

/// The blocks that have code are in order, ranked by their depth.
pub proof fn blocks_with_code_are_in_order(input: FunctionInput)
    ensures
        all_in_order(input, coded_blocks(input), depth_ranking(input)),
{
    let reached = coded_blocks(input);
    let rank = depth_ranking(input);
    let names = Names::initial();
    assert forall|b: BlockId| #[trigger] reached.contains(b) implies {
        let block = input.lowered.blocks@[b.0 as int];
        &&& b.0 < input.lowered.blocks@.len()
        &&& laws::body_resolves(input, b, block) ==> end_in_order(input, reached, rank, b, block)
    } by {
        let block = input.lowered.blocks@[b.0 as int];
        depth::lemma_block_within_parts(input, names, b);
        let less = (code::block_depth(input, names, b) - 1) as nat;
        let blocks = code::blocks_within(input, less);
        let body = code::body_code(input, names, b, block);
        let location = meaning::place_of_end(b, block);
        laws::body_succeeds_iff_resolved(input, names, b, block);
        if body.result is Ok {
            match block.end {
                FlatBlockEnd::Goto(target, remapping) => {
                    remapping_has_code_iff_consistent(input, body.names, remapping@);
                    block_laws::remapping_succeeds_iff_resolved(input, body.names, remapping@);
                    let pushes = code::remapping_code(input, body.names, remapping@)->0;
                    if pushes.result is Ok && target.0 == b.0 + 1 {
                        lemma_has_code(
                            input,
                            pushes.names.with_block_label(target),
                            target,
                            less,
                        );
                    }
                },
                FlatBlockEnd::Match { info: MatchInfo::Extern(info) } => {
                    let branching = code::branching_code(
                        input,
                        body.names,
                        location,
                        info.inputs@,
                        Ok(LibfuncId::Function { function: info.function }),
                        info.arms@,
                    );
                    laws::arguments_succeed_iff_resolved(
                        input,
                        code::match_names(body.names, info.arms@),
                        location,
                        info.inputs@,
                    );
                    if branching.result is Ok {
                        lemma_arms_coded(
                            input,
                            body.names,
                            branching.names,
                            info.arms@,
                            b,
                            less,
                        );
                    }
                },
                FlatBlockEnd::Match { info: MatchInfo::Enum(info) } => {
                    let branching = code::branching_code(
                        input,
                        body.names,
                        location,
                        seq![info.input],
                        code::match_enum_libfunc(input, info.input),
                        info.arms@,
                    );
                    laws::arguments_succeed_iff_resolved(
                        input,
                        code::match_names(body.names, info.arms@),
                        location,
                        seq![info.input],
                    );
                    if branching.result is Ok {
                        lemma_arms_coded(
                            input,
                            body.names,
                            branching.names,
                            info.arms@,
                            b,
                            less,
                        );
                    }
                },
                _ => {},
            }
        }
    }
}

/// A block has code, whatever names were given, if and only if it is one of a set of blocks that
/// are in order in some ranking.
pub proof fn block_has_code_iff_in_order(input: FunctionInput, names: Names, block_id: BlockId)
    ensures
        code::block_code(input, names, block_id) is Some <==> exists|
            reached: Set<BlockId>,
            rank: Ranking,
        |
            #![trigger all_in_order(input, reached, rank)]
            all_in_order(input, reached, rank) && reached.contains(block_id),
{
    if code::block_code(input, names, block_id) is Some {
        block_laws::outcome_does_not_depend_on_names(input, names, Names::initial(), block_id);
        blocks_with_code_are_in_order(input);
        assert(coded_blocks(input).contains(block_id));
    } else if exists|reached: Set<BlockId>, rank: Ranking|
        #![trigger all_in_order(input, reached, rank)]
        all_in_order(input, reached, rank) && reached.contains(block_id) {
        let (reached, rank) = choose|reached: Set<BlockId>, rank: Ranking|
            #![trigger all_in_order(input, reached, rank)]
            all_in_order(input, reached, rank) && reached.contains(block_id);
        reached_blocks_have_code(input, names, block_id, reached, rank);
    }
}

/// All blocks lead on only to later blocks: their ends are set and do not panic, their remappings
/// are consistent, and their matches have arms and lead to later blocks.
pub open spec fn all_lead_on(input: FunctionInput) -> bool {
    let count = input.lowered.blocks@.len();
    forall|b: usize|
        b < count ==> match (#[trigger] input.lowered.blocks@[b as int]).end {
            FlatBlockEnd::NotSet => false,
            FlatBlockEnd::Return(_) => true,
            FlatBlockEnd::Panic(_) => false,
            FlatBlockEnd::Goto(target, remapping) => {
                &&& target.0 == b + 1 ==> target.0 < count
                &&& remapping_consistent(input, remapping@)
            },
            FlatBlockEnd::Match { info: MatchInfo::Extern(info) } => info.arms@.len() > 0
                && forall|i: int|
                0 <= i < info.arms@.len() ==> b < (#[trigger] info.arms@[i]).block_id.0 < count,
            FlatBlockEnd::Match { info: MatchInfo::Enum(info) } => info.arms@.len() > 0
                && forall|i: int|
                0 <= i < info.arms@.len() ==> b < (#[trigger] info.arms@[i]).block_id.0 < count,
        }
}

/// Where all blocks lead on only to later blocks, every block has code.
pub proof fn blocks_that_lead_on_have_code(input: FunctionInput, names: Names, block_id: BlockId)
    requires
        all_lead_on(input),
        block_id.0 < input.lowered.blocks@.len(),
    ensures
        code::block_code(input, names, block_id) is Some,
{
    let count = input.lowered.blocks@.len();
    let reached = Set::new(|b: BlockId| b.0 < count);
    let rank: Ranking = |b: BlockId| (count - b.0) as nat;
    assert forall|b: BlockId| #[trigger] reached.contains(b) implies {
        let block = input.lowered.blocks@[b.0 as int];
        &&& b.0 < count
        &&& laws::body_resolves(input, b, block) ==> end_in_order(input, reached, rank, b, block)
    } by {
        let block = input.lowered.blocks@[b.0 as int];
        assert(end_in_order(input, reached, rank, b, block));
    }
    reached_blocks_have_code(input, names, block_id, reached, rank);
}

} // verus!
