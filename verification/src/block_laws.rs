//! What holds of the generated code of all blocks.

use vstd::prelude::*;

use crate::code;
use crate::code::{BlockCode, Emitted};
use crate::context::FunctionInput;
use crate::depth;
use crate::growth;
use crate::laws;
use crate::libfunc::{LibfuncId, Maybe};
use crate::lifetime::SierraGenVar;
use crate::lowering::{
    BlockId, FlatBlockEnd, MatchArm, MatchInfo, StatementLocation, VariableId,
};
use crate::meaning;
use crate::names;
use crate::names::Names;
use crate::ordered_map;
use crate::pre_sierra::{LabelId, PushValue, StatementView};

verus! {

broadcast use crate::names::lemma_extends_reflexive;

/// Both variables of each entry have a Sierra type, and it is the same.
pub open spec fn remapping_resolves(
    input: FunctionInput,
    entries: Seq<(VariableId, VariableId)>,
) -> bool {
    forall|i: int|
        0 <= i < entries.len() ==> {
            &&& meaning::type_of(input, (#[trigger] entries[i]).0) is Ok
            &&& meaning::type_of(input, entries[i].1) == meaning::type_of(input, entries[i].0)
        }
}

/// The values of a remapping can be pushed if and only if both variables of each entry have a
/// Sierra type, and the same one.
pub proof fn remapping_succeeds_iff_resolved(
    input: FunctionInput,
    names: Names,
    entries: Seq<(VariableId, VariableId)>,
)
    ensures
        (code::remapped_values(input, names, entries) is Some && code::remapped_values(
            input,
            names,
            entries,
        )->0.result is Ok) <==> remapping_resolves(input, entries),
    decreases entries.len(),
{
    if entries.len() > 0 {
        let shorter = entries.drop_last();
        let last = entries.len() - 1;
        remapping_succeeds_iff_resolved(input, names, shorter);
        if remapping_resolves(input, entries) {
            assert forall|i: int| 0 <= i < shorter.len() implies {
                &&& meaning::type_of(input, (#[trigger] shorter[i]).0) is Ok
                &&& meaning::type_of(input, shorter[i].1) == meaning::type_of(input, shorter[i].0)
            } by {
                assert(meaning::type_of(input, entries[i].0) is Ok);
            }
            assert(meaning::type_of(input, entries[last].0) is Ok);
        } else if code::remapped_values(input, names, entries) is Some && code::remapped_values(
            input,
            names,
            entries,
        )->0.result is Ok {
            assert forall|i: int| 0 <= i < entries.len() implies {
                &&& meaning::type_of(input, (#[trigger] entries[i]).0) is Ok
                &&& meaning::type_of(input, entries[i].1) == meaning::type_of(input, entries[i].0)
            } by {
                if i < shorter.len() {
                    assert(meaning::type_of(input, shorter[i].0) is Ok);
                }
            }
        }
    }
}

/// A push is that of an entry of a remapping: from the Sierra variable of the one variable to that
/// of the other, with their type, and not as a copy.
pub open spec fn is_remapped(
    push: PushValue,
    input: FunctionInput,
    names: Names,
    entry: (VariableId, VariableId),
) -> bool {
    let output = SierraGenVar::LoweringVar(entry.0);
    let inner_output = SierraGenVar::LoweringVar(entry.1);
    &&& names.variables.contains_key(output)
    &&& names.variables.contains_key(inner_output)
    &&& push.var == names.variables[inner_output]
    &&& push.var_on_stack == names.variables[output]
    &&& push.ty == meaning::type_of(input, entry.0)->Ok_0
    &&& !push.dup
}

/// There is one push for each entry of a remapping, in order.
pub proof fn remapping_is_in_order(
    input: FunctionInput,
    names: Names,
    entries: Seq<(VariableId, VariableId)>,
)
    requires
        code::remapped_values(input, names, entries) is Some,
        code::remapped_values(input, names, entries)->0.result is Ok,
    ensures
        ({
            let step = code::remapped_values(input, names, entries)->0;
            &&& step.value().len() == entries.len()
            &&& forall|i: int|
                0 <= i < entries.len() ==> is_remapped(
                    #[trigger] step.value()[i],
                    input,
                    step.names,
                    entries[i],
                )
        }),
    decreases entries.len(),
{
    if entries.len() > 0 {
        let shorter = entries.drop_last();
        let before = code::remapped_values(input, names, shorter)->0;
        let step = code::remapped_values(input, names, entries)->0;
        let output = SierraGenVar::LoweringVar(entries.last().0);
        let inner_output = SierraGenVar::LoweringVar(entries.last().1);
        let named = before.names.with_variable(inner_output);
        remapping_is_in_order(input, names, shorter);
        names::lemma_with_variable(before.names, inner_output);
        names::lemma_with_variable(named, output);
        names::lemma_extends_variable(named, step.names, inner_output);
        names::lemma_extends_transitive(before.names, named, step.names);
        assert forall|i: int| 0 <= i < entries.len() implies is_remapped(
            #[trigger] step.value()[i],
            input,
            step.names,
            entries[i],
        ) by {
            if i < shorter.len() {
                assert(before.value()[i] == step.value()[i]);
                assert(is_remapped(before.value()[i], input, before.names, shorter[i]));
                names::lemma_extends_variable(
                    before.names,
                    step.names,
                    SierraGenVar::LoweringVar(shorter[i].0),
                );
                names::lemma_extends_variable(
                    before.names,
                    step.names,
                    SierraGenVar::LoweringVar(shorter[i].1),
                );
            }
        }
    }
}

/// The values of a remapping, which has each target once, are pushed to different Sierra variables.
pub proof fn remapping_targets_differ(
    input: FunctionInput,
    names: Names,
    entries: Seq<(VariableId, VariableId)>,
)
    requires
        names.wf(),
        ordered_map::distinct_keys(entries),
        code::remapped_values(input, names, entries) is Some,
        code::remapped_values(input, names, entries)->0.result is Ok,
        code::remapped_values(input, names, entries)->0.names.fits(),
    ensures
        ({
            let step = code::remapped_values(input, names, entries)->0;
            &&& step.value().len() == entries.len()
            &&& forall|i: int, j: int|
                0 <= i < j < entries.len() ==> (#[trigger] step.value()[i]).var_on_stack != (
                #[trigger] step.value()[j]).var_on_stack
        }),
{
    let step = code::remapped_values(input, names, entries)->0;
    remapping_is_in_order(input, names, entries);
    assert(entries.take(0) == Seq::<(VariableId, VariableId)>::empty());
    growth::lemma_remapped_values_prefix(input, names, entries, 0);
    names::lemma_extends_wf(names, step.names);
    assert forall|i: int, j: int| 0 <= i < j < entries.len() implies (
    #[trigger] step.value()[i]).var_on_stack != (#[trigger] step.value()[j]).var_on_stack by {
        assert(is_remapped(step.value()[i], input, step.names, entries[i]));
        assert(is_remapped(step.value()[j], input, step.names, entries[j]));
        assert(entries[i].0 != entries[j].0);
    }
}

/// Two generations come out the same way: none has an outcome, or both stop, or both end.
pub open spec fn same_outcome<T>(left: Option<Emitted<T>>, right: Option<Emitted<T>>) -> bool {
    &&& left is Some <==> right is Some
    &&& left is Some ==> (left->0.result is Ok <==> right->0.result is Ok)
}

/// How a remapping comes out does not depend on the names given.
proof fn lemma_remapping_same_outcome(
    input: FunctionInput,
    left: Names,
    right: Names,
    entries: Seq<(VariableId, VariableId)>,
)
    ensures
        same_outcome(
            code::remapped_values(input, left, entries),
            code::remapped_values(input, right, entries),
        ),
    decreases entries.len(),
{
    if entries.len() > 0 {
        lemma_remapping_same_outcome(input, left, right, entries.drop_last());
    }
}

/// How blocks come out does not depend on the names given.
pub open spec fn is_nameless(blocks: BlockCode) -> bool {
    forall|left: Names, right: Names, block_id: BlockId|
        same_outcome(#[trigger] blocks(left, block_id), #[trigger] blocks(right, block_id))
}

/// How the arms of a match come out does not depend on the names given.
proof fn lemma_arms_same_outcome(
    left_start: Names,
    left: Names,
    right_start: Names,
    right: Names,
    arms: Seq<MatchArm>,
    blocks: BlockCode,
)
    requires
        is_nameless(blocks),
    ensures
        same_outcome(
            code::arms_code(left_start, left, arms, blocks),
            code::arms_code(right_start, right, arms, blocks),
        ),
    decreases arms.len(),
{
    if arms.len() > 0 {
        let shorter = arms.drop_last();
        lemma_arms_same_outcome(left_start, left, right_start, right, shorter, blocks);
        let before_left = code::arms_code(left_start, left, shorter, blocks);
        let before_right = code::arms_code(right_start, right, shorter, blocks);
        if before_left is Some {
            let block_id = arms.last().block_id;
            assert(same_outcome(
                blocks(before_left->0.names, block_id),
                blocks(before_right->0.names, block_id),
            ));
        }
    }
}

/// How a match comes out does not depend on the names given.
proof fn lemma_match_same_outcome(
    input: FunctionInput,
    left: Names,
    right: Names,
    location: StatementLocation,
    inputs: Seq<VariableId>,
    libfunc_id: Maybe<LibfuncId>,
    arms: Seq<MatchArm>,
    blocks: BlockCode,
)
    requires
        is_nameless(blocks),
    ensures
        same_outcome(
            code::match_code(input, left, location, inputs, libfunc_id, arms, blocks),
            code::match_code(input, right, location, inputs, libfunc_id, arms, blocks),
        ),
{
    let branching_left = code::branching_code(input, left, location, inputs, libfunc_id, arms);
    let branching_right = code::branching_code(input, right, location, inputs, libfunc_id, arms);
    laws::arguments_succeed_iff_resolved(
        input,
        code::match_names(left, arms),
        location,
        inputs,
    );
    laws::arguments_succeed_iff_resolved(
        input,
        code::match_names(right, arms),
        location,
        inputs,
    );
    lemma_arms_same_outcome(
        left,
        branching_left.names,
        right,
        branching_right.names,
        arms,
        blocks,
    );
}

/// How a block comes out does not depend on the names given.
proof fn lemma_parts_same_outcome(
    input: FunctionInput,
    left: Names,
    right: Names,
    block_id: BlockId,
    blocks: BlockCode,
)
    requires
        is_nameless(blocks),
    ensures
        same_outcome(
            code::block_parts(input, left, block_id, blocks),
            code::block_parts(input, right, block_id, blocks),
        ),
{
    if block_id.0 < input.lowered.blocks@.len() {
        let block = input.lowered.blocks@[block_id.0 as int];
        let location = meaning::place_of_end(block_id, block);
        let left_names = code::body_code(input, left, block_id, block).names;
        let right_names = code::body_code(input, right, block_id, block).names;
        laws::body_succeeds_iff_resolved(input, left, block_id, block);
        laws::body_succeeds_iff_resolved(input, right, block_id, block);
        match block.end {
            FlatBlockEnd::NotSet => {},
            FlatBlockEnd::Return(vars) => {
                laws::return_pushes_and_returns(input, left_names, location, vars@);
                laws::return_pushes_and_returns(input, right_names, location, vars@);
            },
            FlatBlockEnd::Panic(_) => {},
            FlatBlockEnd::Goto(target, remapping) => {
                lemma_remapping_same_outcome(input, left_names, right_names, remapping@);
                let pushes_left = code::remapping_code(input, left_names, remapping@);
                let pushes_right = code::remapping_code(input, right_names, remapping@);
                if pushes_left is Some {
                    assert(same_outcome(
                        blocks(pushes_left->0.names.with_block_label(target), target),
                        blocks(pushes_right->0.names.with_block_label(target), target),
                    ));
                }
            },
            FlatBlockEnd::Match { info: MatchInfo::Extern(info) } => {
                lemma_match_same_outcome(
                    input,
                    left_names,
                    right_names,
                    location,
                    info.inputs@,
                    Ok(LibfuncId::Function { function: info.function }),
                    info.arms@,
                    blocks,
                );
            },
            FlatBlockEnd::Match { info: MatchInfo::Enum(info) } => {
                lemma_match_same_outcome(
                    input,
                    left_names,
                    right_names,
                    location,
                    seq![info.input],
                    code::match_enum_libfunc(input, info.input),
                    info.arms@,
                    blocks,
                );
            },
        }
    }
}

/// How blocks come out within a depth does not depend on the names given.
pub proof fn lemma_within_same_outcome(input: FunctionInput, depth: nat)
    ensures
        is_nameless(code::blocks_within(input, depth)),
    decreases depth,
{
    let blocks = code::blocks_within(input, depth);
    if depth > 0 {
        let less = code::blocks_within(input, (depth - 1) as nat);
        lemma_within_same_outcome(input, (depth - 1) as nat);
        assert forall|left: Names, right: Names, block_id: BlockId| same_outcome(
            #[trigger] blocks(left, block_id),
            #[trigger] blocks(right, block_id),
        ) by {
            lemma_parts_same_outcome(input, left, right, block_id, less);
        }
    }
}

/// Whether a block has code, and whether its generation stops, does not depend on the names given
/// before.
pub proof fn outcome_does_not_depend_on_names(
    input: FunctionInput,
    left: Names,
    right: Names,
    block_id: BlockId,
)
    ensures
        same_outcome(
            code::block_code(input, left, block_id),
            code::block_code(input, right, block_id),
        ),
{
    reveal(code::block_code);
    let depth_left = code::block_depth(input, left, block_id);
    let depth_right = code::block_depth(input, right, block_id);
    let blocks_left = code::blocks_within(input, depth_left);
    let blocks_right = code::blocks_within(input, depth_right);
    lemma_within_same_outcome(input, depth_left);
    lemma_within_same_outcome(input, depth_right);
    assert(same_outcome(blocks_left(left, block_id), blocks_left(right, block_id)));
    assert(same_outcome(blocks_right(left, block_id), blocks_right(right, block_id)));
    if code::block_code(input, left, block_id) is Some {
        depth::lemma_block_code(input, right, block_id, depth_left);
    } else if code::block_code(input, right, block_id) is Some {
        depth::lemma_block_code(input, left, block_id, depth_right);
    }
}

/// Generating a block keeps all names that were given, gives new ones that are different from all
/// others, and leaves the names well formed.
pub proof fn names_are_kept(input: FunctionInput, names: Names, block_id: BlockId)
    requires
        code::block_code(input, names, block_id) is Some,
    ensures
        code::block_code(input, names, block_id)->0.names.extends(names),
{
    growth::lemma_all_blocks(input);
    assert(code::all_blocks(input)(names, block_id) is Some);
}

/// The statement returns or jumps to a label, so that execution does not go on with the next one,
/// or it is the place where a match ends.
pub open spec fn closes(statement: StatementView) -> bool {
    match statement {
        StatementView::Return(_) => true,
        StatementView::Label(_) => true,
        StatementView::Invocation { .. } => exists|label: LabelId|
            statement == #[trigger] meaning::jumped(label),
        StatementView::PushValues(_) => false,
    }
}

/// The code of blocks is closed.
spec fn are_closed(blocks: BlockCode) -> bool {
    forall|names: Names, block_id: BlockId|
        (#[trigger] blocks(names, block_id)) is Some && blocks(names, block_id)->0.result is Ok
            ==> blocks(names, block_id)->0.statements.len() > 0 && closes(
                blocks(names, block_id)->0.statements.last(),
            )
}

/// The code of blocks within a depth is closed.
#[verifier::rlimit(30)]
proof fn lemma_within_closed(input: FunctionInput, depth: nat)
    ensures
        are_closed(code::blocks_within(input, depth)),
    decreases depth,
{
    let blocks = code::blocks_within(input, depth);
    if depth > 0 {
        let less = code::blocks_within(input, (depth - 1) as nat);
        lemma_within_closed(input, (depth - 1) as nat);
        assert forall|names: Names, block_id: BlockId|
            (#[trigger] blocks(names, block_id)) is Some && blocks(
                names,
                block_id,
            )->0.result is Ok implies blocks(names, block_id)->0.statements.len() > 0 && closes(
                blocks(names, block_id)->0.statements.last(),
            ) by {
            let block = input.lowered.blocks@[block_id.0 as int];
            let body = code::body_code(input, names, block_id, block);
            let end = code::end_code(input, body.names, block_id, block, less)->0;
            match block.end {
                FlatBlockEnd::Goto(target, remapping) => {
                    let pushes = code::remapping_code(input, body.names, remapping@)->0;
                    let named = pushes.names.with_block_label(target);
                    if target.0 == block_id.0 + 1 {
                        assert(less(named, target) is Some);
                    } else {
                        assert(end.statements.last() == meaning::jumped(
                            pushes.names.block_label(target),
                        ));
                    }
                },
                _ => {},
            }
            assert(end.statements.len() > 0 && closes(end.statements.last()));
        }
    }
}

/// The code of a block ends with a return, with a jump, or with the label of the end of a match.
pub proof fn blocks_are_closed(input: FunctionInput, names: Names, block_id: BlockId)
    requires
        code::block_code(input, names, block_id) is Some,
        code::block_code(input, names, block_id)->0.result is Ok,
    ensures
        code::block_code(input, names, block_id)->0.statements.len() > 0,
        closes(code::block_code(input, names, block_id)->0.statements.last()),
{
    reveal(code::block_code);
    let depth = code::block_depth(input, names, block_id);
    lemma_within_closed(input, depth);
    assert(code::blocks_within(input, depth)(names, block_id) is Some);
}

/// The code of the first arms comes first in that of all.
proof fn lemma_arms_in_front(
    start: Names,
    names: Names,
    arms: Seq<MatchArm>,
    blocks: BlockCode,
    count: int,
)
    requires
        0 <= count <= arms.len(),
        code::arms_code(start, names, arms, blocks) is Some,
        code::arms_code(start, names, arms, blocks)->0.result is Ok,
    ensures
        code::arms_code(start, names, arms.take(count), blocks) is Some,
        code::arms_code(start, names, arms.take(count), blocks)->0.result is Ok,
        ({
            let front = code::arms_code(start, names, arms.take(count), blocks)->0.statements;
            let all = code::arms_code(start, names, arms, blocks)->0.statements;
            front.len() <= all.len() && front == all.take(front.len() as int)
        }),
    decreases arms.len(),
{
    let all = code::arms_code(start, names, arms, blocks)->0.statements;
    if count == arms.len() {
        assert(arms.take(count) == arms);
        assert(all.take(all.len() as int) == all);
    } else {
        let shorter = arms.drop_last();
        lemma_arms_in_front(start, names, shorter, blocks, count);
        assert(shorter.take(count) == arms.take(count));
        let before = code::arms_code(start, names, shorter, blocks)->0.statements;
        let front = code::arms_code(start, names, arms.take(count), blocks)->0.statements;
        assert(before == all.take(before.len() as int));
        assert(front =~= all.take(front.len() as int));
    }
}

/// Where the code of an arm starts in the code of a match.
pub open spec fn arm_start(
    input: FunctionInput,
    names: Names,
    location: StatementLocation,
    inputs: Seq<VariableId>,
    libfunc_id: Maybe<LibfuncId>,
    arms: Seq<MatchArm>,
    blocks: BlockCode,
    index: int,
) -> int {
    let branching = code::branching_code(input, names, location, inputs, libfunc_id, arms);
    let before = code::arms_code(names, branching.names, arms.take(index), blocks)->0;
    (branching.statements.len() + before.statements.len()) as int
}

/// The names given before an arm of a match is generated.
pub open spec fn arm_names(
    input: FunctionInput,
    names: Names,
    location: StatementLocation,
    inputs: Seq<VariableId>,
    libfunc_id: Maybe<LibfuncId>,
    arms: Seq<MatchArm>,
    blocks: BlockCode,
    index: int,
) -> Names {
    let branching = code::branching_code(input, names, location, inputs, libfunc_id, arms);
    code::arms_code(names, branching.names, arms.take(index), blocks)->0.names
}

/// The code of a match is its invocation, with one branch for each arm, then the arms in order, and
/// the label of its end. The first branch goes on to the first arm. Each other one goes to a label,
/// and at that label its arm starts. Every arm aligns the gas costs before its block.
pub proof fn matches_are_laid_out(
    input: FunctionInput,
    names: Names,
    location: StatementLocation,
    inputs: Seq<VariableId>,
    libfunc_id: Maybe<LibfuncId>,
    arms: Seq<MatchArm>,
    blocks: BlockCode,
    index: int,
)
    requires
        0 <= index < arms.len(),
        code::match_code(input, names, location, inputs, libfunc_id, arms, blocks) is Some,
        code::match_code(
            input,
            names,
            location,
            inputs,
            libfunc_id,
            arms,
            blocks,
        )->0.result is Ok,
    ensures
        ({
            let step = code::match_code(
                input,
                names,
                location,
                inputs,
                libfunc_id,
                arms,
                blocks,
            )->0;
            let branching = code::branching_code(
                input,
                names,
                location,
                inputs,
                libfunc_id,
                arms,
            );
            let start = |i: int|
                arm_start(input, names, location, inputs, libfunc_id, arms, blocks, i);
            let before = arm_names(
                input,
                names,
                location,
                inputs,
                libfunc_id,
                arms,
                blocks,
                index,
            );
            let block = blocks(before, arms[index].block_id);
            &&& libfunc_id is Ok
            &&& branching.statements.len() > 0
            &&& branching.statements == step.statements.take(branching.statements.len() as int)
            &&& branching.statements.last() matches StatementView::Invocation {
                libfunc_id: invoked,
                branches,
                ..
            } && invoked == libfunc_id->Ok_0 && branches.len() == arms.len()
                && branches[index].target == code::arm_target(names, index)
            &&& start(0) == branching.statements.len()
            &&& block is Some
            &&& block->0.result is Ok
            &&& start(index) < start(index + 1) < step.statements.len()
            &&& step.statements.subrange(start(index), start(index + 1)) == code::arm_head(
                names,
                index,
            ) + block->0.statements
            &&& start(arms.len() as int) == step.statements.len() - 1
            &&& step.statements.last() == StatementView::Label(
                names.label_ahead((arms.len() - 1) as nat),
            )
        }),
{
    let step = code::match_code(input, names, location, inputs, libfunc_id, arms, blocks)->0;
    let branching = code::branching_code(input, names, location, inputs, libfunc_id, arms);
    let all = code::arms_code(names, branching.names, arms, blocks)->0;
    let before = code::arms_code(names, branching.names, arms.take(index), blocks)->0;
    let after = code::arms_code(names, branching.names, arms.take(index + 1), blocks)->0;
    let head = code::arm_head(names, index);
    lemma_arms_in_front(names, branching.names, arms, blocks, index);
    lemma_arms_in_front(names, branching.names, arms, blocks, index + 1);
    assert(arms.take(0) == Seq::<MatchArm>::empty());
    assert(arms.take(arms.len() as int) == arms);
    assert(arms.take(index + 1).drop_last() == arms.take(index));
    assert(arms.take(index + 1).last() == arms[index]);
    let block = blocks(before.names, arms[index].block_id)->0;
    assert(after.statements == before.statements + head + block.statements);
    let from = branching.statements.len() + before.statements.len();
    let to = branching.statements.len() + after.statements.len();
    assert(branching.statements =~= step.statements.take(branching.statements.len() as int));
    assert forall|k: int| 0 <= k < after.statements.len() implies #[trigger] after.statements[k]
        == step.statements[branching.statements.len() + k] by {
        assert(after.statements[k] == all.statements[k]);
    }
    assert(step.statements.subrange(from as int, to as int) =~= head + block.statements) by {
        assert forall|k: int| 0 <= k < to - from implies #[trigger] step.statements.subrange(
            from as int,
            to as int,
        )[k] == (head + block.statements)[k] by {
            assert(after.statements[before.statements.len() + k] == (head + block.statements)[k]);
        }
    }
}

/// The labels to which the branches of a match go, and that of its end, are all different, and none
/// is the label of a block.
pub proof fn match_labels_differ(names: Names, arms: Seq<MatchArm>, block_id: BlockId)
    requires
        names.wf(),
        names.with_fresh_labels(arms.len()).fits(),
    ensures
        forall|i: nat, j: nat|
            i < j < arms.len() ==> #[trigger] names.label_ahead(i) != #[trigger] names.label_ahead(
                j,
            ),
        forall|i: nat|
            i < arms.len() && names.block_labels.contains_key(block_id)
                ==> #[trigger] names.label_ahead(i) != names.block_labels[block_id],
{
}

} // verus!
