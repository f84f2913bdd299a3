//! Where the labels of matches are placed.

use vstd::prelude::*;

use crate::code;
use crate::code::{BlockCode, Emitted};
use crate::context::FunctionInput;
use crate::count_laws;
use crate::growth;
use crate::label_laws;
use crate::laws;
use crate::libfunc::{LibfuncId, Maybe};
use crate::lifetime::DropLocation;
use crate::lowering::{
    BlockId, FlatBlock, FlatBlockEnd, MatchArm, MatchInfo, Statement, StatementLocation,
    VariableId,
};
use crate::meaning;
use crate::names;
use crate::names::Names;
use crate::pre_sierra::{LabelId, StatementView};

verus! {

broadcast use crate::names::lemma_extends_reflexive;

/// The label is placed, and at one place only.
pub open spec fn is_placed_once(statements: Seq<StatementView>, label: LabelId) -> bool {
    exists|k: int|
        0 <= k < statements.len() && #[trigger] statements[k] == StatementView::Label(label)
            && forall|i: int|
            0 <= i < statements.len() && #[trigger] statements[i] == StatementView::Label(label)
                ==> i == k
}

/// The label is placed.
spec fn is_placed(statements: Seq<StatementView>, label: LabelId) -> bool {
    exists|k: int|
        0 <= k < statements.len() && #[trigger] statements[k] == StatementView::Label(label)
}

/// A placed label is that of a block, or has one of the numbers and was given.
spec fn is_allowed(names: Names, numbers: Set<nat>, label: LabelId) -> bool {
    label_laws::is_block_label(names, label) || (numbers.contains(label.0 as nat) && label.0
        < names.next_label)
}

/// The labels with these numbers that are not those of blocks are placed, each once, and no others
/// but those of blocks are.
spec fn places_numbers(statements: Seq<StatementView>, names: Names, numbers: Set<nat>) -> bool {
    &&& forall|i: int|
        0 <= i < statements.len() && (#[trigger] statements[i]) is Label ==> is_allowed(
            names,
            numbers,
            statements[i]->Label_0,
        )
    &&& forall|i: int, j: int|
        0 <= i < j < statements.len() && (#[trigger] statements[i]) is Label
            && #[trigger] statements[j] == statements[i] ==> label_laws::is_block_label(
            names,
            statements[i]->Label_0,
        )
    &&& forall|label: LabelId|
        numbers.contains(label.0 as nat) && !label_laws::is_block_label(names, label)
            ==> #[trigger] is_placed(statements, label)
}

/// The label of a block stays one, and a label that was given becomes none.
proof fn lemma_block_label_later(earlier: Names, later: Names, label: LabelId)
    requires
        later.extends(earlier),
        later.fits(),
    ensures
        label_laws::is_block_label(earlier, label) ==> label_laws::is_block_label(later, label),
        label.0 < earlier.next_label && label_laws::is_block_label(later, label)
            ==> label_laws::is_block_label(earlier, label),
{
    reveal(Names::keeps);
    if label_laws::is_block_label(earlier, label) {
        let b = choose|b: BlockId| #[trigger]
            earlier.block_labels.contains_key(b) && earlier.block_labels[b] == label;
        assert(later.block_labels.contains_key(b));
    } else if label_laws::is_block_label(later, label) {
        let b = choose|b: BlockId| #[trigger]
            later.block_labels.contains_key(b) && later.block_labels[b] == label;
        if label.0 < earlier.next_label {
            assert(earlier.block_labels.contains_key(b));
        }
    }
}

/// Two pieces of code, one after the other, that place labels with different numbers.
proof fn lemma_concatenation(
    first: Seq<StatementView>,
    middle: Names,
    numbers: Set<nat>,
    second: Seq<StatementView>,
    last: Names,
    more_numbers: Set<nat>,
    all_numbers: Set<nat>,
)
    requires
        places_numbers(first, middle, numbers),
        places_numbers(second, last, more_numbers),
        last.extends(middle),
        last.fits(),
        forall|n: nat| #[trigger]
            numbers.contains(n) ==> !more_numbers.contains(n) && all_numbers.contains(n),
        forall|n: nat| #[trigger] more_numbers.contains(n) ==> all_numbers.contains(n),
        forall|label: LabelId|
            all_numbers.contains(label.0 as nat) ==> numbers.contains(label.0 as nat)
                || more_numbers.contains(label.0 as nat) || #[trigger] label_laws::is_block_label(
                last,
                label,
            ),
    ensures
        places_numbers(first + second, last, all_numbers),
{
    let both = first + second;
    assert forall|i: int| 0 <= i < both.len() && (#[trigger] both[i]) is Label implies is_allowed(
        last,
        all_numbers,
        both[i]->Label_0,
    ) by {
        if i < first.len() {
            assert(first[i] == both[i]);
            assert(is_allowed(middle, numbers, first[i]->Label_0));
            lemma_block_label_later(middle, last, both[i]->Label_0);
        } else {
            assert(second[i - first.len()] == both[i]);
            assert(is_allowed(last, more_numbers, second[i - first.len()]->Label_0));
        }
    }
    assert forall|i: int, j: int|
        0 <= i < j < both.len() && (#[trigger] both[i]) is Label && #[trigger] both[j]
            == both[i] implies label_laws::is_block_label(last, both[i]->Label_0) by {
        let label = both[i]->Label_0;
        lemma_block_label_later(middle, last, label);
        if j < first.len() {
            assert(first[i] == both[i]);
            assert(first[j] == both[j]);
        } else if i >= first.len() {
            assert(second[i - first.len()] == both[i]);
            assert(second[j - first.len()] == both[j]);
        } else {
            assert(first[i] == both[i]);
            assert(second[j - first.len()] == both[j]);
            assert(is_allowed(middle, numbers, first[i]->Label_0));
            assert(is_allowed(last, more_numbers, second[j - first.len()]->Label_0));
        }
    }
    assert forall|label: LabelId|
        all_numbers.contains(label.0 as nat) && !label_laws::is_block_label(
            last,
            label,
        ) implies #[trigger] is_placed(both, label) by {
        lemma_block_label_later(middle, last, label);
        if numbers.contains(label.0 as nat) {
            assert(is_placed(first, label));
            let k = choose|k: int|
                0 <= k < first.len() && #[trigger] first[k] == StatementView::Label(label);
            assert(both[k] == first[k]);
        } else {
            assert(is_placed(second, label));
            let k = choose|k: int|
                0 <= k < second.len() && #[trigger] second[k] == StatementView::Label(label);
            assert(both[first.len() + k] == second[k]);
        }
    }
}

/// Code that places no label.
proof fn lemma_plain(statements: Seq<StatementView>, names: Names)
    requires
        label_laws::is_plain(statements),
    ensures
        places_numbers(statements, names, Set::empty()),
{
}

/// The statements of a body give no label.
proof fn lemma_statements_give_no_label(
    input: FunctionInput,
    names: Names,
    block_id: BlockId,
    statements: Seq<Statement>,
)
    ensures
        code::statements_code(input, names, block_id, statements).names.next_label
            == names.next_label,
    decreases statements.len(),
{
    if statements.len() > 0 {
        let location = (block_id, (statements.len() - 1) as usize);
        let before = code::statements_code(input, names, block_id, statements.drop_last());
        let statement = before.then_emit(
            code::statement_code(input, before.names, statements.last(), location),
        );
        lemma_statements_give_no_label(input, names, block_id, statements.drop_last());
        laws::statements_give_few_names(input, before.names, statements.last(), location);
        laws::drops_give_few_names(
            input,
            statement.names,
            meaning::dying_at(input, DropLocation::PostStatement(location)),
        );
    }
}

/// The body of a block gives no label.
pub proof fn bodies_give_no_label(
    input: FunctionInput,
    names: Names,
    block_id: BlockId,
    block: FlatBlock,
)
    ensures
        code::body_code(input, names, block_id, block).names.next_label == names.next_label,
{
    let begin = meaning::dying_at(input, DropLocation::BeginningOfBlock(block_id));
    let end = meaning::dying_at(
        input,
        DropLocation::PostStatement(meaning::place_of_end(block_id, block)),
    );
    let first = code::drops_code(input, names, begin);
    let middle = code::statements_code(input, first.names, block_id, block.statements@);
    laws::drops_give_few_names(input, names, begin);
    lemma_statements_give_no_label(input, first.names, block_id, block.statements@);
    laws::drops_give_few_names(input, middle.names, end);
}

/// The code of a block places the labels that were given meanwhile.
spec fn numbers_hold_at(step: Emitted<()>, names: Names) -> bool {
    step.result is Ok && names.wf() && step.names.fits() ==> places_numbers(
        step.statements,
        step.names,
        label_laws::range(names.next_label, step.names.next_label),
    )
}

/// What [`numbers_hold_at`] says, of all blocks.
spec fn numbers_hold(blocks: BlockCode) -> bool {
    forall|names: Names, block_id: BlockId|
        (#[trigger] blocks(names, block_id)) is Some ==> numbers_hold_at(
            blocks(names, block_id)->0,
            names,
        )
}

/// One label of a match.
proof fn lemma_one_label(start: Names, total: nat, later: Names, index: nat)
    requires
        start.wf(),
        later.extends(start.with_fresh_labels(total)),
        later.fits(),
        index < total,
    ensures
        places_numbers(
            seq![StatementView::Label(start.label_ahead(index))],
            later,
            label_laws::range(
                (start.next_label + index) as nat,
                (start.next_label + index + 1) as nat,
            ),
        ),
{
    let label = start.label_ahead(index);
    let place = seq![StatementView::Label(label)];
    label_laws::lemma_match_label(start, total, later, index);
    assert forall|other: LabelId|
        label_laws::range(
            (start.next_label + index) as nat,
            (start.next_label + index + 1) as nat,
        ).contains(other.0 as nat) implies #[trigger] is_placed(place, other) by {
        assert(other == label);
        assert(place[0] == StatementView::Label(other));
    }
}

/// The labels that arms place.
proof fn lemma_arms_numbers(
    start: Names,
    total: nat,
    names: Names,
    arms: Seq<MatchArm>,
    blocks: BlockCode,
)
    requires
        numbers_hold(blocks),
        growth::grows(blocks),
        start.wf(),
        names.wf(),
        names.extends(start.with_fresh_labels(total)),
        arms.len() <= total,
        code::arms_code(start, names, arms, blocks) is Some,
        code::arms_code(start, names, arms, blocks)->0.result is Ok,
        code::arms_code(start, names, arms, blocks)->0.names.fits(),
    ensures
        places_numbers(
            code::arms_code(start, names, arms, blocks)->0.statements,
            code::arms_code(start, names, arms, blocks)->0.names,
            label_laws::arm_numbers(
                start,
                names,
                arms.len(),
                code::arms_code(start, names, arms, blocks)->0.names,
            ),
        ),
    decreases arms.len(),
{
    if arms.len() > 0 {
        let shorter = arms.drop_last();
        let index = arms.len() - 1;
        let last = arms.last().block_id;
        let step = code::arms_code(start, names, arms, blocks)->0;
        let before = code::arms_code(start, names, shorter, blocks)->0;
        let block = blocks(before.names, last)->0;
        let head = code::arm_head(start, index);
        assert(blocks(before.names, last) is Some);
        growth::lemma_arms(start, names, shorter, blocks);
        names::lemma_extends_wf(names, before.names);
        names::lemma_extends_transitive(start.with_fresh_labels(total), names, before.names);
        lemma_arms_numbers(start, total, names, shorter, blocks);
        assert(numbers_hold_at(block, before.names));
        let before_numbers = label_laws::arm_numbers(start, names, shorter.len(), before.names);
        let headed_numbers = label_laws::arm_numbers(start, names, arms.len(), before.names);
        let all_numbers = label_laws::arm_numbers(start, names, arms.len(), step.names);
        // The head of the arm.
        if index > 0 {
            let place = seq![StatementView::Label(start.label_ahead((index - 1) as nat))];
            let align = head.skip(1);
            let head_numbers = label_laws::range(
                (start.next_label + index - 1) as nat,
                (start.next_label + index) as nat,
            );
            lemma_one_label(start, total, before.names, (index - 1) as nat);
            assert(label_laws::is_plain(align));
            lemma_plain(align, before.names);
            lemma_concatenation(
                place,
                before.names,
                head_numbers,
                align,
                before.names,
                Set::empty(),
                head_numbers,
            );
            assert(head =~= place + align);
            lemma_concatenation(
                before.statements,
                before.names,
                before_numbers,
                head,
                before.names,
                head_numbers,
                headed_numbers,
            );
        } else {
            assert(label_laws::is_plain(head));
            lemma_plain(head, before.names);
            lemma_concatenation(
                before.statements,
                before.names,
                before_numbers,
                head,
                before.names,
                Set::empty(),
                headed_numbers,
            );
        }
        // The block of the arm.
        lemma_concatenation(
            before.statements + head,
            before.names,
            headed_numbers,
            block.statements,
            block.names,
            label_laws::range(before.names.next_label, block.names.next_label),
            all_numbers,
        );
        assert(step.statements =~= before.statements + head + block.statements);
    }
}

/// The labels that a match places.
proof fn lemma_match_numbers(
    input: FunctionInput,
    names: Names,
    location: StatementLocation,
    inputs: Seq<VariableId>,
    libfunc_id: Maybe<LibfuncId>,
    arms: Seq<MatchArm>,
    blocks: BlockCode,
)
    requires
        numbers_hold(blocks),
        growth::grows(blocks),
        names.wf(),
        code::match_code(input, names, location, inputs, libfunc_id, arms, blocks) is Some,
        code::match_code(
            input,
            names,
            location,
            inputs,
            libfunc_id,
            arms,
            blocks,
        )->0.result is Ok,
        code::match_code(
            input,
            names,
            location,
            inputs,
            libfunc_id,
            arms,
            blocks,
        )->0.names.fits(),
    ensures
        ({
            let step = code::match_code(
                input,
                names,
                location,
                inputs,
                libfunc_id,
                arms,
                blocks,
            )->0;
            &&& step.names.extends(names.with_fresh_labels(arms.len()))
            &&& places_numbers(
                step.statements,
                step.names,
                label_laws::range(names.next_label, step.names.next_label),
            )
        }),
{
    let step = code::match_code(input, names, location, inputs, libfunc_id, arms, blocks)->0;
    let branching = code::branching_code(input, names, location, inputs, libfunc_id, arms);
    let code = code::arms_code(names, branching.names, arms, blocks)->0;
    let named = code::match_names(names, arms);
    let labelled = names.with_fresh_labels(arms.len());
    let end_index = (arms.len() - 1) as nat;
    let end = seq![StatementView::Label(names.label_ahead(end_index))];
    let numbers = label_laws::arm_numbers(names, branching.names, arms.len(), code.names);
    let end_numbers = label_laws::range(
        (names.next_label + end_index) as nat,
        (names.next_label + arms.len()) as nat,
    );
    let all_numbers = label_laws::range(names.next_label, step.names.next_label);
    growth::lemma_branching(input, names, location, inputs, libfunc_id, arms);
    growth::lemma_match_names(names, arms);
    names::lemma_extends_transitive(labelled, named, branching.names);
    growth::lemma_arms(names, branching.names, arms, blocks);
    names::lemma_extends_wf(names, branching.names);
    names::lemma_extends_wf(branching.names, code.names);
    names::lemma_extends_transitive(labelled, branching.names, code.names);
    laws::variables_give_few_names(labelled, code::arm_variables(arms));
    laws::arguments_give_few_names(input, named, location, inputs);
    assert(branching.names.next_label == names.next_label + arms.len());
    // The invocation.
    label_laws::lemma_arguments_plain(input, named, location, inputs);
    assert(label_laws::is_plain(branching.statements));
    lemma_plain(branching.statements, branching.names);
    // The arms.
    lemma_arms_numbers(names, arms.len(), branching.names, arms, blocks);
    lemma_concatenation(
        branching.statements,
        branching.names,
        Set::empty(),
        code.statements,
        code.names,
        numbers,
        numbers,
    );
    // The end.
    lemma_one_label(names, arms.len(), code.names, end_index);
    lemma_concatenation(
        branching.statements + code.statements,
        code.names,
        numbers,
        end,
        code.names,
        end_numbers,
        all_numbers,
    );
    assert(step.statements =~= branching.statements + code.statements + end);
}

/// The labels that going on at another block places.
proof fn lemma_goto_numbers(
    input: FunctionInput,
    names: Names,
    block_id: BlockId,
    target: BlockId,
    entries: Seq<(VariableId, VariableId)>,
    blocks: BlockCode,
)
    requires
        numbers_hold(blocks),
        growth::grows(blocks),
        names.wf(),
        code::goto_code(input, names, block_id, target, entries, blocks) is Some,
        code::goto_code(input, names, block_id, target, entries, blocks)->0.result is Ok,
        code::goto_code(input, names, block_id, target, entries, blocks)->0.names.fits(),
    ensures
        ({
            let step = code::goto_code(input, names, block_id, target, entries, blocks)->0;
            places_numbers(
                step.statements,
                step.names,
                label_laws::range(names.next_label, step.names.next_label),
            )
        }),
{
    let step = code::goto_code(input, names, block_id, target, entries, blocks)->0;
    let pushes = code::remapping_code(input, names, entries)->0;
    let named = pushes.names.with_block_label(target);
    let label = pushes.names.block_label(target);
    growth::lemma_remapping(input, names, entries);
    growth::lemma_remapped_values_statements(input, names, entries);
    count_laws::lemma_remapping_count(input, names, entries);
    names::lemma_with_block_label(pushes.names, target);
    assert(pushes.names.next_label == names.next_label);
    assert(label_laws::is_plain(pushes.statements));
    assert(named.block_labels.contains_key(target));
    assert(label_laws::is_block_label(named, label));
    let given = label_laws::range(names.next_label, named.next_label);
    if target.0 == block_id.0 + 1 {
        let block = blocks(named, target)->0;
        assert(blocks(named, target) is Some);
        assert(numbers_hold_at(block, named));
        let head = pushes.statements + seq![StatementView::Label(label)];
        assert forall|other: LabelId| #[trigger]
            given.contains(other.0 as nat) implies label_laws::is_block_label(named, other) by {
            assert(other == label);
        }
        names::lemma_extends_wf(names, pushes.names);
        names::lemma_extends_wf(pushes.names, named);
        assert(places_numbers(head, named, Set::empty()));
        assert forall|other: LabelId|
            label_laws::range(names.next_label, step.names.next_label).contains(
                other.0 as nat,
            ) && !label_laws::range(named.next_label, block.names.next_label).contains(
                other.0 as nat,
            ) implies #[trigger] label_laws::is_block_label(block.names, other) by {
            assert(given.contains(other.0 as nat));
            lemma_block_label_later(named, block.names, other);
        }
        lemma_concatenation(
            head,
            named,
            Set::empty(),
            block.statements,
            block.names,
            label_laws::range(named.next_label, block.names.next_label),
            label_laws::range(names.next_label, step.names.next_label),
        );
        assert(step.statements =~= head + block.statements);
    } else {
        assert(label_laws::is_plain(step.statements));
        assert forall|other: LabelId|
            given.contains(other.0 as nat) implies #[trigger] label_laws::is_block_label(
            named,
            other,
        ) by {
            assert(other == label);
        }
    }
}

/// The labels that a block places.
proof fn lemma_parts_numbers(
    input: FunctionInput,
    names: Names,
    block_id: BlockId,
    blocks: BlockCode,
)
    requires
        numbers_hold(blocks),
        growth::grows(blocks),
        code::block_parts(input, names, block_id, blocks) is Some,
    ensures
        numbers_hold_at(code::block_parts(input, names, block_id, blocks)->0, names),
{
    let block = input.lowered.blocks@[block_id.0 as int];
    let location = meaning::place_of_end(block_id, block);
    let body = code::body_code(input, names, block_id, block);
    let step = code::block_parts(input, names, block_id, blocks)->0;
    if step.result is Ok && names.wf() && step.names.fits() {
        let end = code::end_code(input, body.names, block_id, block, blocks)->0;
        growth::lemma_body(input, names, block_id, block);
        growth::lemma_end(input, body.names, block_id, block, blocks);
        names::lemma_extends_wf(names, body.names);
        label_laws::bodies_place_no_label(input, names, block_id, block);
        bodies_give_no_label(input, names, block_id, block);
        lemma_plain(body.statements, body.names);
        let numbers = label_laws::range(body.names.next_label, end.names.next_label);
        match block.end {
            FlatBlockEnd::Return(vars) => {
                growth::lemma_pushed_inputs_values(input, body.names, location, vars@);
                laws::returns_give_few_names(input, body.names, location, vars@);
                assert(label_laws::is_plain(end.statements));
                lemma_plain(end.statements, end.names);
                assert(numbers =~= Set::empty());
            },
            FlatBlockEnd::Goto(target, remapping) => {
                lemma_goto_numbers(input, body.names, block_id, target, remapping@, blocks);
            },
            FlatBlockEnd::Match { info: MatchInfo::Extern(info) } => {
                lemma_match_numbers(
                    input,
                    body.names,
                    location,
                    info.inputs@,
                    Ok(LibfuncId::Function { function: info.function }),
                    info.arms@,
                    blocks,
                );
            },
            FlatBlockEnd::Match { info: MatchInfo::Enum(info) } => {
                lemma_match_numbers(
                    input,
                    body.names,
                    location,
                    seq![info.input],
                    code::match_enum_libfunc(input, info.input),
                    info.arms@,
                    blocks,
                );
            },
            _ => {},
        }
        lemma_concatenation(
            body.statements,
            body.names,
            Set::empty(),
            end.statements,
            end.names,
            numbers,
            label_laws::range(names.next_label, step.names.next_label),
        );
    }
}

/// The labels that blocks within a depth place.
proof fn lemma_within_numbers(input: FunctionInput, depth: nat)
    ensures
        numbers_hold(code::blocks_within(input, depth)),
    decreases depth,
{
    let blocks = code::blocks_within(input, depth);
    if depth > 0 {
        let less = (depth - 1) as nat;
        lemma_within_numbers(input, less);
        growth::lemma_blocks_within(input, less);
        assert forall|names: Names, block_id: BlockId|
            (#[trigger] blocks(names, block_id)) is Some implies numbers_hold_at(
            blocks(names, block_id)->0,
            names,
        ) by {
            lemma_parts_numbers(input, names, block_id, code::blocks_within(input, less));
        }
    }
}

/// The labels that blocks place.
proof fn lemma_all_numbers(input: FunctionInput)
    ensures
        numbers_hold(code::all_blocks(input)),
{
    reveal(code::block_code);
    let blocks = code::all_blocks(input);
    assert forall|names: Names, block_id: BlockId|
        (#[trigger] blocks(names, block_id)) is Some implies numbers_hold_at(
        blocks(names, block_id)->0,
        names,
    ) by {
        let depth = code::block_depth(input, names, block_id);
        lemma_within_numbers(input, depth);
        assert(code::blocks_within(input, depth)(names, block_id) is Some);
    }
}

/// A placed label that is not that of a block is placed once.
proof fn lemma_placed_once(
    statements: Seq<StatementView>,
    names: Names,
    numbers: Set<nat>,
    label: LabelId,
)
    requires
        places_numbers(statements, names, numbers),
        numbers.contains(label.0 as nat),
        !label_laws::is_block_label(names, label),
    ensures
        is_placed_once(statements, label),
{
    assert(is_placed(statements, label));
    let k = choose|k: int|
        0 <= k < statements.len() && #[trigger] statements[k] == StatementView::Label(label);
    assert forall|i: int|
        0 <= i < statements.len() && #[trigger] statements[i] == StatementView::Label(
            label,
        ) implies i == k by {
        if i < k {
            assert(statements[k] == statements[i]);
        } else if k < i {
            assert(statements[i] == statements[k]);
        }
    }
}

/// Each label of a match, that of an arm but the first and that of the end, is placed exactly once
/// in the code of the match, whatever blocks its arms share.
pub proof fn match_labels_are_placed_once(
    input: FunctionInput,
    names: Names,
    location: StatementLocation,
    inputs: Seq<VariableId>,
    libfunc_id: Maybe<LibfuncId>,
    arms: Seq<MatchArm>,
    index: nat,
)
    requires
        names.wf(),
        index < arms.len(),
        code::match_code(
            input,
            names,
            location,
            inputs,
            libfunc_id,
            arms,
            code::all_blocks(input),
        ) is Some,
        code::match_code(
            input,
            names,
            location,
            inputs,
            libfunc_id,
            arms,
            code::all_blocks(input),
        )->0.result is Ok,
        code::match_code(
            input,
            names,
            location,
            inputs,
            libfunc_id,
            arms,
            code::all_blocks(input),
        )->0.names.fits(),
    ensures
        is_placed_once(
            code::match_code(
                input,
                names,
                location,
                inputs,
                libfunc_id,
                arms,
                code::all_blocks(input),
            )->0.statements,
            names.label_ahead(index),
        ),
{
    let blocks = code::all_blocks(input);
    let step = code::match_code(input, names, location, inputs, libfunc_id, arms, blocks)->0;
    lemma_all_numbers(input);
    growth::lemma_all_blocks(input);
    lemma_match_numbers(input, names, location, inputs, libfunc_id, arms, blocks);
    label_laws::lemma_match_label(names, arms.len(), step.names, index);
    lemma_placed_once(
        step.statements,
        step.names,
        label_laws::range(names.next_label, step.names.next_label),
        names.label_ahead(index),
    );
}

/// A label that is given while a block is generated is that of a block, or it is one of a match,
/// and then the code of the block places it exactly once, whatever blocks are generated more than
/// once. What the code places twice is the label of a block.
pub proof fn labels_of_matches_are_placed_once(
    input: FunctionInput,
    names: Names,
    block_id: BlockId,
)
    requires
        names.wf(),
        code::block_code(input, names, block_id) is Some,
        code::block_code(input, names, block_id)->0.result is Ok,
        code::block_code(input, names, block_id)->0.names.fits(),
    ensures
        ({
            let step = code::block_code(input, names, block_id)->0;
            &&& forall|label: LabelId|
                names.next_label <= label.0 < step.names.next_label
                    && !label_laws::is_block_label(step.names, label) ==> #[trigger] is_placed_once(
                    step.statements,
                    label,
                )
            &&& forall|i: int, j: int|
                0 <= i < j < step.statements.len() && (#[trigger] step.statements[i]) is Label
                    && #[trigger] step.statements[j] == step.statements[i]
                    ==> label_laws::is_block_label(step.names, step.statements[i]->Label_0)
        }),
{
    let step = code::block_code(input, names, block_id)->0;
    let numbers = label_laws::range(names.next_label, step.names.next_label);
    lemma_all_numbers(input);
    assert(code::all_blocks(input)(names, block_id) is Some);
    assert(numbers_hold_at(step, names));
    assert forall|label: LabelId|
        names.next_label <= label.0 < step.names.next_label && !label_laws::is_block_label(
            step.names,
            label,
        ) implies #[trigger] is_placed_once(step.statements, label) by {
        lemma_placed_once(step.statements, step.names, numbers, label);
    }
}

} // verus!
