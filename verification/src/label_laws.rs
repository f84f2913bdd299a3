//! Where the labels of the generated code are placed.

use vstd::prelude::*;

use crate::code;
use crate::code::{BlockCode, Emitted};
use crate::context::FunctionInput;
use crate::growth;
use crate::libfunc::{LibfuncId, Maybe};
use crate::lifetime::{DropLocation, SierraGenVar};
use crate::lowering::{
    BlockId, FlatBlock, FlatBlockEnd, MatchArm, MatchInfo, Statement, StatementLocation,
    VariableId,
};
use crate::meaning;
use crate::names;
use crate::names::Names;
use crate::pre_sierra::{LabelId, StatementView};
use crate::trail;
use crate::trail::Trail;

verus! {

broadcast use crate::names::lemma_extends_reflexive;

/// No label is placed.
pub open spec fn is_plain(statements: Seq<StatementView>) -> bool {
    forall|i: int| 0 <= i < statements.len() ==> !((#[trigger] statements[i]) is Label)
}

/// No label is placed twice.
pub open spec fn places_once(statements: Seq<StatementView>) -> bool {
    forall|i: int, j: int|
        0 <= i < j < statements.len() && (#[trigger] statements[i]) is Label
            && (#[trigger] statements[j]) is Label ==> statements[i] != statements[j]
}

/// Drops place no label.
proof fn lemma_drops_plain(input: FunctionInput, names: Names, vars: Seq<SierraGenVar>)
    ensures
        is_plain(code::drops_code(input, names, vars).statements),
    decreases vars.len(),
{
    if vars.len() > 0 {
        lemma_drops_plain(input, names, vars.drop_last());
    }
}

/// Getting inputs ready places no label.
pub proof fn lemma_arguments_plain(
    input: FunctionInput,
    names: Names,
    location: StatementLocation,
    vars: Seq<VariableId>,
)
    ensures
        is_plain(code::arguments_code(input, names, location, vars).statements),
    decreases vars.len(),
{
    if vars.len() > 0 {
        lemma_arguments_plain(input, names, location, vars.drop_last());
    }
}

/// A statement places no label.
proof fn lemma_statement_plain(
    input: FunctionInput,
    names: Names,
    statement: Statement,
    location: StatementLocation,
)
    ensures
        is_plain(code::statement_code(input, names, statement, location).statements),
{
    match statement {
        Statement::Call(s) => {
            let named = names.with_variables(s.inputs@).with_variables(s.outputs@);
            lemma_arguments_plain(input, named, location, s.inputs@);
            growth::lemma_pushed_inputs_values(input, named, location, s.inputs@);
        },
        Statement::StructConstruct(s) => {
            lemma_arguments_plain(input, names, location, s.inputs@);
        },
        _ => {},
    }
}

/// Statements place no label.
proof fn lemma_statements_plain(
    input: FunctionInput,
    names: Names,
    block_id: BlockId,
    statements: Seq<Statement>,
)
    ensures
        is_plain(code::statements_code(input, names, block_id, statements).statements),
    decreases statements.len(),
{
    if statements.len() > 0 {
        let location = (block_id, (statements.len() - 1) as usize);
        let place = DropLocation::PostStatement(location);
        let before = code::statements_code(input, names, block_id, statements.drop_last());
        let statement = before.then_emit(
            code::statement_code(input, before.names, statements.last(), location),
        );
        lemma_statements_plain(input, names, block_id, statements.drop_last());
        lemma_statement_plain(input, before.names, statements.last(), location);
        lemma_drops_plain(input, statement.names, meaning::dying_at(input, place));
    }
}

/// The body of a block places no label.
pub proof fn bodies_place_no_label(
    input: FunctionInput,
    names: Names,
    block_id: BlockId,
    block: FlatBlock,
)
    ensures
        is_plain(code::body_code(input, names, block_id, block).statements),
{
    let begin = DropLocation::BeginningOfBlock(block_id);
    let end = DropLocation::PostStatement(meaning::place_of_end(block_id, block));
    let first = code::drops_at_code(input, names, begin);
    let statements = first.then_emit(
        code::statements_code(input, first.names, block_id, block.statements@),
    );
    lemma_drops_plain(input, names, meaning::dying_at(input, begin));
    lemma_statements_plain(input, first.names, block_id, block.statements@);
    lemma_drops_plain(input, statements.names, meaning::dying_at(input, end));
}

/// The label is that of a block.
pub open spec fn is_block_label(names: Names, label: LabelId) -> bool {
    exists|b: BlockId| #[trigger]
        names.block_labels.contains_key(b) && names.block_labels[b] == label
}

/// The label is that of one of the blocks.
pub open spec fn is_label_of(names: Names, owners: Set<BlockId>, label: LabelId) -> bool {
    exists|b: BlockId| #[trigger]
        names.block_labels.contains_key(b) && names.block_labels[b] == label && owners.contains(b)
}

/// A placed label is that of one of the blocks, or one that belongs to a match and has one of the
/// numbers.
pub open spec fn accounts_for(
    names: Names,
    owners: Set<BlockId>,
    numbers: Set<nat>,
    label: LabelId,
) -> bool {
    ||| is_label_of(names, owners, label)
    ||| {
        &&& numbers.contains(label.0 as nat)
        &&& label.0 < names.next_label
        &&& !is_block_label(names, label)
    }
}

/// No label is placed twice, and each is accounted for.
pub open spec fn places_labels(
    statements: Seq<StatementView>,
    names: Names,
    owners: Set<BlockId>,
    numbers: Set<nat>,
) -> bool {
    &&& places_once(statements)
    &&& forall|i: int|
        0 <= i < statements.len() && (#[trigger] statements[i]) is Label ==> accounts_for(
            names,
            owners,
            numbers,
            statements[i]->Label_0,
        )
}

/// Labels that were accounted for still are.
proof fn lemma_accounts_later(
    earlier: Names,
    later: Names,
    owners: Set<BlockId>,
    more_owners: Set<BlockId>,
    numbers: Set<nat>,
    more_numbers: Set<nat>,
    label: LabelId,
)
    requires
        accounts_for(earlier, owners, numbers, label),
        earlier.wf(),
        later.extends(earlier),
        later.fits(),
        forall|b: BlockId| #[trigger] owners.contains(b) ==> more_owners.contains(b),
        forall|n: nat| #[trigger] numbers.contains(n) ==> more_numbers.contains(n),
    ensures
        accounts_for(later, more_owners, more_numbers, label),
{
    reveal(Names::keeps);
    if is_label_of(earlier, owners, label) {
        let b = choose|b: BlockId| #[trigger]
            earlier.block_labels.contains_key(b) && earlier.block_labels[b] == label
                && owners.contains(b);
        assert(later.block_labels.contains_key(b));
    } else if is_block_label(later, label) {
        let b = choose|b: BlockId| #[trigger]
            later.block_labels.contains_key(b) && later.block_labels[b] == label;
        assert(earlier.block_labels.contains_key(b));
        assert(is_block_label(earlier, label));
    }
}

/// Two pieces of code, one after the other, that place labels of different blocks and with
/// different numbers.
proof fn lemma_concatenation(
    first: Seq<StatementView>,
    middle: Names,
    owners: Set<BlockId>,
    numbers: Set<nat>,
    second: Seq<StatementView>,
    last: Names,
    more_owners: Set<BlockId>,
    more_numbers: Set<nat>,
    all_owners: Set<BlockId>,
    all_numbers: Set<nat>,
)
    requires
        places_labels(first, middle, owners, numbers),
        places_labels(second, last, more_owners, more_numbers),
        middle.wf(),
        last.extends(middle),
        last.fits(),
        forall|b: BlockId| #[trigger]
            owners.contains(b) ==> !more_owners.contains(b) && all_owners.contains(b),
        forall|b: BlockId| #[trigger] more_owners.contains(b) ==> all_owners.contains(b),
        forall|n: nat| #[trigger]
            numbers.contains(n) ==> !more_numbers.contains(n) && all_numbers.contains(n),
        forall|n: nat| #[trigger] more_numbers.contains(n) ==> all_numbers.contains(n),
    ensures
        places_labels(first + second, last, all_owners, all_numbers),
{
    let both = first + second;
    names::lemma_extends_wf(middle, last);
    assert forall|i: int| 0 <= i < both.len() && (#[trigger] both[i]) is Label implies accounts_for(
        last,
        all_owners,
        all_numbers,
        both[i]->Label_0,
    ) by {
        if i < first.len() {
            assert(first[i] == both[i]);
            lemma_accounts_later(
                middle,
                last,
                owners,
                all_owners,
                numbers,
                all_numbers,
                both[i]->Label_0,
            );
        } else {
            assert(second[i - first.len()] == both[i]);
            lemma_accounts_later(
                last,
                last,
                more_owners,
                all_owners,
                more_numbers,
                all_numbers,
                both[i]->Label_0,
            );
        }
    }
    assert forall|i: int, j: int|
        0 <= i < j < both.len() && (#[trigger] both[i]) is Label && (
        #[trigger] both[j]) is Label implies both[i] != both[j] by {
        if j < first.len() {
            assert(first[i] == both[i]);
            assert(first[j] == both[j]);
        } else if i >= first.len() {
            assert(second[i - first.len()] == both[i]);
            assert(second[j - first.len()] == both[j]);
        } else {
            assert(first[i] == both[i]);
            assert(second[j - first.len()] == both[j]);
            let label = both[i]->Label_0;
            lemma_accounts_later(middle, last, owners, owners, numbers, numbers, label);
            assert(accounts_for(last, owners, numbers, label));
            assert(accounts_for(last, more_owners, more_numbers, both[j]->Label_0));
            if both[i] == both[j] && is_label_of(last, owners, label) {
                let b = choose|b: BlockId| #[trigger]
                    last.block_labels.contains_key(b) && last.block_labels[b] == label
                        && owners.contains(b);
                assert(is_block_label(last, label));
                let c = choose|c: BlockId| #[trigger]
                    last.block_labels.contains_key(c) && last.block_labels[c] == label
                        && more_owners.contains(c);
                assert(last.block_labels[b] == last.block_labels[c]);
            } else if both[i] == both[j] && is_label_of(last, more_owners, label) {
                let c = choose|c: BlockId| #[trigger]
                    last.block_labels.contains_key(c) && last.block_labels[c] == label
                        && more_owners.contains(c);
                assert(is_block_label(last, label));
            }
        }
    }
}

/// The members of a list.
pub open spec fn members(blocks: Seq<BlockId>) -> Set<BlockId> {
    Set::new(|b: BlockId| blocks.contains(b))
}

/// The numbers from one on, before the other.
pub open spec fn range(from: nat, to: nat) -> Set<nat> {
    Set::new(|n: nat| from <= n < to)
}

/// Where no block is generated twice for a block, its code places no label twice, and each is one
/// that a match got meanwhile or that of a block that is generated after the first.
spec fn labels_hold_at(step: Emitted<()>, names: Names, trail: Seq<BlockId>) -> bool {
    step.result is Ok && names.wf() && step.names.fits() && trail.no_duplicates()
        ==> places_labels(
            step.statements,
            step.names,
            members(trail.skip(1)),
            range(names.next_label, step.names.next_label),
        )
}

/// What [`labels_hold_at`] says, of all blocks.
spec fn labels_hold(blocks: BlockCode, trail: Trail) -> bool {
    forall|names: Names, block_id: BlockId|
        (#[trigger] blocks(names, block_id)) is Some ==> trail(block_id).len() > 0
            && trail(block_id)[0] == block_id && labels_hold_at(
            blocks(names, block_id)->0,
            names,
            trail(block_id),
        )
}

/// The parts of a list without duplicates have none, and share no member.
proof fn lemma_no_duplicates_parts(first: Seq<BlockId>, second: Seq<BlockId>)
    requires
        (first + second).no_duplicates(),
    ensures
        first.no_duplicates(),
        second.no_duplicates(),
        forall|b: BlockId| #[trigger] first.contains(b) ==> !second.contains(b),
{
    let both = first + second;
    assert forall|i: int, j: int|
        0 <= i < first.len() && 0 <= j < first.len() && i != j implies first[i] != first[j] by {
        assert(both[i] == first[i] && both[j] == first[j]);
    }
    assert forall|i: int, j: int|
        0 <= i < second.len() && 0 <= j < second.len() && i != j implies second[i]
        != second[j] by {
        assert(both[i + first.len()] == second[i] && both[j + first.len()] == second[j]);
    }
    assert forall|b: BlockId| #[trigger] first.contains(b) implies !second.contains(b) by {
        if second.contains(b) {
            let i = choose|i: int| 0 <= i < first.len() && first[i] == b;
            let j = choose|j: int| 0 <= j < second.len() && second[j] == b;
            assert(both[i] == b && both[j + first.len()] == b);
        }
    }
}

/// The numbers of the labels that the first arms place: those of the arms but the first, and those
/// given to the blocks.
pub open spec fn arm_numbers(start: Names, names: Names, arms: nat, last: Names) -> Set<nat> {
    Set::new(
        |n: nat|
            start.next_label <= n < start.next_label + arms - 1 || names.next_label <= n
                < last.next_label,
    )
}

/// The labels that a match got are not those of blocks.
pub proof fn lemma_match_label(start: Names, total: nat, later: Names, index: nat)
    requires
        start.wf(),
        later.extends(start.with_fresh_labels(total)),
        later.fits(),
        index < total,
    ensures
        start.label_ahead(index).0 == start.next_label + index,
        start.label_ahead(index).0 < later.next_label,
        !is_block_label(later, start.label_ahead(index)),
{
    reveal(Names::keeps);
    let label = start.label_ahead(index);
    if is_block_label(later, label) {
        let b = choose|b: BlockId| #[trigger]
            later.block_labels.contains_key(b) && later.block_labels[b] == label;
        assert(start.with_fresh_labels(total).block_labels == start.block_labels);
        if start.block_labels.contains_key(b) {
            assert(later.block_labels[b] == start.block_labels[b]);
        }
    }
}

/// The labels that arms place.
proof fn lemma_arms_labels(
    start: Names,
    total: nat,
    names: Names,
    arms: Seq<MatchArm>,
    blocks: BlockCode,
    trail: Trail,
)
    requires
        labels_hold(blocks, trail),
        growth::grows(blocks),
        start.wf(),
        names.wf(),
        names.extends(start.with_fresh_labels(total)),
        arms.len() <= total,
        trail::arms_trail(arms, trail).no_duplicates(),
        code::arms_code(start, names, arms, blocks) is Some,
        code::arms_code(start, names, arms, blocks)->0.result is Ok,
        code::arms_code(start, names, arms, blocks)->0.names.fits(),
    ensures
        places_labels(
            code::arms_code(start, names, arms, blocks)->0.statements,
            code::arms_code(start, names, arms, blocks)->0.names,
            members(trail::arms_trail(arms, trail)),
            arm_numbers(
                start,
                names,
                arms.len(),
                code::arms_code(start, names, arms, blocks)->0.names,
            ),
        ),
    decreases arms.len(),
{
    if arms.len() > 0 {
        let shorter = arms.drop_last();
        let index = arms.len() - 1;
        let last = arms.last().block_id;
        let step = code::arms_code(start, names, arms, blocks)->0;
        let before = code::arms_code(start, names, shorter, blocks)->0;
        let block = blocks(before.names, last)->0;
        let head = code::arm_head(start, index);
        let first_trail = trail::arms_trail(shorter, trail);
        let last_trail = trail(last);
        assert(blocks(before.names, last) is Some);
        growth::lemma_arms(start, names, shorter, blocks);
        names::lemma_extends_wf(names, before.names);
        names::lemma_extends_transitive(
            start.with_fresh_labels(total),
            names,
            before.names,
        );
        lemma_no_duplicates_parts(first_trail, last_trail);
        lemma_arms_labels(start, total, names, shorter, blocks, trail);
        assert(labels_hold_at(block, before.names, last_trail));
        let before_numbers = arm_numbers(start, names, shorter.len(), before.names);
        let head_numbers = range(
            (start.next_label + index - 1) as nat,
            (start.next_label + index) as nat,
        );
        let headed_numbers = Set::new(
            |n: nat| before_numbers.contains(n) || (index > 0 && head_numbers.contains(n)),
        );
        let all_numbers = arm_numbers(start, names, arms.len(), step.names);
        let all_owners = members(trail::arms_trail(arms, trail));
        // The head of the arm.
        if index > 0 {
            lemma_match_label(start, total, before.names, (index - 1) as nat);
            assert(places_labels(head, before.names, Set::empty(), head_numbers));
            lemma_concatenation(
                before.statements,
                before.names,
                members(first_trail),
                before_numbers,
                head,
                before.names,
                Set::empty(),
                head_numbers,
                members(first_trail),
                headed_numbers,
            );
        } else {
            assert(before.statements + head =~= head);
            assert(is_plain(head));
        }
        // The block of the arm.
        assert forall|b: BlockId| #[trigger] members(first_trail).contains(b) implies !members(
            last_trail.skip(1),
        ).contains(b) && all_owners.contains(b) by {
            let i = choose|i: int| 0 <= i < first_trail.len() && first_trail[i] == b;
            assert(trail::arms_trail(arms, trail)[i] == b);
            if last_trail.skip(1).contains(b) {
                let j = choose|j: int| 0 <= j < last_trail.skip(1).len() && last_trail.skip(1)[j]
                    == b;
                assert(last_trail[j + 1] == b);
            }
        }
        assert forall|b: BlockId| #[trigger]
            members(last_trail.skip(1)).contains(b) implies all_owners.contains(b) by {
            let j = choose|j: int| 0 <= j < last_trail.skip(1).len() && last_trail.skip(1)[j]
                == b;
            assert(trail::arms_trail(arms, trail)[first_trail.len() + j + 1] == b);
        }
        lemma_concatenation(
            before.statements + head,
            before.names,
            members(first_trail),
            headed_numbers,
            block.statements,
            block.names,
            members(last_trail.skip(1)),
            range(before.names.next_label, block.names.next_label),
            all_owners,
            all_numbers,
        );
        assert(step.statements =~= before.statements + head + block.statements);
    }
}

/// The labels that a match places.
proof fn lemma_match_labels(
    input: FunctionInput,
    names: Names,
    location: StatementLocation,
    inputs: Seq<VariableId>,
    libfunc_id: Maybe<LibfuncId>,
    arms: Seq<MatchArm>,
    blocks: BlockCode,
    trail: Trail,
)
    requires
        labels_hold(blocks, trail),
        growth::grows(blocks),
        names.wf(),
        trail::arms_trail(arms, trail).no_duplicates(),
        code::match_code(input, names, location, inputs, libfunc_id, arms, blocks) is Some,
        code::match_code(
            input,
            names,
            location,
            inputs,
            libfunc_id,
            arms,
            blocks,
        )->0.result is Ok,
        code::match_code(
            input,
            names,
            location,
            inputs,
            libfunc_id,
            arms,
            blocks,
        )->0.names.fits(),
    ensures
        ({
            let step = code::match_code(
                input,
                names,
                location,
                inputs,
                libfunc_id,
                arms,
                blocks,
            )->0;
            places_labels(
                step.statements,
                step.names,
                members(trail::arms_trail(arms, trail)),
                range(names.next_label, step.names.next_label),
            )
        }),
{
    let step = code::match_code(input, names, location, inputs, libfunc_id, arms, blocks)->0;
    let branching = code::branching_code(input, names, location, inputs, libfunc_id, arms);
    let code = code::arms_code(names, branching.names, arms, blocks)->0;
    let named = code::match_names(names, arms);
    let labelled = names.with_fresh_labels(arms.len());
    let end_index = (arms.len() - 1) as nat;
    let end = seq![StatementView::Label(names.label_ahead(end_index))];
    let owners = members(trail::arms_trail(arms, trail));
    let numbers = arm_numbers(names, branching.names, arms.len(), code.names);
    let end_numbers = range(
        (names.next_label + end_index) as nat,
        (names.next_label + arms.len()) as nat,
    );
    let all_numbers = range(names.next_label, step.names.next_label);
    growth::lemma_branching(input, names, location, inputs, libfunc_id, arms);
    growth::lemma_match_names(names, arms);
    names::lemma_extends_transitive(labelled, named, branching.names);
    growth::lemma_arms(names, branching.names, arms, blocks);
    names::lemma_extends_wf(names, branching.names);
    names::lemma_extends_wf(branching.names, code.names);
    names::lemma_extends_transitive(labelled, branching.names, code.names);
    // The invocation.
    lemma_arguments_plain(input, named, location, inputs);
    assert(is_plain(branching.statements));
    // The arms.
    lemma_arms_labels(names, arms.len(), branching.names, arms, blocks, trail);
    lemma_concatenation(
        branching.statements,
        branching.names,
        Set::empty(),
        Set::empty(),
        code.statements,
        code.names,
        owners,
        numbers,
        owners,
        numbers,
    );
    // The end.
    lemma_match_label(names, arms.len(), code.names, end_index);
    assert(places_labels(end, code.names, Set::empty(), end_numbers));
    lemma_concatenation(
        branching.statements + code.statements,
        code.names,
        owners,
        numbers,
        end,
        code.names,
        Set::empty(),
        end_numbers,
        owners,
        all_numbers,
    );
    assert(step.statements =~= branching.statements + code.statements + end);
}

/// The labels that going on at another block places.
proof fn lemma_goto_labels(
    input: FunctionInput,
    names: Names,
    block_id: BlockId,
    target: BlockId,
    entries: Seq<(VariableId, VariableId)>,
    blocks: BlockCode,
    trail: Trail,
)
    requires
        labels_hold(blocks, trail),
        growth::grows(blocks),
        names.wf(),
        trail(target).no_duplicates(),
        code::goto_code(input, names, block_id, target, entries, blocks) is Some,
        code::goto_code(input, names, block_id, target, entries, blocks)->0.result is Ok,
        code::goto_code(input, names, block_id, target, entries, blocks)->0.names.fits(),
    ensures
        ({
            let step = code::goto_code(input, names, block_id, target, entries, blocks)->0;
            places_labels(
                step.statements,
                step.names,
                if target.0 == block_id.0 + 1 {
                    members(trail(target))
                } else {
                    Set::empty()
                },
                range(names.next_label, step.names.next_label),
            )
        }),
{
    let step = code::goto_code(input, names, block_id, target, entries, blocks)->0;
    let pushes = code::remapping_code(input, names, entries)->0;
    let named = pushes.names.with_block_label(target);
    let label = seq![StatementView::Label(pushes.names.block_label(target))];
    growth::lemma_remapping(input, names, entries);
    growth::lemma_remapped_values_statements(input, names, entries);
    names::lemma_with_block_label(pushes.names, target);
    assert(is_plain(pushes.statements));
    if target.0 == block_id.0 + 1 {
        let block = blocks(named, target)->0;
        let only = Set::<BlockId>::empty().insert(target);
        assert(blocks(named, target) is Some);
        names::lemma_extends_wf(names, pushes.names);
        names::lemma_extends_wf(pushes.names, named);
        assert(named.block_labels.contains_key(target));
        assert(is_label_of(named, only, pushes.names.block_label(target)));
        assert(places_labels(label, named, only, Set::empty()));
        lemma_concatenation(
            pushes.statements,
            pushes.names,
            Set::empty(),
            Set::empty(),
            label,
            named,
            only,
            Set::empty(),
            only,
            Set::empty(),
        );
        assert(labels_hold_at(block, named, trail(target)));
        let rest = trail(target).skip(1);
        assert forall|b: BlockId| #[trigger] only.contains(b) implies !members(rest).contains(b)
            && members(trail(target)).contains(b) by {
            assert(trail(target)[0] == b);
            if rest.contains(b) {
                let j = choose|j: int| 0 <= j < rest.len() && rest[j] == b;
                assert(trail(target)[j + 1] == b);
            }
        }
        assert forall|b: BlockId| #[trigger] members(rest).contains(b) implies members(
            trail(target),
        ).contains(b) by {
            let j = choose|j: int| 0 <= j < rest.len() && rest[j] == b;
            assert(trail(target)[j + 1] == b);
        }
        lemma_concatenation(
            pushes.statements + label,
            named,
            only,
            Set::empty(),
            block.statements,
            block.names,
            members(trail(target).skip(1)),
            range(named.next_label, block.names.next_label),
            members(trail(target)),
            range(names.next_label, step.names.next_label),
        );
        assert(step.statements =~= pushes.statements + label + block.statements);
    } else {
        assert(is_plain(step.statements));
    }
}

/// The labels that a block places.
proof fn lemma_parts_labels(
    input: FunctionInput,
    names: Names,
    block_id: BlockId,
    blocks: BlockCode,
    trail: Trail,
)
    requires
        labels_hold(blocks, trail),
        growth::grows(blocks),
        code::block_parts(input, names, block_id, blocks) is Some,
    ensures
        labels_hold_at(
            code::block_parts(input, names, block_id, blocks)->0,
            names,
            seq![block_id] + trail::end_trail(
                block_id,
                input.lowered.blocks@[block_id.0 as int].end,
                trail,
            ),
        ),
{
    let block = input.lowered.blocks@[block_id.0 as int];
    let location = meaning::place_of_end(block_id, block);
    let body = code::body_code(input, names, block_id, block);
    let step = code::block_parts(input, names, block_id, blocks)->0;
    let rest = trail::end_trail(block_id, block.end, trail);
    let whole = seq![block_id] + rest;
    if step.result is Ok && names.wf() && step.names.fits() && whole.no_duplicates() {
        let end = code::end_code(input, body.names, block_id, block, blocks)->0;
        assert(whole.skip(1) =~= rest);
        lemma_no_duplicates_parts(seq![block_id], rest);
        growth::lemma_body(input, names, block_id, block);
        growth::lemma_end(input, body.names, block_id, block, blocks);
        names::lemma_extends_wf(names, body.names);
        bodies_place_no_label(input, names, block_id, block);
        match block.end {
            FlatBlockEnd::Return(vars) => {
                growth::lemma_pushed_inputs_values(input, body.names, location, vars@);
                assert(is_plain(end.statements));
            },
            FlatBlockEnd::Goto(target, remapping) => {
                if target.0 != block_id.0 + 1 {
                    assert(members(rest) =~= Set::empty());
                    growth::lemma_remapped_values_statements(input, body.names, remapping@);
                    assert(is_plain(end.statements));
                } else {
                    lemma_goto_labels(
                        input,
                        body.names,
                        block_id,
                        target,
                        remapping@,
                        blocks,
                        trail,
                    );
                }
            },
            FlatBlockEnd::Match { info: MatchInfo::Extern(info) } => {
                lemma_match_labels(
                    input,
                    body.names,
                    location,
                    info.inputs@,
                    Ok(LibfuncId::Function { function: info.function }),
                    info.arms@,
                    blocks,
                    trail,
                );
            },
            FlatBlockEnd::Match { info: MatchInfo::Enum(info) } => {
                lemma_match_labels(
                    input,
                    body.names,
                    location,
                    seq![info.input],
                    code::match_enum_libfunc(input, info.input),
                    info.arms@,
                    blocks,
                    trail,
                );
            },
            _ => {},
        }
        lemma_concatenation(
            body.statements,
            body.names,
            Set::empty(),
            Set::empty(),
            end.statements,
            end.names,
            members(rest),
            range(body.names.next_label, end.names.next_label),
            members(rest),
            range(names.next_label, step.names.next_label),
        );
    }
}

/// The labels that blocks within a depth place.
proof fn lemma_within_labels(input: FunctionInput, depth: nat)
    ensures
        labels_hold(code::blocks_within(input, depth), trail::trail_within(input, depth)),
    decreases depth,
{
    let blocks = code::blocks_within(input, depth);
    let trail = trail::trail_within(input, depth);
    if depth > 0 {
        let less = (depth - 1) as nat;
        lemma_within_labels(input, less);
        growth::lemma_blocks_within(input, less);
        assert forall|names: Names, block_id: BlockId| (
        #[trigger] blocks(names, block_id)) is Some implies trail(block_id).len() > 0 && trail(
            block_id,
        )[0] == block_id && labels_hold_at(blocks(names, block_id)->0, names, trail(block_id)) by {
            lemma_parts_labels(
                input,
                names,
                block_id,
                code::blocks_within(input, less),
                trail::trail_within(input, less),
            );
        }
    }
}

/// Where no block is generated twice for a block, the code of the block places no label twice.
pub proof fn labels_are_placed_once(input: FunctionInput, names: Names, block_id: BlockId)
    requires
        names.wf(),
        code::block_code(input, names, block_id) is Some,
        code::block_code(input, names, block_id)->0.result is Ok,
        code::block_code(input, names, block_id)->0.names.fits(),
        trail::generated_blocks(input, names, block_id).no_duplicates(),
    ensures
        places_once(code::block_code(input, names, block_id)->0.statements),
{
    reveal(code::block_code);
    let depth = code::block_depth(input, names, block_id);
    let blocks = code::blocks_within(input, depth);
    lemma_within_labels(input, depth);
    assert(blocks(names, block_id) is Some);
    assert(labels_hold_at(
        blocks(names, block_id)->0,
        names,
        trail::trail_within(input, depth)(block_id),
    ));
}

} // verus!
