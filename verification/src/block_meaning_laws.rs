//! The code of blocks is what it has to be.

use vstd::prelude::*;

use crate::block_laws;
use crate::code;
use crate::code::Emitted;
use crate::context::FunctionInput;
use crate::depth;
use crate::growth;
use crate::libfunc::{LibfuncId, Maybe};
use crate::lifetime::{DropLocation, SierraGenVar};
use crate::lowering::{
    BlockId, FlatBlock, FlatBlockEnd, MatchArm, MatchEnumInfo, MatchExternInfo, MatchInfo,
    Statement, StatementLocation, VarRemapping, VariableId,
};
use crate::meaning;
use crate::meaning::BodyPart;
use crate::meaning_laws;
use crate::names;
use crate::names::Names;
use crate::pre_sierra::{GenBranchTarget, StatementView};

verus! {

broadcast use crate::names::lemma_extends_reflexive;

/// The statements of a block come to one part each.
proof fn lemma_parts(
    input: FunctionInput,
    names: Names,
    block_id: BlockId,
    statements: Seq<Statement>,
) -> (parts: Seq<BodyPart>)
    requires
        code::statements_code(input, names, block_id, statements).result is Ok,
    ensures
        meaning::are_parts_of(input, block_id, statements, names, parts),
        meaning::joined(parts) == code::statements_code(
            input,
            names,
            block_id,
            statements,
        ).statements,
        meaning::names_before(names, parts, parts.len() as int) == code::statements_code(
            input,
            names,
            block_id,
            statements,
        ).names,
    decreases statements.len(),
{
    if statements.len() == 0 {
        Seq::empty()
    } else {
        let shorter = statements.drop_last();
        let index = statements.len() - 1;
        let location = (block_id, index as usize);
        let dying = meaning::dying_at(input, DropLocation::PostStatement(location));
        let before = code::statements_code(input, names, block_id, shorter);
        let own = code::statement_code(input, before.names, statements.last(), location);
        let drops = code::drops_code(input, own.names, dying);
        let step = code::statements_code(input, names, block_id, statements);
        let first = lemma_parts(input, names, block_id, shorter);
        let part = BodyPart {
            before: before.names,
            own: own.statements,
            middle: own.names,
            dropped: drops.statements,
            after: drops.names,
        };
        let parts = first.push(part);
        meaning_laws::statements_do_what_they_say(
            input,
            before.names,
            statements.last(),
            location,
        );
        meaning_laws::statements_name_in_order(input, before.names, statements.last(), location);
        meaning_laws::drops_drop(input, own.names, dying);
        meaning_laws::drops_name_in_order(input, own.names, dying);
        assert(meaning::is_part_of(input, location, statements.last(), part)) by {
            reveal(meaning::is_part_of);
        }
        assert(parts.drop_last() == first);
        assert(parts.last() == part);
        assert(step.statements =~= before.statements + own.statements + drops.statements);
        assert forall|i: int| #![trigger parts[i]] 0 <= i < statements.len() implies {
            &&& parts[i].before == meaning::names_before(names, parts, i)
            &&& meaning::is_part_of(input, (block_id, i as usize), statements[i], parts[i])
        } by {
            if i < index {
                assert(parts[i] == first[i]);
                assert(statements[i] == shorter[i]);
                if i > 0 {
                    assert(parts[i - 1] == first[i - 1]);
                }
            } else if i > 0 {
                assert(parts[i - 1] == first[i - 1]);
            }
        }
        parts
    }
}

/// The code of the body of a block is that of the drops at its beginning, of its statements in
/// order, each followed by one drop for each variable that dies after it, and of the drops before
/// its end.
pub proof fn bodies_are_laid_out(
    input: FunctionInput,
    names: Names,
    block_id: BlockId,
    block: FlatBlock,
)
    requires
        code::body_code(input, names, block_id, block).result is Ok,
    ensures
        ({
            let step = code::body_code(input, names, block_id, block);
            exists|parts: Seq<BodyPart>| #[trigger]
                meaning::is_body_of(
                    input,
                    names,
                    step.names,
                    block_id,
                    block,
                    step.statements,
                    parts,
                )
        }),
{
    reveal(meaning::is_body_of);
    let step = code::body_code(input, names, block_id, block);
    let opening = meaning::dying_at(input, DropLocation::BeginningOfBlock(block_id));
    let closing = meaning::dying_at(
        input,
        DropLocation::PostStatement(meaning::place_of_end(block_id, block)),
    );
    let first = code::drops_code(input, names, opening);
    let middle = code::statements_code(input, first.names, block_id, block.statements@);
    let last = code::drops_code(input, middle.names, closing);
    meaning_laws::drops_drop(input, names, opening);
    meaning_laws::drops_name_in_order(input, names, opening);
    let parts = lemma_parts(input, first.names, block_id, block.statements@);
    meaning_laws::drops_drop(input, middle.names, closing);
    meaning_laws::drops_name_in_order(input, middle.names, closing);
    let end = step.statements.len() - closing.len();
    assert(step.statements =~= first.statements + middle.statements + last.statements);
    assert(step.statements.take(opening.len() as int) =~= first.statements);
    assert(step.statements.subrange(opening.len() as int, end) =~= middle.statements);
    assert(step.statements.skip(end) =~= last.statements);
    assert(meaning::is_body_of(
        input,
        names,
        step.names,
        block_id,
        block,
        step.statements,
        parts,
    ));
}

/// Drops in two pieces of code.
proof fn lemma_drop_count(first: Seq<StatementView>, second: Seq<StatementView>)
    ensures
        meaning::drop_count(first + second) == meaning::drop_count(first) + meaning::drop_count(
            second,
        ),
    decreases second.len(),
{
    if second.len() == 0 {
        assert(first + second == first);
    } else {
        assert((first + second).drop_last() == first + second.drop_last());
        lemma_drop_count(first, second.drop_last());
    }
}

/// Code of which each statement drops a variable.
proof fn lemma_all_drops(statements: Seq<StatementView>)
    requires
        forall|i: int| 0 <= i < statements.len() ==> meaning::is_drop(#[trigger] statements[i]),
    ensures
        meaning::drop_count(statements) == statements.len(),
    decreases statements.len(),
{
    if statements.len() > 0 {
        let shorter = statements.drop_last();
        assert forall|i: int| 0 <= i < shorter.len() implies meaning::is_drop(
            #[trigger] shorter[i],
        ) by {
            assert(shorter[i] == statements[i]);
        }
        lemma_all_drops(shorter);
        assert(statements[statements.len() - 1] == statements.last());
    }
}

/// Code of which no statement drops a variable.
proof fn lemma_no_drops(statements: Seq<StatementView>)
    requires
        forall|i: int| 0 <= i < statements.len() ==> !meaning::is_drop(#[trigger] statements[i]),
    ensures
        meaning::drop_count(statements) == 0,
    decreases statements.len(),
{
    if statements.len() > 0 {
        let shorter = statements.drop_last();
        assert forall|i: int| 0 <= i < shorter.len() implies !meaning::is_drop(
            #[trigger] shorter[i],
        ) by {
            assert(shorter[i] == statements[i]);
        }
        lemma_no_drops(shorter);
        assert(statements[statements.len() - 1] == statements.last());
    }
}

/// The code of a statement drops nothing.
proof fn lemma_statement_drops_nothing(
    input: FunctionInput,
    earlier: Names,
    names: Names,
    location: StatementLocation,
    statement: Statement,
    statements: Seq<StatementView>,
)
    requires
        meaning::is_code_of(input, earlier, names, location, statement, statements),
    ensures
        meaning::drop_count(statements) == 0,
{
    reveal(meaning::are_arguments);
    assert forall|i: int| 0 <= i < statements.len() implies !meaning::is_drop(
        #[trigger] statements[i],
    ) by {
        if i < statements.len() - 1 {
            assert(statements.drop_last()[i] == statements[i]);
        } else {
            assert(statements[i] == statements.last());
        }
    }
    lemma_no_drops(statements);
}

/// There are as many drops as variables.
proof fn lemma_are_drops_count(
    input: FunctionInput,
    names: Names,
    vars: Seq<SierraGenVar>,
    statements: Seq<StatementView>,
)
    requires
        meaning::are_drops(input, names, vars, statements),
    ensures
        meaning::drop_count(statements) == vars.len(),
{
    lemma_all_drops(statements);
}

/// The parts of a body drop the variables that die after their statements.
proof fn lemma_parts_drop_count(
    input: FunctionInput,
    block_id: BlockId,
    statements: Seq<Statement>,
    first: Names,
    parts: Seq<BodyPart>,
)
    requires
        meaning::are_parts_of(input, block_id, statements, first, parts),
    ensures
        meaning::drop_count(meaning::joined(parts)) == meaning::dying_count(
            input,
            block_id,
            statements.len(),
        ),
    decreases statements.len(),
{
    if statements.len() > 0 {
        let index = statements.len() - 1;
        let part = parts[index];
        let location = (block_id, index as usize);
        let shorter = parts.drop_last();
        assert forall|i: int|
            #![trigger shorter[i]]
            0 <= i < statements.drop_last().len() implies {
            &&& shorter[i].before == meaning::names_before(first, shorter, i)
            &&& meaning::is_part_of(
                input,
                (block_id, i as usize),
                statements.drop_last()[i],
                shorter[i],
            )
        } by {
            assert(parts[i] == shorter[i]);
            assert(statements[i] == statements.drop_last()[i]);
        }
        lemma_parts_drop_count(input, block_id, statements.drop_last(), first, shorter);
        assert(meaning::is_part_of(input, location, statements[index], part));
        reveal(meaning::is_part_of);
        lemma_statement_drops_nothing(
            input,
            part.before,
            part.middle,
            location,
            statements[index],
            part.own,
        );
        lemma_are_drops_count(
            input,
            part.after,
            meaning::dying_at(input, DropLocation::PostStatement(location)),
            part.dropped,
        );
        lemma_drop_count(meaning::joined(shorter), part.own);
        lemma_drop_count(meaning::joined(shorter) + part.own, part.dropped);
        assert(parts.last() == part);
    }
}

/// The drops of a body are those at its beginning, after its statements and before its end.
proof fn lemma_body_drop_count(
    input: FunctionInput,
    earlier: Names,
    names: Names,
    block_id: BlockId,
    block: FlatBlock,
    statements: Seq<StatementView>,
    parts: Seq<BodyPart>,
)
    requires
        meaning::is_body_of(input, earlier, names, block_id, block, statements, parts),
    ensures
        meaning::drop_count(statements) == meaning::dying_at(
            input,
            DropLocation::BeginningOfBlock(block_id),
        ).len() + meaning::dying_count(input, block_id, block.statements@.len())
            + meaning::dying_at(
            input,
            DropLocation::PostStatement(meaning::place_of_end(block_id, block)),
        ).len(),
{
    let opening = meaning::dying_at(input, DropLocation::BeginningOfBlock(block_id));
    let closing = meaning::dying_at(
        input,
        DropLocation::PostStatement(meaning::place_of_end(block_id, block)),
    );
    let first = meaning::after_mentions(earlier, meaning::dying_mentioned(opening));
    let end = statements.len() - closing.len();
    let head = statements.take(opening.len() as int);
    let middle = statements.subrange(opening.len() as int, end);
    let tail = statements.skip(end);
    reveal(meaning::is_body_of);
    lemma_are_drops_count(input, first, opening, head);
    lemma_parts_drop_count(input, block_id, block.statements@, first, parts);
    lemma_are_drops_count(input, names, closing, tail);
    lemma_drop_count(head, middle);
    lemma_drop_count(head + middle, tail);
    assert(statements =~= head + middle + tail);
}

/// The body of a block drops as many variables as die in it: at its beginning, after each statement
/// and before its end.
pub proof fn bodies_drop_what_dies(
    input: FunctionInput,
    names: Names,
    block_id: BlockId,
    block: FlatBlock,
)
    requires
        code::body_code(input, names, block_id, block).result is Ok,
    ensures
        meaning::drop_count(code::body_code(input, names, block_id, block).statements)
            == meaning::dying_at(input, DropLocation::BeginningOfBlock(block_id)).len()
            + meaning::dying_count(input, block_id, block.statements@.len()) + meaning::dying_at(
            input,
            DropLocation::PostStatement(meaning::place_of_end(block_id, block)),
        ).len(),
{
    let step = code::body_code(input, names, block_id, block);
    bodies_are_laid_out(input, names, block_id, block);
    let parts = choose|parts: Seq<BodyPart>| #[trigger]
        meaning::is_body_of(input, names, step.names, block_id, block, step.statements, parts);
    lemma_body_drop_count(
        input,
        names,
        step.names,
        block_id,
        block,
        step.statements,
        parts,
    );
}

/// The code of a block is that of its body and then that of its end.
proof fn lemma_body_and_end(input: FunctionInput, names: Names, block_id: BlockId)
    requires
        code::block_code(input, names, block_id) is Some,
        code::block_code(input, names, block_id)->0.result is Ok,
    ensures
        ({
            let block = input.lowered.blocks@[block_id.0 as int];
            let body = code::body_code(input, names, block_id, block);
            let end = code::end_code(input, body.names, block_id, block, code::all_blocks(input));
            let step = code::block_code(input, names, block_id)->0;
            let rest = step.statements.skip(body.statements.len() as int);
            &&& body.result is Ok
            &&& end is Some
            &&& end->0.result is Ok
            &&& rest == end->0.statements
            &&& step.statements == body.statements + rest
            &&& step.names == end->0.names
        }),
{
    depth::block_code_is_its_parts(input, names, block_id);
    let block = input.lowered.blocks@[block_id.0 as int];
    let body = code::body_code(input, names, block_id, block);
    let end = code::end_code(input, body.names, block_id, block, code::all_blocks(input))->0;
    let step = code::block_code(input, names, block_id)->0;
    assert(step.statements.skip(body.statements.len() as int) =~= end.statements);
}

/// The code of a block that returns is that of its body and then that of the return.
pub proof fn returning_blocks_return(
    input: FunctionInput,
    names: Names,
    block_id: BlockId,
    vars: Vec<VariableId>,
)
    requires
        code::block_code(input, names, block_id) is Some,
        code::block_code(input, names, block_id)->0.result is Ok,
        input.lowered.blocks@[block_id.0 as int].end == FlatBlockEnd::Return(vars),
    ensures
        ({
            let block = input.lowered.blocks@[block_id.0 as int];
            let body = code::body_code(input, names, block_id, block);
            let step = code::block_code(input, names, block_id)->0;
            let rest = step.statements.skip(body.statements.len() as int);
            &&& body.result is Ok
            &&& step.statements == body.statements + rest
            &&& meaning::is_return(
                input,
                body.names,
                step.names,
                meaning::place_of_end(block_id, block),
                vars@,
                rest,
            )
            &&& step.names == meaning::after_mentions(
                body.names,
                meaning::push_mentions(vars@),
            )
        }),
{
    lemma_body_and_end(input, names, block_id);
    let block = input.lowered.blocks@[block_id.0 as int];
    let body = code::body_code(input, names, block_id, block);
    let location = meaning::place_of_end(block_id, block);
    meaning_laws::returns_return(input, body.names, location, vars@);
}

/// Pushing the values of a remapping names its variables in order.
pub proof fn remappings_name_in_order(
    input: FunctionInput,
    names: Names,
    entries: Seq<(VariableId, VariableId)>,
)
    requires
        code::remapped_values(input, names, entries) is Some,
        code::remapped_values(input, names, entries)->0.result is Ok,
    ensures
        code::remapped_values(input, names, entries)->0.names == meaning::after_mentions(
            names,
            meaning::remapping_mentions(entries),
        ),
    decreases entries.len(),
{
    if entries.len() > 0 {
        let shorter = entries.drop_last();
        let mentions = meaning::remapping_mentions(shorter);
        let output = SierraGenVar::LoweringVar(entries.last().0);
        let inner_output = SierraGenVar::LoweringVar(entries.last().1);
        remappings_name_in_order(input, names, shorter);
        meaning_laws::lemma_mention(names, mentions, inner_output);
        meaning_laws::lemma_mention(names, mentions.push(Some(inner_output)), output);
    }
}

/// The values of a remapping go from the one variable to the other, in order.
pub proof fn remappings_remap(
    input: FunctionInput,
    names: Names,
    entries: Seq<(VariableId, VariableId)>,
)
    requires
        code::remapped_values(input, names, entries) is Some,
        code::remapped_values(input, names, entries)->0.result is Ok,
    ensures
        ({
            let step = code::remapped_values(input, names, entries)->0;
            meaning::are_remapped(input, step.names, entries, step.value())
        }),
{
    let step = code::remapped_values(input, names, entries)->0;
    block_laws::remapping_is_in_order(input, names, entries);
    block_laws::remapping_succeeds_iff_resolved(input, names, entries);
    assert forall|i: int| #![trigger entries[i]] 0 <= i < entries.len() implies {
        &&& block_laws::is_remapped(step.value()[i], input, step.names, entries[i])
        &&& meaning::type_of(input, entries[i].0) is Ok
        &&& meaning::type_of(input, entries[i].1) == meaning::type_of(input, entries[i].0)
    } by {
        assert(block_laws::is_remapped(step.value()[i], input, step.names, entries[i]));
    }
}

/// The code of a block that goes on at another one is that of its body, one push of the remapped
/// values, in order, and then the label of the block that follows and the code of that block, or
/// else a jump to the label of the block.
pub proof fn blocks_go_on_at_their_target(
    input: FunctionInput,
    names: Names,
    block_id: BlockId,
    target: BlockId,
    remapping: VarRemapping,
)
    requires
        code::block_code(input, names, block_id) is Some,
        code::block_code(input, names, block_id)->0.result is Ok,
        input.lowered.blocks@[block_id.0 as int].end == FlatBlockEnd::Goto(target, remapping),
    ensures
        ({
            let block = input.lowered.blocks@[block_id.0 as int];
            let body = code::body_code(input, names, block_id, block);
            let step = code::block_code(input, names, block_id)->0;
            let rest = step.statements.skip(body.statements.len() as int);
            let mapped = meaning::after_mentions(
                body.names,
                meaning::remapping_mentions(remapping@),
            );
            let named = meaning::after_label(mapped, target);
            let label = named.block_labels[target];
            let next = code::block_code(input, named, target);
            &&& body.result is Ok
            &&& step.statements == body.statements + rest
            &&& rest.len() >= 2
            &&& rest[0] is PushValues
            &&& meaning::are_remapped(input, mapped, remapping@, rest[0]->PushValues_0)
            &&& if target.0 == block_id.0 + 1 {
                &&& rest[1] == StatementView::Label(label)
                &&& next is Some
                &&& next->0.result is Ok
                &&& rest.skip(2) == next->0.statements
                &&& step.names == next->0.names
            } else {
                &&& rest.len() == 2
                &&& rest[1] == meaning::jumped(label)
                &&& step.names == named
            }
        }),
{
    lemma_body_and_end(input, names, block_id);
    let block = input.lowered.blocks@[block_id.0 as int];
    let body = code::body_code(input, names, block_id, block);
    let step = code::block_code(input, names, block_id)->0;
    let values = code::remapped_values(input, body.names, remapping@)->0;
    let pushes = code::remapping_code(input, body.names, remapping@)->0;
    let named = pushes.names.with_block_label(target);
    let rest = step.statements.skip(body.statements.len() as int);
    growth::lemma_remapped_values_statements(input, body.names, remapping@);
    remappings_name_in_order(input, body.names, remapping@);
    remappings_remap(input, body.names, remapping@);
    assert(pushes.statements =~= seq![StatementView::PushValues(values.value())]);
    assert(named == meaning::after_label(pushes.names, target));
    if target.0 == block_id.0 + 1 {
        let next = code::block_code(input, named, target)->0;
        assert(code::all_blocks(input)(named, target) is Some);
        assert(rest =~= seq![
            StatementView::PushValues(values.value()),
            StatementView::Label(pushes.names.block_label(target)),
        ] + next.statements);
        assert(rest.skip(2) =~= next.statements);
    } else {
        assert(rest =~= seq![
            StatementView::PushValues(values.value()),
            meaning::jumped(pushes.names.block_label(target)),
        ]);
    }
}

/// The block of each arm is generated, one after the other.
#[verifier::opaque]
pub open spec fn are_arm_blocks(
    input: FunctionInput,
    first: Names,
    arms: Seq<MatchArm>,
    blocks: Seq<Emitted<()>>,
) -> bool {
    &&& blocks.len() == arms.len()
    &&& forall|i: int|
        #![trigger arms[i]]
        #![trigger blocks[i]]
        0 <= i < arms.len() ==> {
            &&& code::block_code(
                input,
                if i == 0 {
                    first
                } else {
                    blocks[i - 1].names
                },
                arms[i].block_id,
            ) == Some(blocks[i])
            &&& blocks[i].result is Ok
        }
}

/// The statements of each.
pub open spec fn codes(blocks: Seq<Emitted<()>>) -> Seq<Seq<StatementView>> {
    Seq::new(blocks.len(), |i: int| blocks[i].statements)
}

/// The code is that of a match: the inputs are copied as needed, the libfunc is invoked on them,
/// with one branch for each arm, the arms follow in order, and the label of the end comes last.
#[verifier::opaque]
pub open spec fn is_match(
    input: FunctionInput,
    start: Names,
    names: Names,
    location: StatementLocation,
    inputs: Seq<VariableId>,
    libfunc_id: LibfuncId,
    arms: Seq<MatchArm>,
    statements: Seq<StatementView>,
    blocks: Seq<Emitted<()>>,
) -> bool {
    let introduced = meaning::after_mentions(
        meaning::after_match_labels(start, arms.len()),
        meaning::arm_mentions(arms),
    );
    let branched = meaning::after_mentions(
        introduced,
        meaning::ready_mentions(input, location, inputs),
    );
    let copies = meaning::copied_inputs(input, location, inputs.len()).len() as int;
    &&& arms.len() > 0
    &&& copies < statements.len()
    &&& statements[copies] is Invocation
    &&& statements[copies]->libfunc_id == libfunc_id
    &&& meaning::are_arguments(
        input,
        introduced,
        branched,
        location,
        inputs,
        statements.take(copies),
        statements[copies]->args,
    )
    &&& meaning::are_branches(start, branched, arms, statements[copies]->branches)
    &&& are_arm_blocks(input, branched, arms, blocks)
    &&& statements.skip(copies + 1) == meaning::joined_arms(start, codes(blocks)).push(
        StatementView::Label(meaning::match_label(start, arms.len() as int)),
    )
    &&& names == blocks.last().names
}

/// One more arm comes to one more block.
proof fn lemma_one_more_arm(
    input: FunctionInput,
    first: Names,
    arms: Seq<MatchArm>,
    earlier: Seq<Emitted<()>>,
    block: Emitted<()>,
)
    requires
        arms.len() > 0,
        are_arm_blocks(input, first, arms.drop_last(), earlier),
        code::block_code(
            input,
            if arms.len() == 1 {
                first
            } else {
                earlier.last().names
            },
            arms.last().block_id,
        ) == Some(block),
        block.result is Ok,
    ensures
        are_arm_blocks(input, first, arms, earlier.push(block)),
{
    reveal(are_arm_blocks);
    let shorter = arms.drop_last();
    let blocks = earlier.push(block);
    assert forall|i: int| #![trigger arms[i]] 0 <= i < arms.len() implies {
        &&& code::block_code(
            input,
            if i == 0 {
                first
            } else {
                blocks[i - 1].names
            },
            arms[i].block_id,
        ) == Some(blocks[i])
        &&& blocks[i].result is Ok
    } by {
        if i > 0 {
            assert(blocks[i - 1] == earlier[i - 1]);
        }
        if i < shorter.len() {
            assert(blocks[i] == earlier[i]);
            assert(arms[i] == shorter[i]);
        } else {
            assert(blocks[i] == block);
            assert(arms[i] == arms.last());
        }
    }
}

/// The code of one more arm comes after that of the others.
proof fn lemma_join_one_more_arm(
    start: Names,
    earlier: Seq<Emitted<()>>,
    block: Emitted<()>,
    before: Seq<StatementView>,
)
    requires
        before == meaning::joined_arms(start, codes(earlier)),
    ensures
        meaning::joined_arms(start, codes(earlier.push(block))) == before + code::arm_head(
            start,
            earlier.len() as int,
        ) + block.statements,
{
    let all = codes(earlier.push(block));
    assert(all.drop_last() =~= codes(earlier));
    assert(all.last() == block.statements);
    if earlier.len() == 0 {
        assert(before =~= Seq::<StatementView>::empty());
        assert(before + code::arm_head(start, 0) =~= code::arm_head(start, 0));
    }
}

/// The arms of a match come to one block each.
proof fn lemma_arm_blocks(
    input: FunctionInput,
    start: Names,
    first: Names,
    arms: Seq<MatchArm>,
) -> (blocks: Seq<Emitted<()>>)
    requires
        code::arms_code(start, first, arms, code::all_blocks(input)) is Some,
        code::arms_code(start, first, arms, code::all_blocks(input))->0.result is Ok,
    ensures
        blocks.len() == arms.len(),
        are_arm_blocks(input, first, arms, blocks),
        meaning::joined_arms(start, codes(blocks)) == code::arms_code(
            start,
            first,
            arms,
            code::all_blocks(input),
        )->0.statements,
        code::arms_code(start, first, arms, code::all_blocks(input))->0.names == if arms.len()
            == 0 {
            first
        } else {
            blocks.last().names
        },
    decreases arms.len(),
{
    if arms.len() == 0 {
        let none = Seq::<Emitted<()>>::empty();
        assert(are_arm_blocks(input, first, arms, none)) by {
            reveal(are_arm_blocks);
        }
        none
    } else {
        let all = code::all_blocks(input);
        let step = code::arms_code(start, first, arms, all)->0;
        let before = code::arms_code(start, first, arms.drop_last(), all)->0;
        let earlier = lemma_arm_blocks(input, start, first, arms.drop_last());
        let block = all(before.names, arms.last().block_id)->0;
        assert(all(before.names, arms.last().block_id) is Some);
        assert(code::block_code(input, before.names, arms.last().block_id) == Some(block));
        lemma_one_more_arm(input, first, arms, earlier, block);
        lemma_join_one_more_arm(start, earlier, block, before.statements);
        earlier.push(block)
    }
}

/// Arms name the variables that they introduce in order.
proof fn lemma_arm_mentions(names: Names, arms: Seq<MatchArm>)
    ensures
        meaning::after_mentions(names, meaning::arm_mentions(arms)) == names.with_variables(
            code::arm_variables(arms),
        ),
    decreases arms.len(),
{
    if arms.len() > 0 {
        let shorter = arms.drop_last();
        lemma_arm_mentions(names, shorter);
        meaning_laws::lemma_mentions_split(
            names,
            meaning::arm_mentions(shorter),
            meaning::each_mentioned(arms.last().var_ids@),
        );
        meaning_laws::lemma_each_mentioned(
            names.with_variables(code::arm_variables(shorter)),
            arms.last().var_ids@,
        );
        names::lemma_with_variables_split(
            names,
            code::arm_variables(shorter),
            arms.last().var_ids@,
        );
    }
}

/// The branches of a match go to its arms.
proof fn lemma_branches(start: Names, arms: Seq<MatchArm>, later: Names)
    requires
        later.extends(code::match_names(start, arms)),
    ensures
        meaning::are_branches(start, later, arms, code::match_branches(start, arms)),
{
    reveal(meaning::are_branches);
    let labelled = start.with_fresh_labels(arms.len());
    let introduced = code::match_names(start, arms);
    let branches = code::match_branches(start, arms);
    growth::lemma_arm_variables(labelled, arms, 0);
    assert forall|i: int| #![trigger arms[i]] 0 <= i < arms.len() implies {
        &&& branches[i].target == if i == 0 {
            GenBranchTarget::Fallthrough
        } else {
            GenBranchTarget::Statement(meaning::match_label(start, i))
        }
        &&& meaning::are_named(later, arms[i].var_ids@, branches[i].results)
    } by {
        let vars = arms[i].var_ids@;
        assert forall|j: int| 0 <= j < vars.len() implies introduced.variables.contains_key(
            SierraGenVar::LoweringVar(#[trigger] vars[j]),
        ) && later.variables.contains_key(SierraGenVar::LoweringVar(vars[j])) by {
            assert(introduced.variables.contains_key(
                SierraGenVar::LoweringVar(arms[i].var_ids@[j]),
            ));
            names::lemma_extends_variable(
                introduced,
                later,
                SierraGenVar::LoweringVar(vars[j]),
            );
        }
        names::lemma_lookup_extends(introduced, later, vars);
        meaning_laws::lemma_lookup_named(later, vars);
    }
}

/// The code of a match is laid out as a match.
proof fn lemma_match(
    input: FunctionInput,
    start: Names,
    location: StatementLocation,
    inputs: Seq<VariableId>,
    libfunc_id: Maybe<LibfuncId>,
    arms: Seq<MatchArm>,
) -> (blocks: Seq<Emitted<()>>)
    requires
        code::match_code(
            input,
            start,
            location,
            inputs,
            libfunc_id,
            arms,
            code::all_blocks(input),
        ) is Some,
        code::match_code(
            input,
            start,
            location,
            inputs,
            libfunc_id,
            arms,
            code::all_blocks(input),
        )->0.result is Ok,
    ensures
        libfunc_id is Ok,
        ({
            let step = code::match_code(
                input,
                start,
                location,
                inputs,
                libfunc_id,
                arms,
                code::all_blocks(input),
            )->0;
            is_match(
                input,
                start,
                step.names,
                location,
                inputs,
                libfunc_id->Ok_0,
                arms,
                step.statements,
                blocks,
            )
        }),
{
    reveal(is_match);
    let all = code::all_blocks(input);
    let step = code::match_code(input, start, location, inputs, libfunc_id, arms, all)->0;
    let labelled = start.with_fresh_labels(arms.len());
    let introduced = code::match_names(start, arms);
    let args = code::arguments_code(input, introduced, location, inputs);
    let branching = code::branching_code(input, start, location, inputs, libfunc_id, arms);
    let code = code::arms_code(start, branching.names, arms, all)->0;
    let end = StatementView::Label(start.label_ahead((arms.len() - 1) as nat));
    assert(labelled == meaning::after_match_labels(start, arms.len()));
    lemma_arm_mentions(labelled, arms);
    meaning_laws::arguments_stand_for_inputs(input, introduced, location, inputs);
    meaning_laws::arguments_name_in_order(input, introduced, location, inputs);
    growth::lemma_arguments(input, introduced, location, inputs);
    let blocks = lemma_arm_blocks(input, start, branching.names, arms);
    let copies = meaning::copied_inputs(input, location, inputs.len()).len() as int;
    let branches = code::match_branches(start, arms);
    let invocation = StatementView::Invocation {
        libfunc_id: libfunc_id->Ok_0,
        args: args.value(),
        branches,
    };
    assert(args.statements.len() == copies) by {
        reveal(meaning::are_arguments);
    }
    assert(step.statements =~= args.statements + seq![invocation] + code.statements.push(end));
    assert(step.statements.take(copies) =~= args.statements);
    assert(step.statements[copies] == invocation);
    assert(step.statements.skip(copies + 1) =~= code.statements.push(end));
    lemma_branches(start, arms, branching.names);
    blocks
}

/// The code of a block that ends in a match on a libfunc is that of its body and then that of the
/// match: the libfunc is invoked on the inputs, in order, and there is one branch for each arm.
pub proof fn blocks_match_on_libfuncs(
    input: FunctionInput,
    names: Names,
    block_id: BlockId,
    info: MatchExternInfo,
)
    requires
        code::block_code(input, names, block_id) is Some,
        code::block_code(input, names, block_id)->0.result is Ok,
        input.lowered.blocks@[block_id.0 as int].end == (FlatBlockEnd::Match {
            info: MatchInfo::Extern(info),
        }),
    ensures
        ({
            let block = input.lowered.blocks@[block_id.0 as int];
            let body = code::body_code(input, names, block_id, block);
            let step = code::block_code(input, names, block_id)->0;
            let rest = step.statements.skip(body.statements.len() as int);
            &&& body.result is Ok
            &&& step.statements == body.statements + rest
            &&& exists|blocks: Seq<Emitted<()>>| #[trigger]
                is_match(
                    input,
                    body.names,
                    step.names,
                    meaning::place_of_end(block_id, block),
                    info.inputs@,
                    LibfuncId::Function { function: info.function },
                    info.arms@,
                    rest,
                    blocks,
                )
        }),
{
    lemma_body_and_end(input, names, block_id);
    let block = input.lowered.blocks@[block_id.0 as int];
    let body = code::body_code(input, names, block_id, block);
    let step = code::block_code(input, names, block_id)->0;
    let location = meaning::place_of_end(block_id, block);
    let libfunc_id: Maybe<LibfuncId> = Ok(LibfuncId::Function { function: info.function });
    let blocks = lemma_match(input, body.names, location, info.inputs@, libfunc_id, info.arms@);
    assert(is_match(
        input,
        body.names,
        step.names,
        location,
        info.inputs@,
        libfunc_id->Ok_0,
        info.arms@,
        step.statements.skip(body.statements.len() as int),
        blocks,
    ));
}

/// The code of a block that ends in a match on an enum is that of its body and then that of the
/// match: the enum is matched with its own type, and there is one branch for each arm.
pub proof fn blocks_match_on_enums(
    input: FunctionInput,
    names: Names,
    block_id: BlockId,
    info: MatchEnumInfo,
)
    requires
        code::block_code(input, names, block_id) is Some,
        code::block_code(input, names, block_id)->0.result is Ok,
        input.lowered.blocks@[block_id.0 as int].end == (FlatBlockEnd::Match {
            info: MatchInfo::Enum(info),
        }),
    ensures
        ({
            let block = input.lowered.blocks@[block_id.0 as int];
            let body = code::body_code(input, names, block_id, block);
            let step = code::block_code(input, names, block_id)->0;
            let rest = step.statements.skip(body.statements.len() as int);
            &&& body.result is Ok
            &&& step.statements == body.statements + rest
            &&& meaning::type_of(input, info.input) is Ok
            &&& exists|blocks: Seq<Emitted<()>>| #[trigger]
                is_match(
                    input,
                    body.names,
                    step.names,
                    meaning::place_of_end(block_id, block),
                    seq![info.input],
                    LibfuncId::MatchEnum { ty: meaning::type_of(input, info.input)->Ok_0 },
                    info.arms@,
                    rest,
                    blocks,
                )
        }),
{
    lemma_body_and_end(input, names, block_id);
    let block = input.lowered.blocks@[block_id.0 as int];
    let body = code::body_code(input, names, block_id, block);
    let step = code::block_code(input, names, block_id)->0;
    let location = meaning::place_of_end(block_id, block);
    let libfunc_id = code::match_enum_libfunc(input, info.input);
    let blocks = lemma_match(
        input,
        body.names,
        location,
        seq![info.input],
        libfunc_id,
        info.arms@,
    );
    assert(is_match(
        input,
        body.names,
        step.names,
        location,
        seq![info.input],
        libfunc_id->Ok_0,
        info.arms@,
        step.statements.skip(body.statements.len() as int),
        blocks,
    ));
}

} // verus!
