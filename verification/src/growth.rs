//! Every step of the generation only gives more names, and a list of steps that stops early is the
//! same however long the list goes on.

use vstd::prelude::*;

use crate::code;
use crate::code::BlockCode;
use crate::context::FunctionInput;
use crate::libfunc::{LibfuncId, Maybe};
use crate::lifetime::{DropLocation, SierraGenVar};
use crate::lowering::{
    BlockId, FlatBlock, FlatBlockEnd, MatchArm, MatchInfo, Statement, StatementLocation,
    VariableId,
};
use crate::names;
use crate::names::Names;
use crate::pre_sierra::{StatementView, VarId};

verus! {

broadcast use crate::names::lemma_extends_reflexive;

/// Dropping variables gives more names.
pub proof fn lemma_drops(input: FunctionInput, names: Names, vars: Seq<SierraGenVar>)
    ensures
        code::drops_code(input, names, vars).names.extends(names),
    decreases vars.len(),
{
    if vars.len() > 0 {
        let before = code::drops_code(input, names, vars.drop_last());
        lemma_drops(input, names, vars.drop_last());
        names::lemma_with_variable(before.names, vars.last());
        names::lemma_extends_transitive(
            names,
            before.names,
            before.names.with_variable(vars.last()),
        );
    }
}

/// Dropping the first of the variables comes before dropping all.
pub proof fn lemma_drops_prefix(
    input: FunctionInput,
    names: Names,
    vars: Seq<SierraGenVar>,
    count: int,
)
    requires
        0 <= count <= vars.len(),
    ensures
        code::drops_code(input, names, vars).names.extends(
            code::drops_code(input, names, vars.take(count)).names,
        ),
        code::drops_code(input, names, vars.take(count)).result is Err ==> code::drops_code(
            input,
            names,
            vars,
        ) == code::drops_code(input, names, vars.take(count)),
    decreases vars.len(),
{
    if count == vars.len() {
        assert(vars.take(count) == vars);
    } else {
        let before = code::drops_code(input, names, vars.drop_last());
        let prefix = code::drops_code(input, names, vars.take(count));
        lemma_drops_prefix(input, names, vars.drop_last(), count);
        assert(vars.drop_last().take(count) == vars.take(count));
        names::lemma_with_variable(before.names, vars.last());
        names::lemma_extends_transitive(
            prefix.names,
            before.names,
            before.names.with_variable(vars.last()),
        );
    }
}

/// Getting an input ready gives more names.
pub proof fn lemma_argument(
    input: FunctionInput,
    names: Names,
    location: StatementLocation,
    idx: int,
    var: VariableId,
)
    ensures
        code::argument_code(input, names, location, idx, var).names.extends(names),
{
    let named = names.with_variable(SierraGenVar::LoweringVar(var));
    names::lemma_with_variable(names, SierraGenVar::LoweringVar(var));
    names::lemma_with_fresh_variable(named);
    names::lemma_extends_transitive(names, named, named.with_fresh_variable());
}

/// Getting the first of the inputs ready comes before getting all ready. With no input, that is:
/// getting inputs ready gives more names.
pub proof fn lemma_arguments_prefix(
    input: FunctionInput,
    names: Names,
    location: StatementLocation,
    vars: Seq<VariableId>,
    count: int,
)
    requires
        0 <= count <= vars.len(),
    ensures
        code::arguments_code(input, names, location, vars).names.extends(
            code::arguments_code(input, names, location, vars.take(count)).names,
        ),
        code::arguments_code(input, names, location, vars.take(count)).result is Err
            ==> code::arguments_code(input, names, location, vars) == code::arguments_code(
                input,
                names,
                location,
                vars.take(count),
            ),
    decreases vars.len(),
{
    if count == vars.len() {
        assert(vars.take(count) == vars);
    } else {
        let before = code::arguments_code(input, names, location, vars.drop_last());
        let prefix = code::arguments_code(input, names, location, vars.take(count));
        let next = code::argument_code(
            input,
            before.names,
            location,
            vars.len() - 1,
            vars.last(),
        );
        lemma_arguments_prefix(input, names, location, vars.drop_last(), count);
        assert(vars.drop_last().take(count) == vars.take(count));
        lemma_argument(input, before.names, location, vars.len() - 1, vars.last());
        names::lemma_extends_transitive(prefix.names, before.names, next.names);
    }
}

/// Getting inputs ready gives more names.
pub proof fn lemma_arguments(
    input: FunctionInput,
    names: Names,
    location: StatementLocation,
    vars: Seq<VariableId>,
)
    ensures
        code::arguments_code(input, names, location, vars).names.extends(names),
{
    assert(vars.take(0) == Seq::<VariableId>::empty());
    lemma_arguments_prefix(input, names, location, vars, 0);
}

/// A list of one input.
pub proof fn lemma_one_argument(
    input: FunctionInput,
    names: Names,
    location: StatementLocation,
    var: VariableId,
)
    ensures
        ({
            let one = code::argument_code(input, names, location, 0, var);
            let list = code::arguments_code(input, names, location, seq![var]);
            &&& list.names == one.names
            &&& list.statements == one.statements
            &&& list.result is Ok <==> one.result is Ok
            &&& one.result is Ok ==> list.value() == seq![one.value()]
        }),
{
    let one = code::argument_code(input, names, location, 0, var);
    reveal_with_fuel(code::arguments_code, 2);
    assert(seq![var].drop_last() == Seq::<VariableId>::empty());
    assert(Seq::<StatementView>::empty() + one.statements == one.statements);
    if one.result is Ok {
        assert(Seq::<VarId>::empty().push(one.value()) == seq![one.value()]);
    }
}

/// Pushing an input gives more names.
pub proof fn lemma_pushed_input(
    input: FunctionInput,
    names: Names,
    location: StatementLocation,
    idx: int,
    var: VariableId,
)
    ensures
        code::pushed_input(input, names, location, idx, var).names.extends(names),
        code::pushed_input(input, names, location, idx, var).names.extends(
            names.with_fresh_variable(),
        ),
{
    let allocated = names.with_fresh_variable();
    names::lemma_with_fresh_variable(names);
    names::lemma_with_variable(allocated, SierraGenVar::LoweringVar(var));
    names::lemma_extends_transitive(
        names,
        allocated,
        allocated.with_variable(SierraGenVar::LoweringVar(var)),
    );
}

/// Pushing the first of the inputs comes before pushing all.
pub proof fn lemma_pushed_inputs_prefix(
    input: FunctionInput,
    names: Names,
    location: StatementLocation,
    vars: Seq<VariableId>,
    count: int,
)
    requires
        0 <= count <= vars.len(),
    ensures
        code::pushed_inputs(input, names, location, vars).names.extends(
            code::pushed_inputs(input, names, location, vars.take(count)).names,
        ),
        code::pushed_inputs(input, names, location, vars.take(count)).result is Err
            ==> code::pushed_inputs(input, names, location, vars) == code::pushed_inputs(
                input,
                names,
                location,
                vars.take(count),
            ),
    decreases vars.len(),
{
    if count == vars.len() {
        assert(vars.take(count) == vars);
    } else {
        let before = code::pushed_inputs(input, names, location, vars.drop_last());
        let prefix = code::pushed_inputs(input, names, location, vars.take(count));
        let next = code::pushed_input(
            input,
            before.names,
            location,
            vars.len() - 1,
            vars.last(),
        );
        lemma_pushed_inputs_prefix(input, names, location, vars.drop_last(), count);
        assert(vars.drop_last().take(count) == vars.take(count));
        lemma_pushed_input(input, before.names, location, vars.len() - 1, vars.last());
        names::lemma_extends_transitive(prefix.names, before.names, next.names);
    }
}

/// Pushing inputs gives more names.
pub proof fn lemma_pushed_inputs(
    input: FunctionInput,
    names: Names,
    location: StatementLocation,
    vars: Seq<VariableId>,
)
    ensures
        code::pushed_inputs(input, names, location, vars).names.extends(names),
{
    assert(vars.take(0) == Seq::<VariableId>::empty());
    lemma_pushed_inputs_prefix(input, names, location, vars, 0);
}

/// Collecting the pushes of inputs takes no statement. There is one push for each input.
pub proof fn lemma_pushed_inputs_values(
    input: FunctionInput,
    names: Names,
    location: StatementLocation,
    vars: Seq<VariableId>,
)
    ensures
        code::pushed_inputs(input, names, location, vars).statements == Seq::<
            StatementView,
        >::empty(),
        code::pushed_inputs(input, names, location, vars).result is Ok ==> code::pushed_inputs(
            input,
            names,
            location,
            vars,
        ).value().len() == vars.len(),
    decreases vars.len(),
{
    if vars.len() > 0 {
        lemma_pushed_inputs_values(input, names, location, vars.drop_last());
        assert(Seq::<StatementView>::empty() + Seq::<StatementView>::empty() == Seq::<
            StatementView,
        >::empty());
    }
}

/// A statement gives more names.
pub proof fn lemma_statement(
    input: FunctionInput,
    names: Names,
    statement: Statement,
    location: StatementLocation,
)
    ensures
        code::statement_code(input, names, statement, location).names.extends(names),
{
    let after = code::statement_code(input, names, statement, location).names;
    match statement {
        Statement::Literal(s) => {
            names::lemma_with_variable(names, SierraGenVar::LoweringVar(s.output));
        },
        Statement::Call(s) => {
            let middle = names.with_variables(s.inputs@);
            let named = middle.with_variables(s.outputs@);
            names::lemma_with_variables(names, s.inputs@);
            names::lemma_with_variables(middle, s.outputs@);
            names::lemma_extends_transitive(names, middle, named);
            lemma_pushed_inputs(input, named, location, s.inputs@);
            lemma_arguments(input, named, location, s.inputs@);
            names::lemma_extends_transitive(names, named, after);
        },
        Statement::EnumConstruct(s) => {
            let arg = code::argument_code(input, names, location, 0, s.input);
            lemma_argument(input, names, location, 0, s.input);
            names::lemma_with_variable(arg.names, SierraGenVar::LoweringVar(s.output));
            names::lemma_extends_transitive(
                names,
                arg.names,
                arg.names.with_variable(SierraGenVar::LoweringVar(s.output)),
            );
        },
        Statement::StructConstruct(s) => {
            let args = code::arguments_code(input, names, location, s.inputs@);
            lemma_arguments(input, names, location, s.inputs@);
            names::lemma_with_variable(args.names, SierraGenVar::LoweringVar(s.output));
            names::lemma_extends_transitive(
                names,
                args.names,
                args.names.with_variable(SierraGenVar::LoweringVar(s.output)),
            );
        },
        Statement::StructDestructure(s) => {
            let arg = code::argument_code(input, names, location, 0, s.input);
            lemma_argument(input, names, location, 0, s.input);
            names::lemma_with_variables(arg.names, s.outputs@);
            names::lemma_extends_transitive(
                names,
                arg.names,
                arg.names.with_variables(s.outputs@),
            );
        },
        Statement::Snapshot(s) => {
            let named = names.with_variable(SierraGenVar::LoweringVar(s.input));
            let outputs = seq![s.output_original, s.output_snapshot];
            names::lemma_with_variable(names, SierraGenVar::LoweringVar(s.input));
            names::lemma_with_variables(named, outputs);
            names::lemma_extends_transitive(names, named, named.with_variables(outputs));
        },
        Statement::Desnap(s) => {
            let named = names.with_variable(SierraGenVar::LoweringVar(s.input));
            names::lemma_with_variable(names, SierraGenVar::LoweringVar(s.input));
            names::lemma_with_variable(named, SierraGenVar::LoweringVar(s.output));
            names::lemma_extends_transitive(
                names,
                named,
                named.with_variable(SierraGenVar::LoweringVar(s.output)),
            );
        },
    }
}

/// The first of the statements come before all.
pub proof fn lemma_statements_prefix(
    input: FunctionInput,
    names: Names,
    block_id: BlockId,
    statements: Seq<Statement>,
    count: int,
)
    requires
        0 <= count <= statements.len(),
    ensures
        code::statements_code(input, names, block_id, statements).names.extends(
            code::statements_code(input, names, block_id, statements.take(count)).names,
        ),
        code::statements_code(input, names, block_id, statements.take(count)).result is Err
            ==> code::statements_code(input, names, block_id, statements) == code::statements_code(
                input,
                names,
                block_id,
                statements.take(count),
            ),
    decreases statements.len(),
{
    if count == statements.len() {
        assert(statements.take(count) == statements);
    } else {
        let location = (block_id, (statements.len() - 1) as usize);
        let before = code::statements_code(input, names, block_id, statements.drop_last());
        let prefix = code::statements_code(input, names, block_id, statements.take(count));
        let next = code::statement_code(input, before.names, statements.last(), location);
        let drops = code::drops_at_code(
            input,
            next.names,
            DropLocation::PostStatement(location),
        );
        lemma_statements_prefix(input, names, block_id, statements.drop_last(), count);
        assert(statements.drop_last().take(count) == statements.take(count));
        lemma_statement(input, before.names, statements.last(), location);
        names::lemma_extends_transitive(prefix.names, before.names, next.names);
        lemma_drops(input, next.names, input.drops_at(DropLocation::PostStatement(location)));
        names::lemma_extends_transitive(prefix.names, next.names, drops.names);
    }
}

/// Statements give more names.
pub proof fn lemma_statements(
    input: FunctionInput,
    names: Names,
    block_id: BlockId,
    statements: Seq<Statement>,
)
    ensures
        code::statements_code(input, names, block_id, statements).names.extends(names),
{
    assert(statements.take(0) == Seq::<Statement>::empty());
    lemma_statements_prefix(input, names, block_id, statements, 0);
}

/// The body of a block gives more names.
pub proof fn lemma_body(input: FunctionInput, names: Names, block_id: BlockId, block: FlatBlock)
    ensures
        code::body_code(input, names, block_id, block).names.extends(names),
{
    let begin = DropLocation::BeginningOfBlock(block_id);
    let end = DropLocation::PostStatement(code::end_location(block_id, block));
    let first = code::drops_at_code(input, names, begin);
    let statements = code::statements_code(input, first.names, block_id, block.statements@);
    let last = code::drops_at_code(input, statements.names, end);
    lemma_drops(input, names, input.drops_at(begin));
    lemma_statements(input, first.names, block_id, block.statements@);
    names::lemma_extends_transitive(names, first.names, statements.names);
    lemma_drops(input, statements.names, input.drops_at(end));
    names::lemma_extends_transitive(names, statements.names, last.names);
}

/// Pushing the first of the remapped values comes before pushing all.
pub proof fn lemma_remapped_values_prefix(
    input: FunctionInput,
    names: Names,
    entries: Seq<(VariableId, VariableId)>,
    count: int,
)
    requires
        0 <= count <= entries.len(),
        code::remapped_values(input, names, entries) is Some,
    ensures
        code::remapped_values(input, names, entries.take(count)) is Some,
        code::remapped_values(input, names, entries)->0.names.extends(
            code::remapped_values(input, names, entries.take(count))->0.names,
        ),
        code::remapped_values(input, names, entries.take(count))->0.result is Err
            ==> code::remapped_values(input, names, entries) == code::remapped_values(
                input,
                names,
                entries.take(count),
            ),
    decreases entries.len(),
{
    if count == entries.len() {
        assert(entries.take(count) == entries);
    } else {
        let before = code::remapped_values(input, names, entries.drop_last())->0;
        let output = SierraGenVar::LoweringVar(entries.last().0);
        let inner_output = SierraGenVar::LoweringVar(entries.last().1);
        let named = before.names.with_variable(inner_output);
        lemma_remapped_values_prefix(input, names, entries.drop_last(), count);
        assert(entries.drop_last().take(count) == entries.take(count));
        let prefix = code::remapped_values(input, names, entries.take(count))->0;
        names::lemma_with_variable(before.names, inner_output);
        names::lemma_with_variable(named, output);
        names::lemma_extends_transitive(prefix.names, before.names, named);
        names::lemma_extends_transitive(prefix.names, named, named.with_variable(output));
    }
}

/// Collecting the pushes of remapped values takes no statement.
pub proof fn lemma_remapped_values_statements(
    input: FunctionInput,
    names: Names,
    entries: Seq<(VariableId, VariableId)>,
)
    requires
        code::remapped_values(input, names, entries) is Some,
    ensures
        code::remapped_values(input, names, entries)->0.statements == Seq::<
            StatementView,
        >::empty(),
    decreases entries.len(),
{
    if entries.len() > 0 {
        lemma_remapped_values_statements(input, names, entries.drop_last());
        assert(Seq::<StatementView>::empty() + Seq::<StatementView>::empty() == Seq::<
            StatementView,
        >::empty());
    }
}

/// Pushing the values of a remapping gives more names.
pub proof fn lemma_remapping(
    input: FunctionInput,
    names: Names,
    entries: Seq<(VariableId, VariableId)>,
)
    requires
        code::remapping_code(input, names, entries) is Some,
    ensures
        code::remapping_code(input, names, entries)->0.names.extends(names),
{
    assert(entries.take(0) == Seq::<(VariableId, VariableId)>::empty());
    lemma_remapped_values_prefix(input, names, entries, 0);
}

/// The variables of the first of the arms come before those of all, and all get a Sierra variable.
pub proof fn lemma_arm_variables(names: Names, arms: Seq<MatchArm>, count: int)
    requires
        0 <= count <= arms.len(),
    ensures
        names.with_variables(code::arm_variables(arms)).extends(
            names.with_variables(code::arm_variables(arms.take(count))),
        ),
        forall|i: int, j: int|
            0 <= i < arms.len() && 0 <= j < arms[i].var_ids@.len() ==> names.with_variables(
                code::arm_variables(arms),
            ).variables.contains_key(
                SierraGenVar::LoweringVar(#[trigger] arms[i].var_ids@[j]),
            ),
    decreases arms.len(),
{
    if arms.len() == 0 {
        assert(arms.take(count) == arms);
    } else {
        let first = code::arm_variables(arms.drop_last());
        let last = arms.last().var_ids@;
        let before = names.with_variables(first);
        let after = names.with_variables(code::arm_variables(arms));
        names::lemma_with_variables_split(names, first, last);
        names::lemma_with_variables(before, last);
        if count == arms.len() {
            assert(arms.take(count) == arms);
            lemma_arm_variables(names, arms.drop_last(), 0);
        } else {
            lemma_arm_variables(names, arms.drop_last(), count);
            assert(arms.drop_last().take(count) == arms.take(count));
            names::lemma_extends_transitive(
                names.with_variables(code::arm_variables(arms.take(count))),
                before,
                after,
            );
        }
        assert forall|i: int, j: int|
            0 <= i < arms.len() && 0 <= j
                < arms[i].var_ids@.len() implies after.variables.contains_key(
            SierraGenVar::LoweringVar(#[trigger] arms[i].var_ids@[j]),
        ) by {
            if i < arms.len() - 1 {
                assert(arms.drop_last()[i] == arms[i]);
                names::lemma_extends_variable(
                    before,
                    after,
                    SierraGenVar::LoweringVar(arms.drop_last()[i].var_ids@[j]),
                );
            } else {
                assert(last[j] == arms[i].var_ids@[j]);
            }
        }
    }
}

/// The labels and the variables of a match are more names.
pub proof fn lemma_match_names(names: Names, arms: Seq<MatchArm>)
    ensures
        code::match_names(names, arms).extends(names),
        code::match_names(names, arms).extends(names.with_fresh_labels(arms.len())),
{
    let labelled = names.with_fresh_labels(arms.len());
    names::lemma_with_fresh_labels(names, arms.len());
    names::lemma_with_variables(labelled, code::arm_variables(arms));
    names::lemma_extends_transitive(names, labelled, code::match_names(names, arms));
}

/// The invocation that a match branches on gives more names.
pub proof fn lemma_branching(
    input: FunctionInput,
    names: Names,
    location: StatementLocation,
    inputs: Seq<VariableId>,
    libfunc_id: Maybe<LibfuncId>,
    arms: Seq<MatchArm>,
)
    ensures
        code::branching_code(input, names, location, inputs, libfunc_id, arms).names.extends(
            names,
        ),
        code::branching_code(input, names, location, inputs, libfunc_id, arms).names.extends(
            code::match_names(names, arms),
        ),
{
    let named = code::match_names(names, arms);
    lemma_match_names(names, arms);
    lemma_arguments(input, named, location, inputs);
    names::lemma_extends_transitive(
        names,
        named,
        code::arguments_code(input, named, location, inputs).names,
    );
}

/// The code of blocks only gives more names.
pub open spec fn grows(blocks: BlockCode) -> bool {
    forall|names: Names, block_id: BlockId|
        (#[trigger] blocks(names, block_id)) is Some ==> blocks(
            names,
            block_id,
        )->0.names.extends(names)
}

/// The code of the first of the arms comes before that of all.
pub proof fn lemma_arms_prefix(
    start: Names,
    names: Names,
    arms: Seq<MatchArm>,
    blocks: BlockCode,
    count: int,
)
    requires
        0 <= count <= arms.len(),
        grows(blocks),
        code::arms_code(start, names, arms, blocks) is Some,
    ensures
        code::arms_code(start, names, arms.take(count), blocks) is Some,
        code::arms_code(start, names, arms, blocks)->0.names.extends(
            code::arms_code(start, names, arms.take(count), blocks)->0.names,
        ),
        code::arms_code(start, names, arms.take(count), blocks)->0.result is Err
            ==> code::arms_code(start, names, arms, blocks) == code::arms_code(
                start,
                names,
                arms.take(count),
                blocks,
            ),
    decreases arms.len(),
{
    if count == arms.len() {
        assert(arms.take(count) == arms);
    } else {
        let before = code::arms_code(start, names, arms.drop_last(), blocks)->0;
        lemma_arms_prefix(start, names, arms.drop_last(), blocks, count);
        assert(arms.drop_last().take(count) == arms.take(count));
        let prefix = code::arms_code(start, names, arms.take(count), blocks)->0;
        let after = code::arms_code(start, names, arms, blocks)->0;
        names::lemma_extends_transitive(prefix.names, before.names, after.names);
    }
}

/// The code of one more arm is its head and its block, after the code of those before it.
pub proof fn lemma_one_more_arm(
    start: Names,
    names: Names,
    arms: Seq<MatchArm>,
    blocks: BlockCode,
    index: int,
)
    requires
        0 <= index < arms.len(),
        grows(blocks),
        code::arms_code(start, names, arms, blocks) is Some,
        code::arms_code(start, names, arms.take(index), blocks) is Some,
        code::arms_code(start, names, arms.take(index), blocks)->0.result is Ok,
    ensures
        ({
            let step = code::arms_code(start, names, arms, blocks)->0;
            let before = code::arms_code(start, names, arms.take(index), blocks)->0;
            let after = code::arms_code(start, names, arms.take(index + 1), blocks);
            let block = blocks(before.names, arms[index].block_id);
            &&& after is Some
            &&& block is Some
            &&& after->0.names == block->0.names
            &&& after->0.result == block->0.result
            &&& after->0.statements == before.statements + code::arm_head(start, index)
                + block->0.statements
            &&& step.names.extends(block->0.names)
            &&& block->0.result is Err ==> step == after->0
        }),
{
    lemma_arms_prefix(start, names, arms, blocks, index + 1);
    assert(arms.take(index + 1).drop_last() == arms.take(index));
    assert(arms.take(index + 1).last() == arms[index]);
}

/// Arms give more names.
pub proof fn lemma_arms(start: Names, names: Names, arms: Seq<MatchArm>, blocks: BlockCode)
    requires
        grows(blocks),
        code::arms_code(start, names, arms, blocks) is Some,
    ensures
        code::arms_code(start, names, arms, blocks)->0.names.extends(names),
{
    assert(arms.take(0) == Seq::<MatchArm>::empty());
    lemma_arms_prefix(start, names, arms, blocks, 0);
}

/// A match gives more names.
pub proof fn lemma_match(
    input: FunctionInput,
    names: Names,
    location: StatementLocation,
    inputs: Seq<VariableId>,
    libfunc_id: Maybe<LibfuncId>,
    arms: Seq<MatchArm>,
    blocks: BlockCode,
)
    requires
        grows(blocks),
        code::match_code(input, names, location, inputs, libfunc_id, arms, blocks) is Some,
    ensures
        code::match_code(
            input,
            names,
            location,
            inputs,
            libfunc_id,
            arms,
            blocks,
        )->0.names.extends(names),
{
    let branching = code::branching_code(input, names, location, inputs, libfunc_id, arms);
    lemma_branching(input, names, location, inputs, libfunc_id, arms);
    if branching.result is Ok {
        lemma_arms(names, branching.names, arms, blocks);
        names::lemma_extends_transitive(
            names,
            branching.names,
            code::arms_code(names, branching.names, arms, blocks)->0.names,
        );
    }
}

/// Going on at another block gives more names.
pub proof fn lemma_goto(
    input: FunctionInput,
    names: Names,
    block_id: BlockId,
    target: BlockId,
    entries: Seq<(VariableId, VariableId)>,
    blocks: BlockCode,
)
    requires
        grows(blocks),
        code::goto_code(input, names, block_id, target, entries, blocks) is Some,
    ensures
        code::goto_code(input, names, block_id, target, entries, blocks)->0.names.extends(names),
{
    let pushes = code::remapping_code(input, names, entries)->0;
    let named = pushes.names.with_block_label(target);
    lemma_remapping(input, names, entries);
    names::lemma_with_block_label(pushes.names, target);
    names::lemma_extends_transitive(names, pushes.names, named);
    if pushes.result is Ok && target.0 == block_id.0 + 1 {
        names::lemma_extends_transitive(names, named, blocks(named, target)->0.names);
    }
}

/// The end of a block gives more names.
pub proof fn lemma_end(
    input: FunctionInput,
    names: Names,
    block_id: BlockId,
    block: FlatBlock,
    blocks: BlockCode,
)
    requires
        grows(blocks),
        code::end_code(input, names, block_id, block, blocks) is Some,
    ensures
        code::end_code(input, names, block_id, block, blocks)->0.names.extends(names),
{
    let location = code::end_location(block_id, block);
    match block.end {
        FlatBlockEnd::NotSet => {},
        FlatBlockEnd::Return(vars) => {
            lemma_pushed_inputs(input, names, location, vars@);
        },
        FlatBlockEnd::Panic(_) => {},
        FlatBlockEnd::Goto(target, remapping) => {
            lemma_goto(input, names, block_id, target, remapping@, blocks);
        },
        FlatBlockEnd::Match { info: MatchInfo::Extern(info) } => {
            lemma_match(
                input,
                names,
                location,
                info.inputs@,
                Ok(LibfuncId::Function { function: info.function }),
                info.arms@,
                blocks,
            );
        },
        FlatBlockEnd::Match { info: MatchInfo::Enum(info) } => {
            lemma_match(
                input,
                names,
                location,
                seq![info.input],
                code::match_enum_libfunc(input, info.input),
                info.arms@,
                blocks,
            );
        },
    }
}

/// A block gives more names.
pub proof fn lemma_block_parts(
    input: FunctionInput,
    names: Names,
    block_id: BlockId,
    blocks: BlockCode,
)
    requires
        grows(blocks),
        code::block_parts(input, names, block_id, blocks) is Some,
    ensures
        code::block_parts(input, names, block_id, blocks)->0.names.extends(names),
{
    let block = input.lowered.blocks@[block_id.0 as int];
    let body = code::body_code(input, names, block_id, block);
    lemma_body(input, names, block_id, block);
    if body.result is Ok {
        lemma_end(input, body.names, block_id, block, blocks);
        names::lemma_extends_transitive(
            names,
            body.names,
            code::end_code(input, body.names, block_id, block, blocks)->0.names,
        );
    }
}

/// The code of blocks that are at most so deep gives more names.
pub proof fn lemma_blocks_within(input: FunctionInput, depth: nat)
    ensures
        grows(code::blocks_within(input, depth)),
    decreases depth,
{
    let blocks = code::blocks_within(input, depth);
    if depth > 0 {
        let less = code::blocks_within(input, (depth - 1) as nat);
        lemma_blocks_within(input, (depth - 1) as nat);
        assert forall|names: Names, block_id: BlockId| (
        #[trigger] blocks(names, block_id)) is Some implies blocks(
            names,
            block_id,
        )->0.names.extends(names) by {
            lemma_block_parts(input, names, block_id, less);
        }
    }
}

/// The code of the blocks of a function gives more names.
pub proof fn lemma_all_blocks(input: FunctionInput)
    ensures
        grows(code::all_blocks(input)),
{
    let blocks = code::all_blocks(input);
    assert forall|names: Names, block_id: BlockId| (
    #[trigger] blocks(names, block_id)) is Some implies blocks(
        names,
        block_id,
    )->0.names.extends(names) by {
        reveal(code::block_code);
        let depth = code::block_depth(input, names, block_id);
        lemma_blocks_within(input, depth);
        assert(code::blocks_within(input, depth)(names, block_id) is Some);
    }
}

} // verus!
