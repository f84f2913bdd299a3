//! What the code of a lowered function has to be, in terms of what is read and of the names given.

use vstd::prelude::*;

use crate::context::FunctionInput;
use crate::libfunc::{ConcreteTypeId, GenericFunctionId, LibfuncId, Maybe};
use crate::lifetime::{DropLocation, SierraGenVar, UseLocation};
use crate::lowering::{BlockId, FlatBlock, MatchArm, Statement, StatementLocation, VariableId};
use crate::names::Names;
use crate::pre_sierra::{
    BranchView, GenBranchTarget, LabelId, PushValue, StatementView, VarId,
};

verus! {

/// The Sierra type that is recorded for a variable, or for its local before it is initialized.
pub open spec fn recorded_type(input: FunctionInput, var: SierraGenVar) -> Maybe<ConcreteTypeId> {
    match var {
        SierraGenVar::LoweringVar(id) => input.lowered.variables@[id.0 as int].sierra_type,
        SierraGenVar::UninitializedLocal(
            id,
        ) => input.lowered.variables@[id.0 as int].uninitialized_sierra_type,
    }
}

/// The Sierra type that is recorded for a variable.
pub open spec fn type_of(input: FunctionInput, var: VariableId) -> Maybe<ConcreteTypeId> {
    input.lowered.variables@[var.0 as int].sierra_type
}

/// The variable that is the input of this number is used again after the place.
pub open spec fn used_again(input: FunctionInput, location: StatementLocation, idx: int) -> bool {
    !input.lifetime.last_use.map().contains_key(
        UseLocation { statement_location: location, idx: idx as usize },
    )
}

/// The variables that die at a place.
pub open spec fn dying_at(input: FunctionInput, location: DropLocation) -> Seq<SierraGenVar> {
    if input.lifetime.drops.map().contains_key(location) {
        input.lifetime.drops.map()[location]@
    } else {
        Seq::empty()
    }
}

/// The place of the end of a block.
pub open spec fn place_of_end(block_id: BlockId, block: FlatBlock) -> StatementLocation {
    (block_id, block.statements@.len() as usize)
}

/// An invocation of a libfunc that goes on with the next statement.
pub open spec fn invoked(
    libfunc_id: LibfuncId,
    args: Seq<VarId>,
    results: Seq<VarId>,
) -> StatementView {
    StatementView::Invocation {
        libfunc_id,
        args,
        branches: seq![BranchView { target: GenBranchTarget::Fallthrough, results }],
    }
}

/// A jump to a label.
pub open spec fn jumped(label: LabelId) -> StatementView {
    StatementView::Invocation {
        libfunc_id: LibfuncId::Jump,
        args: Seq::empty(),
        branches: seq![
            BranchView { target: GenBranchTarget::Statement(label), results: Seq::empty() },
        ],
    }
}

/// The inputs among the first `count` that have to be copied, in order.
pub open spec fn copied_inputs(
    input: FunctionInput,
    location: StatementLocation,
    count: nat,
) -> Seq<int>
    decreases count,
{
    if count == 0 {
        Seq::empty()
    } else {
        let before = copied_inputs(input, location, (count - 1) as nat);
        if used_again(input, location, count - 1) {
            before.push(count - 1)
        } else {
            before
        }
    }
}

/// The names after variables were mentioned, in this order, and new Sierra variables were asked for
/// in between. Who is mentioned for the first time gets the next number, and so does each new one.
pub open spec fn after_mentions(names: Names, mentions: Seq<Option<SierraGenVar>>) -> Names
    decreases mentions.len(),
{
    if mentions.len() == 0 {
        names
    } else {
        let before = after_mentions(names, mentions.drop_last());
        match mentions.last() {
            Some(var) => if before.variables.contains_key(var) {
                before
            } else {
                Names {
                    variables: before.variables.insert(var, VarId(before.next_variable as u64)),
                    block_labels: before.block_labels,
                    next_variable: before.next_variable + 1,
                    next_label: before.next_label,
                }
            },
            None => Names {
                variables: before.variables,
                block_labels: before.block_labels,
                next_variable: before.next_variable + 1,
                next_label: before.next_label,
            },
        }
    }
}

/// The Sierra variable that comes next.
pub open spec fn next_variable(names: Names) -> VarId {
    VarId(names.next_variable as u64)
}

/// The names after a block was given a label, unless it had one.
pub open spec fn after_label(names: Names, block: BlockId) -> Names {
    if names.block_labels.contains_key(block) {
        names
    } else {
        Names {
            variables: names.variables,
            block_labels: names.block_labels.insert(block, LabelId(names.next_label as u64)),
            next_variable: names.next_variable,
            next_label: names.next_label + 1,
        }
    }
}

/// One mention of a variable of the function.
pub open spec fn mention(var: VariableId) -> Option<SierraGenVar> {
    Some(SierraGenVar::LoweringVar(var))
}

/// One mention of each variable, in order.
pub open spec fn each_mentioned(vars: Seq<VariableId>) -> Seq<Option<SierraGenVar>> {
    Seq::new(vars.len(), |i: int| mention(vars[i]))
}

/// One mention of each variable that dies, in order.
pub open spec fn dying_mentioned(vars: Seq<SierraGenVar>) -> Seq<Option<SierraGenVar>> {
    Seq::new(vars.len(), |i: int| Some(vars[i]))
}

/// Each input is mentioned, and then a new Sierra variable is asked for its copy if it is used
/// again.
pub open spec fn ready_mentions(
    input: FunctionInput,
    location: StatementLocation,
    vars: Seq<VariableId>,
) -> Seq<Option<SierraGenVar>>
    decreases vars.len(),
{
    if vars.len() == 0 {
        Seq::empty()
    } else {
        let before = ready_mentions(input, location, vars.drop_last()).push(mention(vars.last()));
        if used_again(input, location, vars.len() - 1) {
            before.push(None)
        } else {
            before
        }
    }
}

/// For each pushed value a new Sierra variable is asked for, and then the pushed variable is
/// mentioned.
pub open spec fn push_mentions(vars: Seq<VariableId>) -> Seq<Option<SierraGenVar>>
    decreases vars.len(),
{
    if vars.len() == 0 {
        Seq::empty()
    } else {
        push_mentions(vars.drop_last()).push(None).push(mention(vars.last()))
    }
}

/// Each entry of a remapping mentions the variable that has the value and then the one that gets
/// it.
pub open spec fn remapping_mentions(entries: Seq<(VariableId, VariableId)>) -> Seq<
    Option<SierraGenVar>,
>
    decreases entries.len(),
{
    if entries.len() == 0 {
        Seq::empty()
    } else {
        remapping_mentions(entries.drop_last()).push(mention(entries.last().1)).push(
            mention(entries.last().0),
        )
    }
}

/// Each arm mentions the variables that it introduces.
pub open spec fn arm_mentions(arms: Seq<MatchArm>) -> Seq<Option<SierraGenVar>>
    decreases arms.len(),
{
    if arms.len() == 0 {
        Seq::empty()
    } else {
        arm_mentions(arms.drop_last()) + each_mentioned(arms.last().var_ids@)
    }
}

/// The Sierra variable that a variable has.
pub open spec fn named(names: Names, var: VariableId) -> VarId {
    names.variables[SierraGenVar::LoweringVar(var)]
}

/// The list holds the Sierra variables that the variables have, in order.
pub open spec fn are_named(names: Names, vars: Seq<VariableId>, sierra_vars: Seq<VarId>) -> bool {
    &&& sierra_vars.len() == vars.len()
    &&& forall|i: int|
        #![trigger vars[i]]
        #![trigger sierra_vars[i]]
        0 <= i < vars.len() ==> names.variables.contains_key(
            SierraGenVar::LoweringVar(vars[i]),
        ) && sierra_vars[i] == named(names, vars[i])
}

/// There is one drop for each variable, in order, with its type and on its Sierra variable, and
/// nothing else.
pub open spec fn are_drops(
    input: FunctionInput,
    names: Names,
    vars: Seq<SierraGenVar>,
    statements: Seq<StatementView>,
) -> bool {
    &&& statements.len() == vars.len()
    &&& forall|i: int|
        #![trigger vars[i]]
        #![trigger statements[i]]
        0 <= i < vars.len() ==> {
            &&& names.variables.contains_key(vars[i])
            &&& recorded_type(input, vars[i]) is Ok
            &&& statements[i] == invoked(
                LibfuncId::Drop { ty: recorded_type(input, vars[i])->Ok_0 },
                seq![names.variables[vars[i]]],
                Seq::empty(),
            )
        }
}

/// The arguments stand for the inputs, one for each and in order: an input that is not used again
/// is given itself, and of one that is, a copy is given, which one of the statements makes. There
/// is one such statement for each copy, in order, and nothing else.
#[verifier::opaque]
pub open spec fn are_arguments(
    input: FunctionInput,
    earlier: Names,
    names: Names,
    location: StatementLocation,
    vars: Seq<VariableId>,
    copies: Seq<StatementView>,
    args: Seq<VarId>,
) -> bool {
    let copied = copied_inputs(input, location, vars.len());
    &&& args.len() == vars.len()
    &&& forall|i: int|
        #![trigger vars[i]]
        #![trigger args[i]]
        0 <= i < vars.len() ==> {
            &&& names.variables.contains_key(SierraGenVar::LoweringVar(vars[i]))
            &&& args[i] == if used_again(input, location, i) {
                next_variable(
                    after_mentions(
                        earlier,
                        ready_mentions(input, location, vars.take(i)).push(mention(vars[i])),
                    ),
                )
            } else {
                named(names, vars[i])
            }
        }
    &&& copies.len() == copied.len()
    &&& forall|k: int|
        0 <= k < copied.len() ==> {
            let var = vars[copied[k]];
            &&& type_of(input, var) is Ok
            &&& #[trigger] copies[k] == invoked(
                LibfuncId::Dup { ty: type_of(input, var)->Ok_0 },
                seq![named(names, var)],
                seq![named(names, var), args[copied[k]]],
            )
        }
}

/// The values are those of the variables, one for each and in order, each pushed to a Sierra
/// variable of its own with its type, and as a copy if the variable is used again.
#[verifier::opaque]
pub open spec fn are_pushes(
    input: FunctionInput,
    earlier: Names,
    names: Names,
    location: StatementLocation,
    vars: Seq<VariableId>,
    values: Seq<PushValue>,
) -> bool {
    &&& values.len() == vars.len()
    &&& forall|i: int|
        #![trigger vars[i]]
        #![trigger values[i]]
        0 <= i < vars.len() ==> {
            &&& names.variables.contains_key(SierraGenVar::LoweringVar(vars[i]))
            &&& type_of(input, vars[i]) is Ok
            &&& values[i].var == named(names, vars[i])
            &&& values[i].var_on_stack == next_variable(
                after_mentions(earlier, push_mentions(vars.take(i))),
            )
            &&& values[i].ty == type_of(input, vars[i])->Ok_0
            &&& values[i].dup == used_again(input, location, i)
        }
}

/// The list holds the Sierra variables to which the values are pushed, in order.
pub open spec fn are_on_stack(values: Seq<PushValue>, sierra_vars: Seq<VarId>) -> bool {
    &&& sierra_vars.len() == values.len()
    &&& forall|i: int| 0 <= i < values.len() ==> #[trigger] sierra_vars[i] == values[i].var_on_stack
}

/// The statement invokes the libfunc and goes on with the next statement, and the results are the
/// Sierra variables of the outputs, in order.
pub open spec fn invokes(
    statement: StatementView,
    libfunc_id: LibfuncId,
    names: Names,
    outputs: Seq<VariableId>,
) -> bool {
    &&& statement is Invocation
    &&& statement->libfunc_id == libfunc_id
    &&& statement->branches.len() == 1
    &&& statement->branches[0].target is Fallthrough
    &&& are_named(names, outputs, statement->branches[0].results)
}

/// The inputs are copied as needed, and then the last statement invokes the libfunc on them.
pub open spec fn invokes_on(
    input: FunctionInput,
    earlier: Names,
    names: Names,
    location: StatementLocation,
    vars: Seq<VariableId>,
    statements: Seq<StatementView>,
    libfunc_id: LibfuncId,
    outputs: Seq<VariableId>,
) -> bool {
    &&& statements.len() > 0
    &&& invokes(statements.last(), libfunc_id, names, outputs)
    &&& are_arguments(
        input,
        earlier,
        names,
        location,
        vars,
        statements.drop_last(),
        statements.last()->args,
    )
}

/// The statements are one invocation of a libfunc on the Sierra variables of the variables.
pub open spec fn invokes_directly(
    names: Names,
    vars: Seq<VariableId>,
    statements: Seq<StatementView>,
    libfunc_id: LibfuncId,
    outputs: Seq<VariableId>,
) -> bool {
    &&& statements.len() == 1
    &&& invokes(statements[0], libfunc_id, names, outputs)
    &&& are_named(names, vars, statements[0]->args)
}

/// The code returns the variables: their values are pushed, and what they were pushed to is
/// returned.
pub open spec fn is_return(
    input: FunctionInput,
    earlier: Names,
    names: Names,
    location: StatementLocation,
    vars: Seq<VariableId>,
    statements: Seq<StatementView>,
) -> bool {
    &&& statements.len() == 2
    &&& statements[0] is PushValues
    &&& are_pushes(input, earlier, names, location, vars, statements[0]->PushValues_0)
    &&& statements[1] is Return
    &&& are_on_stack(statements[0]->PushValues_0, statements[1]->Return_0)
}

/// The names that a statement mentions, in order, with the new Sierra variables for which it asks.
pub open spec fn statement_mentions(
    input: FunctionInput,
    location: StatementLocation,
    statement: Statement,
) -> Seq<Option<SierraGenVar>> {
    match statement {
        Statement::Literal(s) => seq![mention(s.output)],
        Statement::Call(s) => each_mentioned(s.inputs@) + each_mentioned(s.outputs@) + (
        match s.function.generic_function {
            GenericFunctionId::Extern(_) => ready_mentions(input, location, s.inputs@),
            _ => push_mentions(s.inputs@),
        }),
        Statement::EnumConstruct(s) => ready_mentions(input, location, seq![s.input]).push(
            mention(s.output),
        ),
        Statement::StructConstruct(s) => ready_mentions(input, location, s.inputs@).push(
            mention(s.output),
        ),
        Statement::StructDestructure(s) => ready_mentions(input, location, seq![s.input])
            + each_mentioned(s.outputs@),
        Statement::Snapshot(s) => seq![
            mention(s.input),
            mention(s.output_original),
            mention(s.output_snapshot),
        ],
        Statement::Desnap(s) => seq![mention(s.input), mention(s.output)],
    }
}

/// The code is that of a statement:
///   - a literal is a constant of the type of its variable and with its value;
///   - a call invokes the called function, one with a body on the pushed inputs and a libfunc on
///     the inputs themselves or their copies;
///   - an enum is constructed of its input, with its own type and the number of the variant;
///   - a struct is constructed of its inputs, with its own type, or taken apart, with the type of
///     the input, into its outputs;
///   - a snapshot is taken of the input, and a snapshot is renamed to the value.
pub open spec fn is_code_of(
    input: FunctionInput,
    earlier: Names,
    names: Names,
    location: StatementLocation,
    statement: Statement,
    statements: Seq<StatementView>,
) -> bool {
    match statement {
        Statement::Literal(s) => invokes_directly(
            names,
            Seq::empty(),
            statements,
            LibfuncId::Const {
                value_type: input.lowered.variables@[s.output.0 as int].ty,
                value: s.value,
            },
            seq![s.output],
        ),
        Statement::Call(s) => {
            let known = after_mentions(
                earlier,
                each_mentioned(s.inputs@) + each_mentioned(s.outputs@),
            );
            let libfunc_id = LibfuncId::Function { function: s.function };
            match s.function.generic_function {
                GenericFunctionId::Extern(_) => invokes_on(
                    input,
                    known,
                    names,
                    location,
                    s.inputs@,
                    statements,
                    libfunc_id,
                    s.outputs@,
                ),
                _ => {
                    &&& statements.len() == 2
                    &&& statements[0] is PushValues
                    &&& are_pushes(
                        input,
                        known,
                        names,
                        location,
                        s.inputs@,
                        statements[0]->PushValues_0,
                    )
                    &&& invokes(statements[1], libfunc_id, names, s.outputs@)
                    &&& are_on_stack(statements[0]->PushValues_0, statements[1]->args)
                },
            }
        },
        Statement::EnumConstruct(s) => {
            &&& type_of(input, s.output) is Ok
            &&& invokes_on(
                input,
                earlier,
                names,
                location,
                seq![s.input],
                statements,
                LibfuncId::EnumInit {
                    ty: type_of(input, s.output)->Ok_0,
                    variant_idx: s.variant.idx,
                },
                seq![s.output],
            )
        },
        Statement::StructConstruct(s) => {
            &&& type_of(input, s.output) is Ok
            &&& invokes_on(
                input,
                earlier,
                names,
                location,
                s.inputs@,
                statements,
                LibfuncId::StructConstruct { ty: type_of(input, s.output)->Ok_0 },
                seq![s.output],
            )
        },
        Statement::StructDestructure(s) => {
            &&& type_of(input, s.input) is Ok
            &&& invokes_on(
                input,
                earlier,
                names,
                location,
                seq![s.input],
                statements,
                LibfuncId::StructDeconstruct { ty: type_of(input, s.input)->Ok_0 },
                s.outputs@,
            )
        },
        Statement::Snapshot(s) => {
            &&& type_of(input, s.input) is Ok
            &&& invokes_directly(
                names,
                seq![s.input],
                statements,
                LibfuncId::SnapshotTake { ty: type_of(input, s.input)->Ok_0 },
                seq![s.output_original, s.output_snapshot],
            )
        },
        Statement::Desnap(s) => {
            &&& type_of(input, s.input) is Ok
            &&& invokes_directly(
                names,
                seq![s.input],
                statements,
                LibfuncId::Rename { ty: type_of(input, s.input)->Ok_0 },
                seq![s.output],
            )
        },
    }
}

/// What a statement of a block and the drops after it come to.
pub struct BodyPart {
    /// The names given before the statement.
    pub before: Names,
    /// The code of the statement.
    pub own: Seq<StatementView>,
    /// The names given after the statement.
    pub middle: Names,
    /// The drops after the statement.
    pub dropped: Seq<StatementView>,
    /// The names given after the drops.
    pub after: Names,
}

/// The code of the parts, one after the other.
pub open spec fn joined(parts: Seq<BodyPart>) -> Seq<StatementView>
    decreases parts.len(),
{
    if parts.len() == 0 {
        Seq::empty()
    } else {
        joined(parts.drop_last()) + parts.last().own + parts.last().dropped
    }
}

/// The part is that of a statement: its code and the drops of the variables that die after it.
#[verifier::opaque]
pub open spec fn is_part_of(
    input: FunctionInput,
    location: StatementLocation,
    statement: Statement,
    part: BodyPart,
) -> bool {
    let dying = dying_at(input, DropLocation::PostStatement(location));
    &&& is_code_of(input, part.before, part.middle, location, statement, part.own)
    &&& part.middle == after_mentions(
        part.before,
        statement_mentions(input, location, statement),
    )
    &&& are_drops(input, part.after, dying, part.dropped)
    &&& part.after == after_mentions(part.middle, dying_mentioned(dying))
}

/// The names given before the part of this number.
pub open spec fn names_before(first: Names, parts: Seq<BodyPart>, index: int) -> Names {
    if index == 0 {
        first
    } else {
        parts[index - 1].after
    }
}

/// There is one part for each statement, in order, and each goes on from the names that the one
/// before it left.
pub open spec fn are_parts_of(
    input: FunctionInput,
    block_id: BlockId,
    statements: Seq<Statement>,
    first: Names,
    parts: Seq<BodyPart>,
) -> bool {
    &&& parts.len() == statements.len()
    &&& forall|i: int|
        #![trigger parts[i]]
        #![trigger statements[i]]
        0 <= i < statements.len() ==> {
            &&& parts[i].before == names_before(first, parts, i)
            &&& is_part_of(input, (block_id, i as usize), statements[i], parts[i])
        }
}

/// The code is that of the body of a block: the drops at its beginning, its statements in order,
/// each followed by the drops after it, and the drops before its end.
#[verifier::opaque]
pub open spec fn is_body_of(
    input: FunctionInput,
    earlier: Names,
    names: Names,
    block_id: BlockId,
    block: FlatBlock,
    statements: Seq<StatementView>,
    parts: Seq<BodyPart>,
) -> bool {
    let opening = dying_at(input, DropLocation::BeginningOfBlock(block_id));
    let closing = dying_at(input, DropLocation::PostStatement(place_of_end(block_id, block)));
    let first = after_mentions(earlier, dying_mentioned(opening));
    let last = names_before(first, parts, parts.len() as int);
    let end = statements.len() - closing.len();
    &&& opening.len() <= end
    &&& are_drops(input, first, opening, statements.take(opening.len() as int))
    &&& are_parts_of(input, block_id, block.statements@, first, parts)
    &&& statements.subrange(opening.len() as int, end) == joined(parts)
    &&& are_drops(input, names, closing, statements.skip(end))
    &&& names == after_mentions(last, dying_mentioned(closing))
}

/// The statement drops a variable.
pub open spec fn is_drop(statement: StatementView) -> bool {
    statement is Invocation && statement->libfunc_id is Drop
}

/// How many statements drop a variable.
pub open spec fn drop_count(statements: Seq<StatementView>) -> nat
    decreases statements.len(),
{
    if statements.len() == 0 {
        0
    } else {
        drop_count(statements.drop_last()) + if is_drop(statements.last()) {
            1nat
        } else {
            0nat
        }
    }
}

/// How many variables die after the first statements of a block.
pub open spec fn dying_count(input: FunctionInput, block_id: BlockId, count: nat) -> nat
    decreases count,
{
    if count == 0 {
        0
    } else {
        dying_count(input, block_id, (count - 1) as nat) + dying_at(
            input,
            DropLocation::PostStatement((block_id, (count - 1) as usize)),
        ).len()
    }
}

/// The values are those of a remapping, one for each entry and in order: from the Sierra variable
/// of the one variable to that of the other, with their type, and not as a copy.
pub open spec fn are_remapped(
    input: FunctionInput,
    names: Names,
    entries: Seq<(VariableId, VariableId)>,
    values: Seq<PushValue>,
) -> bool {
    &&& values.len() == entries.len()
    &&& forall|i: int|
        #![trigger entries[i]]
        #![trigger values[i]]
        0 <= i < entries.len() ==> {
            &&& names.variables.contains_key(SierraGenVar::LoweringVar(entries[i].0))
            &&& names.variables.contains_key(SierraGenVar::LoweringVar(entries[i].1))
            &&& values[i].var == named(names, entries[i].1)
            &&& values[i].var_on_stack == named(names, entries[i].0)
            &&& type_of(input, entries[i].0) is Ok
            &&& type_of(input, entries[i].1) == type_of(input, entries[i].0)
            &&& values[i].ty == type_of(input, entries[i].0)->Ok_0
            &&& !values[i].dup
        }
}

/// The names after a match was given a label for each arm but the first and one for its end.
pub open spec fn after_match_labels(names: Names, arms: nat) -> Names {
    Names {
        variables: names.variables,
        block_labels: names.block_labels,
        next_variable: names.next_variable,
        next_label: names.next_label + arms,
    }
}

/// The label of an arm of a match that started with these names, unless it is the first. The one
/// after that of the last arm is the label of the end.
pub open spec fn match_label(names: Names, index: int) -> LabelId {
    LabelId((names.next_label + index - 1) as u64)
}

/// There is one branch for each arm, in order: the first goes on with the next statement and each
/// other one to the label of its arm, and the results are the Sierra variables of the variables
/// that the arm introduces, in order.
#[verifier::opaque]
pub open spec fn are_branches(
    start: Names,
    names: Names,
    arms: Seq<MatchArm>,
    branches: Seq<BranchView>,
) -> bool {
    &&& branches.len() == arms.len()
    &&& forall|i: int|
        #![trigger arms[i]]
        #![trigger branches[i]]
        0 <= i < arms.len() ==> {
            &&& branches[i].target == if i == 0 {
                GenBranchTarget::Fallthrough
            } else {
                GenBranchTarget::Statement(match_label(start, i))
            }
            &&& are_named(names, arms[i].var_ids@, branches[i].results)
        }
}

/// The code of the arms of a match, one after the other: the label of each but the first, the
/// alignment of the gas costs, and the block.
pub open spec fn joined_arms(start: Names, blocks: Seq<Seq<StatementView>>) -> Seq<StatementView>
    decreases blocks.len(),
{
    let align = invoked(LibfuncId::BranchAlign, Seq::empty(), Seq::empty());
    if blocks.len() == 0 {
        Seq::empty()
    } else if blocks.len() == 1 {
        seq![align] + blocks.last()
    } else {
        joined_arms(start, blocks.drop_last()) + seq![
            StatementView::Label(match_label(start, blocks.len() - 1)),
            align,
        ] + blocks.last()
    }
}

} // verus!
