//! What code a lowered function stands for.
//!
//! Each spec function here starts from the names given so far, and says which statements are
//! generated and which names are given by then. Where a Sierra type is needed that could not be
//! computed, generation stops there.

use vstd::prelude::*;

use crate::context::FunctionInput;
use crate::libfunc::{DiagnosticAdded, GenericFunctionId, LibfuncId, Maybe};
use crate::lifetime::{DropLocation, SierraGenVar, UseLocation};
use crate::lowering::{
    BlockId, FlatBlock, FlatBlockEnd, MatchArm, MatchInfo, Statement, StatementCall,
    StatementDesnap, StatementEnumConstruct, StatementLiteral, StatementLocation,
    StatementSnapshot, StatementStructConstruct, StatementStructDestructure, VariableId,
};
use crate::names::Names;
use crate::pre_sierra;
use crate::pre_sierra::{BranchView, GenBranchTarget, PushValue, StatementView, VarId};

verus! {

/// A step of the generation.
pub struct Emitted<T> {
    /// The names given by the end of the step.
    pub names: Names,
    /// The statements generated.
    pub statements: Seq<StatementView>,
    /// What the step computes, unless it stops on the way.
    pub result: Maybe<T>,
}

impl<T> Emitted<T> {
    /// What a step that does not stop computes.
    pub open spec fn value(self) -> T {
        self.result->Ok_0
    }

    /// This step, and then one that starts from the names that this one leaves.
    pub open spec fn then_emit<U>(self, next: Emitted<U>) -> Emitted<U> {
        match self.result {
            Ok(_) => Emitted {
                names: next.names,
                statements: self.statements + next.statements,
                result: next.result,
            },
            Err(e) => Emitted { names: self.names, statements: self.statements, result: Err(e) },
        }
    }

    /// This step, and then one that may have no outcome.
    pub open spec fn then_try<U>(self, next: Option<Emitted<U>>) -> Option<Emitted<U>> {
        match (self.result, next) {
            (Err(e), _) => Some(
                Emitted { names: self.names, statements: self.statements, result: Err(e) },
            ),
            (Ok(_), Some(next)) => Some(self.then_emit(next)),
            (Ok(_), None) => None,
        }
    }
}

/// A step that computes a value without a statement.
pub open spec fn computed<T>(names: Names, value: T) -> Emitted<T> {
    Emitted { names, statements: Seq::empty(), result: Ok(value) }
}

/// A step that stops at once.
pub open spec fn stopped<T>(names: Names) -> Emitted<T> {
    Emitted { names, statements: Seq::empty(), result: Err(DiagnosticAdded) }
}

/// A step of one statement.
pub open spec fn emitted(names: Names, statement: StatementView) -> Emitted<()> {
    Emitted { names, statements: seq![statement], result: Ok(()) }
}

/// The steps of a list, and then the one of its next element: the values come in a list.
pub open spec fn collected<T>(before: Emitted<Seq<T>>, next: Emitted<T>) -> Emitted<Seq<T>> {
    let both = before.then_emit(next);
    Emitted {
        names: both.names,
        statements: both.statements,
        result: match both.result {
            Ok(value) => Ok(before.value().push(value)),
            Err(e) => Err(e),
        },
    }
}

/// The use of an input at a place.
pub open spec fn use_at(location: StatementLocation, idx: int) -> UseLocation {
    UseLocation { statement_location: location, idx: idx as usize }
}

/// The value of a variable is needed after its use as an input at a place, so that the use has to
/// be one of a copy.
pub open spec fn needs_dup(input: FunctionInput, location: StatementLocation, idx: int) -> bool {
    !input.last_use(use_at(location, idx))
}

/// Drops a variable.
pub open spec fn drop_code(input: FunctionInput, names: Names, var: SierraGenVar) -> Emitted<()> {
    let named = names.with_variable(var);
    match input.sierra_type(var) {
        Ok(ty) => emitted(
            named,
            pre_sierra::simple(LibfuncId::Drop { ty }, seq![names.variable(var)], Seq::empty()),
        ),
        Err(_) => stopped(named),
    }
}

/// Drops variables, in this order.
pub open spec fn drops_code(
    input: FunctionInput,
    names: Names,
    vars: Seq<SierraGenVar>,
) -> Emitted<()>
    decreases vars.len(),
{
    if vars.len() == 0 {
        computed(names, ())
    } else {
        let before = drops_code(input, names, vars.drop_last());
        before.then_emit(drop_code(input, before.names, vars.last()))
    }
}

/// The Sierra variable to use for an input: the variable's own at its last use, and else a copy
/// that is made just before.
pub open spec fn argument_code(
    input: FunctionInput,
    names: Names,
    location: StatementLocation,
    idx: int,
    var: VariableId,
) -> Emitted<VarId> {
    let original = names.variable(SierraGenVar::LoweringVar(var));
    let named = names.with_variable(SierraGenVar::LoweringVar(var));
    let copy = named.fresh_variable();
    if !needs_dup(input, location, idx) {
        computed(named, original)
    } else {
        match input.variable_type(var) {
            Ok(ty) => Emitted {
                names: named.with_fresh_variable(),
                statements: seq![
                    pre_sierra::simple(
                        LibfuncId::Dup { ty },
                        seq![original],
                        seq![original, copy],
                    ),
                ],
                result: Ok(copy),
            },
            Err(_) => stopped(named),
        }
    }
}

/// The Sierra variables to use for inputs, in this order.
pub open spec fn arguments_code(
    input: FunctionInput,
    names: Names,
    location: StatementLocation,
    vars: Seq<VariableId>,
) -> Emitted<Seq<VarId>>
    decreases vars.len(),
{
    if vars.len() == 0 {
        computed(names, Seq::empty())
    } else {
        let before = arguments_code(input, names, location, vars.drop_last());
        collected(
            before,
            argument_code(input, before.names, location, vars.len() - 1, vars.last()),
        )
    }
}

/// The push of an input to a new Sierra variable, as a copy unless it is the last use.
pub open spec fn pushed_input(
    input: FunctionInput,
    names: Names,
    location: StatementLocation,
    idx: int,
    var: VariableId,
) -> Emitted<PushValue> {
    let slot = names.fresh_variable();
    let allocated = names.with_fresh_variable();
    let named = allocated.with_variable(SierraGenVar::LoweringVar(var));
    match input.variable_type(var) {
        Ok(ty) => computed(
            named,
            PushValue {
                var: allocated.variable(SierraGenVar::LoweringVar(var)),
                var_on_stack: slot,
                ty,
                dup: needs_dup(input, location, idx),
            },
        ),
        Err(_) => stopped(named),
    }
}

/// The pushes of inputs, in this order.
pub open spec fn pushed_inputs(
    input: FunctionInput,
    names: Names,
    location: StatementLocation,
    vars: Seq<VariableId>,
) -> Emitted<Seq<PushValue>>
    decreases vars.len(),
{
    if vars.len() == 0 {
        computed(names, Seq::empty())
    } else {
        let before = pushed_inputs(input, names, location, vars.drop_last());
        collected(
            before,
            pushed_input(input, before.names, location, vars.len() - 1, vars.last()),
        )
    }
}

/// The Sierra variables that hold pushed values.
pub open spec fn stack_variables(values: Seq<PushValue>) -> Seq<VarId> {
    Seq::new(values.len(), |i: int| values[i].var_on_stack)
}

/// Pushes the returned variables and returns from the function.
pub open spec fn return_code(
    input: FunctionInput,
    names: Names,
    location: StatementLocation,
    vars: Seq<VariableId>,
) -> Emitted<()> {
    let pushes = pushed_inputs(input, names, location, vars);
    pushes.then_emit(
        Emitted {
            names: pushes.names,
            statements: seq![
                StatementView::PushValues(pushes.value()),
                StatementView::Return(stack_variables(pushes.value())),
            ],
            result: Ok(()),
        },
    )
}

/// Introduces a constant.
pub open spec fn literal_code(
    input: FunctionInput,
    names: Names,
    statement: StatementLiteral,
) -> Emitted<()> {
    let output = SierraGenVar::LoweringVar(statement.output);
    emitted(
        names.with_variable(output),
        pre_sierra::simple(
            LibfuncId::Const {
                value_type: input.var_type(statement.output),
                value: statement.value,
            },
            Seq::empty(),
            seq![names.variable(output)],
        ),
    )
}

/// Calls a function: the arguments of one with a body are pushed, those of a libfunc are given
/// directly.
pub open spec fn call_code(
    input: FunctionInput,
    names: Names,
    statement: StatementCall,
    location: StatementLocation,
) -> Emitted<()> {
    let named = names.with_variables(statement.inputs@).with_variables(statement.outputs@);
    let outputs = named.lookup(statement.outputs@);
    let libfunc_id = LibfuncId::Function { function: statement.function };
    match statement.function.generic_function {
        GenericFunctionId::Free(_) | GenericFunctionId::Impl(_) => {
            let pushes = pushed_inputs(input, named, location, statement.inputs@);
            pushes.then_emit(
                Emitted {
                    names: pushes.names,
                    statements: seq![
                        StatementView::PushValues(pushes.value()),
                        pre_sierra::simple(libfunc_id, stack_variables(pushes.value()), outputs),
                    ],
                    result: Ok(()),
                },
            )
        },
        GenericFunctionId::Extern(_) => {
            let args = arguments_code(input, named, location, statement.inputs@);
            args.then_emit(
                emitted(args.names, pre_sierra::simple(libfunc_id, args.value(), outputs)),
            )
        },
    }
}

/// Constructs a variant of an enum.
pub open spec fn enum_construct_code(
    input: FunctionInput,
    names: Names,
    statement: StatementEnumConstruct,
    location: StatementLocation,
) -> Emitted<()> {
    let arg = argument_code(input, names, location, 0, statement.input);
    let output = SierraGenVar::LoweringVar(statement.output);
    arg.then_emit(
        match input.variable_type(statement.output) {
            Ok(ty) => emitted(
                arg.names.with_variable(output),
                pre_sierra::simple(
                    LibfuncId::EnumInit { ty, variant_idx: statement.variant.idx },
                    seq![arg.value()],
                    seq![arg.names.variable(output)],
                ),
            ),
            Err(_) => stopped(arg.names),
        },
    )
}

/// Constructs a struct.
pub open spec fn struct_construct_code(
    input: FunctionInput,
    names: Names,
    statement: StatementStructConstruct,
    location: StatementLocation,
) -> Emitted<()> {
    let args = arguments_code(input, names, location, statement.inputs@);
    let output = SierraGenVar::LoweringVar(statement.output);
    args.then_emit(
        match input.variable_type(statement.output) {
            Ok(ty) => emitted(
                args.names.with_variable(output),
                pre_sierra::simple(
                    LibfuncId::StructConstruct { ty },
                    args.value(),
                    seq![args.names.variable(output)],
                ),
            ),
            Err(_) => stopped(args.names),
        },
    )
}

/// The libfunc that takes a struct in a variable apart.
pub open spec fn deconstruct_libfunc(input: FunctionInput, var: VariableId) -> Maybe<LibfuncId> {
    match input.variable_type(var) {
        Ok(ty) => input.db.struct_deconstruct(ty),
        Err(e) => Err(e),
    }
}

/// Takes a struct apart.
pub open spec fn struct_destructure_code(
    input: FunctionInput,
    names: Names,
    statement: StatementStructDestructure,
    location: StatementLocation,
) -> Emitted<()> {
    let arg = argument_code(input, names, location, 0, statement.input);
    let named = arg.names.with_variables(statement.outputs@);
    arg.then_emit(
        match deconstruct_libfunc(input, statement.input) {
            Ok(libfunc_id) => emitted(
                named,
                pre_sierra::simple(
                    libfunc_id,
                    seq![arg.value()],
                    named.lookup(statement.outputs@),
                ),
            ),
            Err(_) => stopped(arg.names),
        },
    )
}

/// Takes a snapshot of a variable.
pub open spec fn snapshot_code(
    input: FunctionInput,
    names: Names,
    statement: StatementSnapshot,
) -> Emitted<()> {
    let named = names.with_variable(SierraGenVar::LoweringVar(statement.input));
    let outputs = seq![statement.output_original, statement.output_snapshot];
    match input.variable_type(statement.input) {
        Ok(ty) => emitted(
            named.with_variables(outputs),
            pre_sierra::simple(
                LibfuncId::SnapshotTake { ty },
                seq![names.variable(SierraGenVar::LoweringVar(statement.input))],
                named.with_variables(outputs).lookup(outputs),
            ),
        ),
        Err(_) => stopped(named),
    }
}

/// Turns a snapshot into the value.
pub open spec fn desnap_code(
    input: FunctionInput,
    names: Names,
    statement: StatementDesnap,
) -> Emitted<()> {
    let named = names.with_variable(SierraGenVar::LoweringVar(statement.input));
    let output = SierraGenVar::LoweringVar(statement.output);
    match input.variable_type(statement.input) {
        Ok(ty) => emitted(
            named.with_variable(output),
            pre_sierra::simple(
                LibfuncId::Rename { ty },
                seq![names.variable(SierraGenVar::LoweringVar(statement.input))],
                seq![named.variable(output)],
            ),
        ),
        Err(_) => stopped(named),
    }
}

/// The code of a statement at a place.
pub open spec fn statement_code(
    input: FunctionInput,
    names: Names,
    statement: Statement,
    location: StatementLocation,
) -> Emitted<()> {
    match statement {
        Statement::Literal(s) => literal_code(input, names, s),
        Statement::Call(s) => call_code(input, names, s, location),
        Statement::EnumConstruct(s) => enum_construct_code(input, names, s, location),
        Statement::StructConstruct(s) => struct_construct_code(input, names, s, location),
        Statement::StructDestructure(s) => struct_destructure_code(input, names, s, location),
        Statement::Snapshot(s) => snapshot_code(input, names, s),
        Statement::Desnap(s) => desnap_code(input, names, s),
    }
}

/// The drops at a place.
pub open spec fn drops_at_code(
    input: FunctionInput,
    names: Names,
    location: DropLocation,
) -> Emitted<()> {
    drops_code(input, names, input.drops_at(location))
}

/// The code of the first statements of a block, each followed by the drops after it.
pub open spec fn statements_code(
    input: FunctionInput,
    names: Names,
    block_id: BlockId,
    statements: Seq<Statement>,
) -> Emitted<()>
    decreases statements.len(),
{
    if statements.len() == 0 {
        computed(names, ())
    } else {
        let location = (block_id, (statements.len() - 1) as usize);
        let before = statements_code(input, names, block_id, statements.drop_last());
        let statement = before.then_emit(
            statement_code(input, before.names, statements.last(), location),
        );
        statement.then_emit(
            drops_at_code(input, statement.names, DropLocation::PostStatement(location)),
        )
    }
}

/// The place of the end of a block.
pub open spec fn end_location(block_id: BlockId, block: FlatBlock) -> StatementLocation {
    (block_id, block.statements@.len() as usize)
}

/// The code of a block but for its end: the drops at its beginning, its statements, and the drops
/// before its end.
pub open spec fn body_code(
    input: FunctionInput,
    names: Names,
    block_id: BlockId,
    block: FlatBlock,
) -> Emitted<()> {
    let first = drops_at_code(input, names, DropLocation::BeginningOfBlock(block_id));
    let statements = first.then_emit(
        statements_code(input, first.names, block_id, block.statements@),
    );
    statements.then_emit(
        drops_at_code(
            input,
            statements.names,
            DropLocation::PostStatement(end_location(block_id, block)),
        ),
    )
}

/// The push of a remapped value. It has no outcome where the types of the two variables differ.
pub open spec fn remapped_value(
    input: FunctionInput,
    names: Names,
    output: VariableId,
    inner_output: VariableId,
) -> Option<Emitted<PushValue>> {
    let named = names.with_variable(SierraGenVar::LoweringVar(inner_output));
    match (input.variable_type(inner_output), input.variable_type(output)) {
        (Ok(ty), Ok(var_on_stack_ty)) => if ty == var_on_stack_ty {
            Some(
                computed(
                    named.with_variable(SierraGenVar::LoweringVar(output)),
                    PushValue {
                        var: names.variable(SierraGenVar::LoweringVar(inner_output)),
                        var_on_stack: named.variable(SierraGenVar::LoweringVar(output)),
                        ty,
                        dup: false,
                    },
                ),
            )
        } else {
            None
        },
        _ => Some(stopped(names)),
    }
}

/// The pushes of remapped values, in this order.
pub open spec fn remapped_values(
    input: FunctionInput,
    names: Names,
    entries: Seq<(VariableId, VariableId)>,
) -> Option<Emitted<Seq<PushValue>>>
    decreases entries.len(),
{
    if entries.len() == 0 {
        Some(computed(names, Seq::empty()))
    } else {
        match remapped_values(input, names, entries.drop_last()) {
            Some(before) => if before.result is Err {
                Some(before)
            } else {
                match remapped_value(input, before.names, entries.last().0, entries.last().1) {
                    Some(next) => Some(collected(before, next)),
                    None => None,
                }
            },
            None => None,
        }
    }
}

/// Pushes the values of a remapping.
pub open spec fn remapping_code(
    input: FunctionInput,
    names: Names,
    entries: Seq<(VariableId, VariableId)>,
) -> Option<Emitted<()>> {
    match remapped_values(input, names, entries) {
        Some(pushes) => Some(
            pushes.then_emit(
                emitted(pushes.names, StatementView::PushValues(pushes.value())),
            ),
        ),
        None => None,
    }
}

/// Where the branch to an arm goes: on to the first arm, and to a label for each other one.
pub open spec fn arm_target(names: Names, index: int) -> GenBranchTarget {
    if index == 0 {
        GenBranchTarget::Fallthrough
    } else {
        GenBranchTarget::Statement(names.label_ahead((index - 1) as nat))
    }
}

/// The variables that the arms introduce, arm by arm.
pub open spec fn arm_variables(arms: Seq<MatchArm>) -> Seq<VariableId>
    decreases arms.len(),
{
    if arms.len() == 0 {
        Seq::empty()
    } else {
        arm_variables(arms.drop_last()) + arms.last().var_ids@
    }
}

/// The names after a match has its labels, one for each arm but the first and one for its end,
/// and its arms have their variables.
pub open spec fn match_names(names: Names, arms: Seq<MatchArm>) -> Names {
    names.with_fresh_labels(arms.len()).with_variables(arm_variables(arms))
}

/// The branches of a match, one for each arm.
pub open spec fn match_branches(names: Names, arms: Seq<MatchArm>) -> Seq<BranchView> {
    Seq::new(
        arms.len(),
        |i: int|
            BranchView {
                target: arm_target(names, i),
                results: match_names(names, arms).lookup(arms[i].var_ids@),
            },
    )
}

/// The invocation that a match branches on.
pub open spec fn branching_code(
    input: FunctionInput,
    names: Names,
    location: StatementLocation,
    inputs: Seq<VariableId>,
    libfunc_id: Maybe<LibfuncId>,
    arms: Seq<MatchArm>,
) -> Emitted<()> {
    let args = arguments_code(input, match_names(names, arms), location, inputs);
    args.then_emit(
        match libfunc_id {
            Ok(libfunc_id) => emitted(
                args.names,
                StatementView::Invocation {
                    libfunc_id,
                    args: args.value(),
                    branches: match_branches(names, arms),
                },
            ),
            Err(_) => stopped(args.names),
        },
    )
}

/// What stands before the block of an arm: the label of the arm, unless it is the first, and the
/// alignment of the gas costs.
pub open spec fn arm_head(start: Names, index: int) -> Seq<StatementView> {
    let align = pre_sierra::simple(LibfuncId::BranchAlign, Seq::empty(), Seq::empty());
    if index == 0 {
        seq![align]
    } else {
        seq![StatementView::Label(start.label_ahead((index - 1) as nat)), align]
    }
}

/// The code that blocks have, from the names given so far.
pub type BlockCode = spec_fn(Names, BlockId) -> Option<Emitted<()>>;

/// The code of the first arms of a match. The labels come after those of `start`.
pub open spec fn arms_code(
    start: Names,
    names: Names,
    arms: Seq<MatchArm>,
    blocks: BlockCode,
) -> Option<Emitted<()>>
    decreases arms.len(),
{
    if arms.len() == 0 {
        Some(computed(names, ()))
    } else {
        match arms_code(start, names, arms.drop_last(), blocks) {
            Some(before) => {
                let head = before.then_emit(
                    Emitted {
                        names: before.names,
                        statements: arm_head(start, arms.len() - 1),
                        result: Ok(()),
                    },
                );
                head.then_try(blocks(head.names, arms.last().block_id))
            },
            None => None,
        }
    }
}

/// The code of a match: the invocation, the arms and the label of its end. A match without arms has
/// no outcome.
pub open spec fn match_code(
    input: FunctionInput,
    names: Names,
    location: StatementLocation,
    inputs: Seq<VariableId>,
    libfunc_id: Maybe<LibfuncId>,
    arms: Seq<MatchArm>,
    blocks: BlockCode,
) -> Option<Emitted<()>> {
    if arms.len() == 0 {
        None
    } else {
        let branching = branching_code(input, names, location, inputs, libfunc_id, arms);
        let end = StatementView::Label(names.label_ahead((arms.len() - 1) as nat));
        branching.then_try(
            match arms_code(names, branching.names, arms, blocks) {
                Some(code) => Some(code.then_emit(emitted(code.names, end))),
                None => None,
            },
        )
    }
}

/// The libfunc that matches an enum in a variable.
pub open spec fn match_enum_libfunc(input: FunctionInput, var: VariableId) -> Maybe<LibfuncId> {
    match input.variable_type(var) {
        Ok(ty) => input.db.match_enum(ty),
        Err(e) => Err(e),
    }
}

/// Pushes the remapped values and goes on at the target: the block that follows comes next, after
/// its label, and there is a jump to any other one.
pub open spec fn goto_code(
    input: FunctionInput,
    names: Names,
    block_id: BlockId,
    target: BlockId,
    entries: Seq<(VariableId, VariableId)>,
    blocks: BlockCode,
) -> Option<Emitted<()>> {
    match remapping_code(input, names, entries) {
        Some(pushes) => {
            let label = pushes.names.block_label(target);
            let named = pushes.names.with_block_label(target);
            if target.0 == block_id.0 + 1 {
                let head = pushes.then_emit(emitted(named, StatementView::Label(label)));
                head.then_try(blocks(named, target))
            } else {
                Some(pushes.then_emit(emitted(named, pre_sierra::jump(label))))
            }
        },
        None => None,
    }
}

/// The code of the end of a block. An end that is not set or panics has no outcome.
pub open spec fn end_code(
    input: FunctionInput,
    names: Names,
    block_id: BlockId,
    block: FlatBlock,
    blocks: BlockCode,
) -> Option<Emitted<()>> {
    let location = end_location(block_id, block);
    match block.end {
        FlatBlockEnd::NotSet => None,
        FlatBlockEnd::Return(vars) => Some(return_code(input, names, location, vars@)),
        FlatBlockEnd::Panic(_) => None,
        FlatBlockEnd::Goto(target, remapping) => goto_code(
            input,
            names,
            block_id,
            target,
            remapping@,
            blocks,
        ),
        FlatBlockEnd::Match { info: MatchInfo::Extern(info) } => match_code(
            input,
            names,
            location,
            info.inputs@,
            Ok(LibfuncId::Function { function: info.function }),
            info.arms@,
            blocks,
        ),
        FlatBlockEnd::Match { info: MatchInfo::Enum(info) } => match_code(
            input,
            names,
            location,
            seq![info.input],
            match_enum_libfunc(input, info.input),
            info.arms@,
            blocks,
        ),
    }
}

/// The code of a block, given the code of the blocks to which it leads: its body and its end. A
/// block that is not there has no outcome.
pub open spec fn block_parts(
    input: FunctionInput,
    names: Names,
    block_id: BlockId,
    blocks: BlockCode,
) -> Option<Emitted<()>> {
    if block_id.0 >= input.lowered.blocks@.len() {
        None
    } else {
        let block = input.lowered.blocks@[block_id.0 as int];
        let body = body_code(input, names, block_id, block);
        body.then_try(end_code(input, body.names, block_id, block, blocks))
    }
}

/// The code of blocks that are at most `depth` deep: a block is deeper than those to which it
/// leads.
pub open spec fn blocks_within(input: FunctionInput, depth: nat) -> BlockCode
    decreases depth,
{
    if depth == 0 {
        |names: Names, block_id: BlockId| None
    } else {
        |names: Names, block_id: BlockId|
            block_parts(input, names, block_id, blocks_within(input, (depth - 1) as nat))
    }
}

/// The code of a block that is at most `depth` deep.
pub open spec fn block_code_within(
    input: FunctionInput,
    names: Names,
    block_id: BlockId,
    depth: nat,
) -> Option<Emitted<()>> {
    blocks_within(input, depth)(names, block_id)
}

/// The least depth within which the code of a block has an outcome.
#[verifier::opaque]
pub open spec fn block_depth(input: FunctionInput, names: Names, block_id: BlockId) -> nat {
    choose|depth: nat|
        #![trigger block_code_within(input, names, block_id, depth)]
        block_code_within(input, names, block_id, depth) is Some && forall|less: nat|
            less < depth ==> (#[trigger] block_code_within(input, names, block_id, less)) is None
}

/// The code of a block. There is none where the generation would come to a block that is not
/// there, an end that is not set or panics, a match without arms, a remapping between variables of
/// different types, or would never end.
#[verifier::opaque]
pub open spec fn block_code(input: FunctionInput, names: Names, block_id: BlockId) -> Option<
    Emitted<()>,
> {
    block_code_within(input, names, block_id, block_depth(input, names, block_id))
}

/// The code that the blocks of a function have.
pub open spec fn all_blocks(input: FunctionInput) -> BlockCode {
    |names: Names, block_id: BlockId| block_code(input, names, block_id)
}

} // verus!
