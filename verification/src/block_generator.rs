//! Generates the code of blocks.

use vstd::prelude::*;

use crate::code;
use crate::code::Emitted;
use crate::context::ExprGeneratorContext;
use crate::depth;
use crate::growth;
use crate::libfunc::{DiagnosticAdded, GenericFunctionId, LibfuncId, Maybe};
use crate::lifetime;
use crate::lifetime::{DropLocation, SierraGenVar, UseLocation};
use crate::lowering;
use crate::lowering::{
    BlockId, FlatBlock, FlatBlockEnd, MatchArm, MatchEnumInfo, MatchExternInfo, MatchInfo,
    StatementCall, StatementDesnap, StatementEnumConstruct, StatementLiteral, StatementLocation,
    StatementSnapshot, StatementStructConstruct, StatementStructDestructure, VarRemapping,
    VariableId,
};
use crate::names;
use crate::names::Names;
use crate::ordered_map::OrderedMap;
use crate::outside;
use crate::pre_sierra;
use crate::pre_sierra::{
    BranchView, GenBranchInfo, GenBranchTarget, GenInvocation, GenStatement, LabelId, PushValue,
    Statement, StatementView, VarId,
};

verus! {

/// A generating function returns what a step of the generation says: its statements, or the error
/// on which it stops.
pub open spec fn returns_code(result: Maybe<Vec<Statement>>, step: Emitted<()>) -> bool {
    match result {
        Ok(statements) => step.result is Ok && pre_sierra::code(statements@) == step.statements,
        Err(_) => step.result is Err,
    }
}

/// A generating function did what a step of the generation says.
pub open spec fn generates(
    before: ExprGeneratorContext,
    after: ExprGeneratorContext,
    result: Maybe<Vec<Statement>>,
    step: Emitted<()>,
) -> bool {
    &&& context_steps(before, after, step)
    &&& returns_code(result, step)
}

/// The context went from one state to another by a step of the generation.
pub open spec fn context_steps<T>(
    before: ExprGeneratorContext,
    after: ExprGeneratorContext,
    step: Emitted<T>,
) -> bool {
    &&& after.wf()
    &&& after.input() == before.input()
    &&& after.names() == step.names
}

/// Adds calls to the `drop` libfunc for the variables that `drops` has at the given place.
fn add_drop_statements(
    context: &mut ExprGeneratorContext<'_>,
    drops: &OrderedMap<DropLocation, Vec<SierraGenVar>>,
    drop_location: &DropLocation,
    statements: &mut Vec<Statement>,
) -> (result: Maybe<()>)
    requires
        old(context).wf(),
        drops.wf(),
        old(context).input().are_vars(lifetime::drops_listed(*drops, *drop_location)),
        code::drops_code(
            old(context).input(),
            old(context).names(),
            lifetime::drops_listed(*drops, *drop_location),
        ).names.fits(),
    ensures
        ({
            let step = code::drops_code(
                old(context).input(),
                old(context).names(),
                lifetime::drops_listed(*drops, *drop_location),
            );
            &&& context_steps(*old(context), *final(context), step)
            &&& pre_sierra::code(final(statements)@) == pre_sierra::code(old(statements)@)
                + step.statements
            &&& old(statements)@.is_prefix_of(final(statements)@)
            &&& result == step.result
        }),
{
    let ghost input = context.input();
    let ghost start = context.names();
    let ghost all = lifetime::drops_listed(*drops, *drop_location);
    let ghost step = code::drops_code(input, start, all);
    proof {
        assert(pre_sierra::code(statements@) + Seq::<StatementView>::empty() == pre_sierra::code(
            statements@,
        ));
    }
    let vars = match drops.get(*drop_location) {
        Some(vars) => vars,
        None => {
            return Ok(());
        },
    };
    let mut i: usize = 0;
    proof {
        assert(all.take(0) == Seq::<SierraGenVar>::empty());
    }
    while i < vars.len()
        invariant
            i <= vars@.len(),
            input == old(context).input(),
            start == old(context).names(),
            all == lifetime::drops_listed(*drops, *drop_location),
            vars@ == all,
            input.are_vars(all),
            context.wf(),
            context.input() == input,
            step == code::drops_code(input, start, all),
            step.names.fits(),
            code::drops_code(input, start, all.take(i as int)).result is Ok,
            context.names() == code::drops_code(input, start, all.take(i as int)).names,
            pre_sierra::code(statements@) == pre_sierra::code(old(statements)@)
                + code::drops_code(input, start, all.take(i as int)).statements,
            old(statements)@.is_prefix_of(statements@),
        decreases vars@.len() - i,
    {
        let ghost before = code::drops_code(input, start, all.take(i as int));
        let ghost after = code::drops_code(input, start, all.take(i + 1));
        proof {
            assert(all.take(i + 1).drop_last() == all.take(i as int));
            assert(all.take(i + 1).last() == all[i as int]);
            growth::lemma_drops_prefix(input, start, all, i + 1);
            assert(input.is_var(all[i as int]));
            assert(before.statements + Seq::<StatementView>::empty() == before.statements);
        }
        let sierra_var = context.get_sierra_variable(vars[i]);
        let ty = context.get_variable_sierra_type(vars[i])?;
        let ghost done = statements@;
        let statement = pre_sierra::simple_statement(
            LibfuncId::Drop { ty },
            pre_sierra::one_variable(sierra_var),
            pre_sierra::no_variable(),
        );
        statements.push(statement);
        proof {
            pre_sierra::lemma_code_push(done, statement);
            assert(pre_sierra::code(statements@) =~= pre_sierra::code(old(statements)@)
                + after.statements);
        }
        i = i + 1;
    }
    proof {
        assert(all.take(all.len() as int) == all);
    }
    Ok(())
}

/// Returns if the variable at the given location should be duplicated.
pub fn should_dup(context: &mut ExprGeneratorContext<'_>, use_location: &UseLocation) -> (dup: bool)
    ensures
        dup == !old(context).input().last_use(*use_location),
        *final(context) == *old(context),
{
    !context.is_last_use(use_location)
}

/// If necessary, adds a call to the `dup` libfunc for the given input of the statement at the given
/// place, and returns the duplicated copy. Otherwise, returns the original variable.
fn maybe_add_dup_statement(
    context: &mut ExprGeneratorContext<'_>,
    statement_location: &StatementLocation,
    idx: usize,
    lowering_var: &VariableId,
    statements: &mut Vec<Statement>,
) -> (result: Maybe<VarId>)
    requires
        old(context).wf(),
        lowering::is_variable(*lowering_var, old(context).input().variable_count()),
        code::argument_code(
            old(context).input(),
            old(context).names(),
            *statement_location,
            idx as int,
            *lowering_var,
        ).names.fits(),
    ensures
        context_steps(
            *old(context),
            *final(context),
            code::argument_code(
                old(context).input(),
                old(context).names(),
                *statement_location,
                idx as int,
                *lowering_var,
            ),
        ),
        pre_sierra::code(final(statements)@) == pre_sierra::code(old(statements)@)
            + code::argument_code(
                old(context).input(),
                old(context).names(),
                *statement_location,
                idx as int,
                *lowering_var,
            ).statements,
        result == code::argument_code(
            old(context).input(),
            old(context).names(),
            *statement_location,
            idx as int,
            *lowering_var,
        ).result,
{
    let ghost start = context.names();
    let var = SierraGenVar::LoweringVar(*lowering_var);
    proof {
        names::lemma_with_variable(start, var);
        names::lemma_with_fresh_variable(start.with_variable(var));
        assert(pre_sierra::code(statements@) + Seq::<StatementView>::empty() == pre_sierra::code(
            statements@,
        ));
    }
    let sierra_var = context.get_sierra_variable(var);
    // Check whether the variable should be dupped.
    let use_location = UseLocation { statement_location: *statement_location, idx };
    if context.is_last_use(&use_location) {
        // Dup is not required.
        Ok(sierra_var)
    } else {
        let ty = context.get_variable_sierra_type(var)?;
        let dup_var = context.allocate_sierra_variable();
        let ghost done = statements@;
        let statement = pre_sierra::simple_statement(
            LibfuncId::Dup { ty },
            pre_sierra::one_variable(sierra_var),
            pre_sierra::two_variables(sierra_var, dup_var),
        );
        statements.push(statement);
        proof {
            pre_sierra::lemma_code_push(done, statement);
            assert(pre_sierra::code(statements@) =~= pre_sierra::code(done) + seq![statement@]);
        }
        Ok(dup_var)
    }
}

/// Adds calls to the `dup` libfunc for the inputs of the statement at the given place, where
/// necessary, and returns the variables to use for them.
fn maybe_add_dup_statements(
    context: &mut ExprGeneratorContext<'_>,
    statement_location: &StatementLocation,
    lowering_vars: &[VariableId],
    statements: &mut Vec<Statement>,
) -> (result: Maybe<Vec<VarId>>)
    requires
        old(context).wf(),
        lowering::are_variables(lowering_vars@, old(context).input().variable_count()),
        code::arguments_code(
            old(context).input(),
            old(context).names(),
            *statement_location,
            lowering_vars@,
        ).names.fits(),
    ensures
        context_steps(
            *old(context),
            *final(context),
            code::arguments_code(
                old(context).input(),
                old(context).names(),
                *statement_location,
                lowering_vars@,
            ),
        ),
        pre_sierra::code(final(statements)@) == pre_sierra::code(old(statements)@)
            + code::arguments_code(
                old(context).input(),
                old(context).names(),
                *statement_location,
                lowering_vars@,
            ).statements,
        match result {
            Ok(vars) => code::arguments_code(
                old(context).input(),
                old(context).names(),
                *statement_location,
                lowering_vars@,
            ).result == Ok::<Seq<VarId>, DiagnosticAdded>(vars@),
            Err(_) => code::arguments_code(
                old(context).input(),
                old(context).names(),
                *statement_location,
                lowering_vars@,
            ).result is Err,
        },
{
    let ghost input = context.input();
    let ghost start = context.names();
    let ghost all = lowering_vars@;
    let ghost step = code::arguments_code(input, start, *statement_location, all);
    let mut vars: Vec<VarId> = Vec::new();
    let mut idx: usize = 0;
    proof {
        assert(all.take(0) == Seq::<VariableId>::empty());
        assert(pre_sierra::code(statements@) + Seq::<StatementView>::empty() == pre_sierra::code(
            statements@,
        ));
    }
    while idx < lowering_vars.len()
        invariant
            idx <= lowering_vars@.len(),
            input == old(context).input(),
            start == old(context).names(),
            all == lowering_vars@,
            lowering::are_variables(all, input.variable_count()),
            context.wf(),
            context.input() == input,
            step == code::arguments_code(input, start, *statement_location, all),
            step.names.fits(),
            context.names() == code::arguments_code(
                input,
                start,
                *statement_location,
                all.take(idx as int),
            ).names,
            code::arguments_code(input, start, *statement_location, all.take(idx as int)).result
                == Ok::<Seq<VarId>, DiagnosticAdded>(vars@),
            pre_sierra::code(statements@) == pre_sierra::code(old(statements)@)
                + code::arguments_code(
                    input,
                    start,
                    *statement_location,
                    all.take(idx as int),
                ).statements,
        decreases lowering_vars@.len() - idx,
    {
        let ghost before = code::arguments_code(
            input,
            start,
            *statement_location,
            all.take(idx as int),
        );
        let ghost after = code::arguments_code(
            input,
            start,
            *statement_location,
            all.take(idx + 1),
        );
        proof {
            assert(all.take(idx + 1).drop_last() == all.take(idx as int));
            assert(all.take(idx + 1).last() == all[idx as int]);
            growth::lemma_arguments_prefix(input, start, *statement_location, all, idx + 1);
        }
        let var = maybe_add_dup_statement(
            context,
            statement_location,
            idx,
            &lowering_vars[idx],
            statements,
        );
        proof {
            assert(pre_sierra::code(statements@) =~= pre_sierra::code(old(statements)@)
                + after.statements);
        }
        vars.push(var?);
        idx = idx + 1;
    }
    proof {
        assert(all.take(all.len() as int) == all);
    }
    Ok(vars)
}

/// Generates Sierra code for a `return` statement.
/// Pushes the given returned values on the top of the stack, and returns from the function.
///
/// Returns a list of Sierra statements.
pub fn generate_return_code(
    context: &mut ExprGeneratorContext<'_>,
    returned_variables: &[VariableId],
    statement_location: &StatementLocation,
) -> (result: Maybe<Vec<Statement>>)
    requires
        old(context).wf(),
        lowering::are_variables(returned_variables@, old(context).input().variable_count()),
        code::return_code(
            old(context).input(),
            old(context).names(),
            *statement_location,
            returned_variables@,
        ).names.fits(),
    ensures
        generates(
            *old(context),
            *final(context),
            result,
            code::return_code(
                old(context).input(),
                old(context).names(),
                *statement_location,
                returned_variables@,
            ),
        ),
{
    let ghost input = context.input();
    let ghost start = context.names();
    let ghost all = returned_variables@;
    let ghost pushes = code::pushed_inputs(input, start, *statement_location, all);
    let mut statements: Vec<Statement> = Vec::new();
    // Copy the result to the top of the stack before returning.
    let mut return_variables_on_stack: Vec<VarId> = Vec::new();
    let mut push_values: Vec<PushValue> = Vec::new();
    let mut idx: usize = 0;
    proof {
        assert(all.take(0) == Seq::<VariableId>::empty());
    }
    while idx < returned_variables.len()
        invariant
            idx <= all.len(),
            input == old(context).input(),
            start == old(context).names(),
            all == returned_variables@,
            lowering::are_variables(all, input.variable_count()),
            context.wf(),
            context.input() == input,
            pushes == code::pushed_inputs(input, start, *statement_location, all),
            pushes.names.fits(),
            context.names() == code::pushed_inputs(
                input,
                start,
                *statement_location,
                all.take(idx as int),
            ).names,
            code::pushed_inputs(input, start, *statement_location, all.take(idx as int)).result
                == Ok::<Seq<PushValue>, DiagnosticAdded>(push_values@),
            return_variables_on_stack@ == code::stack_variables(push_values@),
        decreases all.len() - idx,
    {
        let ghost before = context.names();
        let ghost pushed = push_values@;
        let var = SierraGenVar::LoweringVar(returned_variables[idx]);
        proof {
            assert(all.take(idx + 1).drop_last() == all.take(idx as int));
            assert(all.take(idx + 1).last() == all[idx as int]);
            growth::lemma_pushed_inputs_prefix(input, start, *statement_location, all, idx + 1);
            growth::lemma_pushed_input(
                input,
                before,
                *statement_location,
                idx as int,
                all[idx as int],
            );
        }
        let use_location = UseLocation { statement_location: *statement_location, idx };
        let dup = should_dup(context, &use_location);
        let return_variable_on_stack = context.allocate_sierra_variable();
        return_variables_on_stack.push(return_variable_on_stack);
        let sierra_var = context.get_sierra_variable(var);
        let ty = context.get_variable_sierra_type(var)?;
        push_values.push(
            PushValue { var: sierra_var, var_on_stack: return_variable_on_stack, ty, dup },
        );
        proof {
            assert(return_variables_on_stack@ =~= code::stack_variables(push_values@));
        }
        idx = idx + 1;
    }
    proof {
        assert(all.take(all.len() as int) == all);
    }
    statements.push(Statement::PushValues(push_values));
    statements.push(pre_sierra::return_statement(return_variables_on_stack));
    proof {
        growth::lemma_pushed_inputs_values(input, start, *statement_location, all);
        assert(pre_sierra::code(statements@) =~= code::return_code(
            input,
            start,
            *statement_location,
            all,
        ).statements);
    }
    Ok(statements)
}

/// Generates Sierra code for [`StatementLiteral`].
fn generate_statement_literal_code(
    context: &mut ExprGeneratorContext<'_>,
    statement: &StatementLiteral,
) -> (result: Maybe<Vec<Statement>>)
    requires
        old(context).wf(),
        lowering::is_variable(statement.output, old(context).input().variable_count()),
        code::literal_code(
            old(context).input(),
            old(context).names(),
            *statement,
        ).names.fits(),
    ensures
        generates(
            *old(context),
            *final(context),
            result,
            code::literal_code(old(context).input(), old(context).names(), *statement),
        ),
{
    let output_var = context.get_sierra_variable(SierraGenVar::LoweringVar(statement.output));
    let libfunc_id = LibfuncId::Const {
        value_type: context.get_var_type(statement.output),
        value: statement.value.clone(),
    };
    let mut statements: Vec<Statement> = Vec::new();
    statements.push(
        pre_sierra::simple_statement(
            libfunc_id,
            pre_sierra::no_variable(),
            pre_sierra::one_variable(output_var),
        ),
    );
    proof {
        assert(pre_sierra::code(statements@) =~= code::literal_code(
            old(context).input(),
            old(context).names(),
            *statement,
        ).statements);
    }
    Ok(statements)
}

/// Generates Sierra code for [`StatementCall`].
fn generate_statement_call_code(
    context: &mut ExprGeneratorContext<'_>,
    statement: &StatementCall,
    statement_location: &StatementLocation,
) -> (result: Maybe<Vec<Statement>>)
    requires
        old(context).wf(),
        lowering::are_variables(statement.inputs@, old(context).input().variable_count()),
        code::call_code(
            old(context).input(),
            old(context).names(),
            *statement,
            *statement_location,
        ).names.fits(),
    ensures
        generates(
            *old(context),
            *final(context),
            result,
            code::call_code(
                old(context).input(),
                old(context).names(),
                *statement,
                *statement_location,
            ),
        ),
{
    let ghost input = context.input();
    let ghost all = statement.inputs@;
    let ghost middle = context.names().with_variables(all);
    let ghost named = middle.with_variables(statement.outputs@);
    let ghost pushes = code::pushed_inputs(input, named, *statement_location, all);
    let ghost args = code::arguments_code(input, named, *statement_location, all);
    proof {
        names::lemma_with_variables(context.names(), all);
        names::lemma_with_variables(middle, statement.outputs@);
        growth::lemma_pushed_inputs(input, named, *statement_location, all);
        growth::lemma_arguments(input, named, *statement_location, all);
    }
    // Prepare the Sierra input and output variables.
    let inputs = context.get_sierra_variables(statement.inputs.as_slice());
    let outputs = context.get_sierra_variables(statement.outputs.as_slice());
    let libfunc_id = LibfuncId::Function { function: statement.function };
    // Check if this is a user defined function or a libfunc.
    match statement.function.generic_function {
        GenericFunctionId::Free(_) | GenericFunctionId::Impl(_) => {
            // Create [`PushValue`] instances for the arguments.
            let mut args_on_stack: Vec<VarId> = Vec::new();
            let mut push_values_vec: Vec<PushValue> = Vec::new();
            let pairs = outside::zip_eq(&statement.inputs, inputs);
            let mut idx: usize = 0;
            proof {
                assert(all.take(0) == Seq::<VariableId>::empty());
            }
            while idx < pairs.len()
                invariant
                    idx <= all.len(),
                    pairs@.len() == all.len(),
                    all == statement.inputs@,
                    input == old(context).input(),
                    middle == old(context).names().with_variables(all),
                    named == middle.with_variables(statement.outputs@),
                    !(statement.function.generic_function is Extern),
                    forall|i: int|
                        0 <= i < pairs@.len() ==> *(#[trigger] pairs@[i]).0 == all[i]
                            && pairs@[i].1 == middle.lookup(all)[i],
                    named.extends(middle),
                    forall|i: int|
                        0 <= i < all.len() ==> middle.variables.contains_key(
                            SierraGenVar::LoweringVar(#[trigger] all[i]),
                        ),
                    lowering::are_variables(all, input.variable_count()),
                    context.wf(),
                    context.input() == input,
                    pushes == code::pushed_inputs(input, named, *statement_location, all),
                    pushes.names.fits(),
                    context.names() == code::pushed_inputs(
                        input,
                        named,
                        *statement_location,
                        all.take(idx as int),
                    ).names,
                    code::pushed_inputs(
                        input,
                        named,
                        *statement_location,
                        all.take(idx as int),
                    ).result == Ok::<Seq<PushValue>, DiagnosticAdded>(push_values_vec@),
                    args_on_stack@ == code::stack_variables(push_values_vec@),
                decreases all.len() - idx,
            {
                let ghost before = context.names();
                proof {
                    assert(all.take(idx + 1).drop_last() == all.take(idx as int));
                    assert(all.take(idx + 1).last() == all[idx as int]);
                    growth::lemma_pushed_inputs_prefix(
                        input,
                        named,
                        *statement_location,
                        all,
                        idx + 1,
                    );
                    growth::lemma_pushed_inputs(
                        input,
                        named,
                        *statement_location,
                        all.take(idx as int),
                    );
                    // The input has its Sierra variable already.
                    let known = SierraGenVar::LoweringVar(all[idx as int]);
                    names::lemma_extends_variable(middle, named, known);
                    names::lemma_extends_variable(named, before, known);
                }
                let var_id = *pairs[idx].0;
                let var = pairs[idx].1;
                let use_location = UseLocation { statement_location: *statement_location, idx };
                let dup = should_dup(context, &use_location);
                // Allocate a temporary Sierra variable that represents the argument placed on the
                // stack.
                let arg_on_stack = context.allocate_sierra_variable();
                let ty = context.get_variable_sierra_type(SierraGenVar::LoweringVar(var_id))?;
                push_values_vec.push(PushValue { var, var_on_stack: arg_on_stack, ty, dup });
                args_on_stack.push(arg_on_stack);
                proof {
                    assert(args_on_stack@ =~= code::stack_variables(push_values_vec@));
                }
                idx = idx + 1;
            }
            proof {
                assert(all.take(all.len() as int) == all);
                growth::lemma_pushed_inputs_values(input, named, *statement_location, all);
            }
            let mut statements: Vec<Statement> = Vec::new();
            // Push the arguments.
            statements.push(Statement::PushValues(push_values_vec));
            // Call the function.
            statements.push(pre_sierra::simple_statement(libfunc_id, args_on_stack, outputs));
            proof {
                assert(pre_sierra::code(statements@) =~= code::call_code(
                    input,
                    old(context).names(),
                    *statement,
                    *statement_location,
                ).statements);
            }
            Ok(statements)
        },
        GenericFunctionId::Extern(_) => {
            // Dup variables as needed.
            let mut statements: Vec<Statement> = Vec::new();
            let inputs_after_dup = maybe_add_dup_statements(
                context,
                statement_location,
                statement.inputs.as_slice(),
                &mut statements,
            )?;
            let ghost dups = statements@;
            let invocation = pre_sierra::simple_statement(libfunc_id, inputs_after_dup, outputs);
            statements.push(invocation);
            proof {
                pre_sierra::lemma_code_push(dups, invocation);
                assert(pre_sierra::code(statements@) =~= args.statements + seq![invocation@]);
            }
            Ok(statements)
        },
    }
}

/// Generates Sierra code for [`StatementEnumConstruct`].
fn generate_statement_enum_construct(
    context: &mut ExprGeneratorContext<'_>,
    statement: &StatementEnumConstruct,
    statement_location: &StatementLocation,
) -> (result: Maybe<Vec<Statement>>)
    requires
        old(context).wf(),
        lowering::is_variable(statement.input, old(context).input().variable_count()),
        lowering::is_variable(statement.output, old(context).input().variable_count()),
        code::enum_construct_code(
            old(context).input(),
            old(context).names(),
            *statement,
            *statement_location,
        ).names.fits(),
    ensures
        generates(
            *old(context),
            *final(context),
            result,
            code::enum_construct_code(
                old(context).input(),
                old(context).names(),
                *statement,
                *statement_location,
            ),
        ),
{
    let ghost input = context.input();
    let ghost arg = code::argument_code(
        input,
        context.names(),
        *statement_location,
        0,
        statement.input,
    );
    let output = SierraGenVar::LoweringVar(statement.output);
    proof {
        growth::lemma_argument(input, context.names(), *statement_location, 0, statement.input);
        names::lemma_with_variable(arg.names, output);
    }
    let mut statements: Vec<Statement> = Vec::new();
    let input_var = maybe_add_dup_statement(
        context,
        statement_location,
        0,
        &statement.input,
        &mut statements,
    )?;
    let ghost dups = statements@;
    let ty = context.get_variable_sierra_type(output)?;
    let output_var = context.get_sierra_variable(output);
    let construct = pre_sierra::simple_statement(
        LibfuncId::EnumInit { ty, variant_idx: statement.variant.idx },
        pre_sierra::one_variable(input_var),
        pre_sierra::one_variable(output_var),
    );
    statements.push(construct);
    proof {
        pre_sierra::lemma_code_push(dups, construct);
        assert(pre_sierra::code(statements@) =~= arg.statements + seq![construct@]);
    }
    Ok(statements)
}

/// Generates Sierra code for [`StatementStructConstruct`].
fn generate_statement_struct_construct_code(
    context: &mut ExprGeneratorContext<'_>,
    statement: &StatementStructConstruct,
    statement_location: &StatementLocation,
) -> (result: Maybe<Vec<Statement>>)
    requires
        old(context).wf(),
        lowering::are_variables(statement.inputs@, old(context).input().variable_count()),
        lowering::is_variable(statement.output, old(context).input().variable_count()),
        code::struct_construct_code(
            old(context).input(),
            old(context).names(),
            *statement,
            *statement_location,
        ).names.fits(),
    ensures
        generates(
            *old(context),
            *final(context),
            result,
            code::struct_construct_code(
                old(context).input(),
                old(context).names(),
                *statement,
                *statement_location,
            ),
        ),
{
    let ghost input = context.input();
    let ghost args = code::arguments_code(
        input,
        context.names(),
        *statement_location,
        statement.inputs@,
    );
    let output = SierraGenVar::LoweringVar(statement.output);
    proof {
        growth::lemma_arguments(input, context.names(), *statement_location, statement.inputs@);
        names::lemma_with_variable(args.names, output);
    }
    let mut statements: Vec<Statement> = Vec::new();
    let inputs = maybe_add_dup_statements(
        context,
        statement_location,
        statement.inputs.as_slice(),
        &mut statements,
    )?;
    let ghost dups = statements@;
    let ty = context.get_variable_sierra_type(output)?;
    let output_var = context.get_sierra_variable(output);
    let construct = pre_sierra::simple_statement(
        LibfuncId::StructConstruct { ty },
        inputs,
        pre_sierra::one_variable(output_var),
    );
    statements.push(construct);
    proof {
        pre_sierra::lemma_code_push(dups, construct);
        assert(pre_sierra::code(statements@) =~= args.statements + seq![construct@]);
    }
    Ok(statements)
}

/// Generates Sierra code for [`StatementStructDestructure`].
fn generate_statement_struct_destructure_code(
    context: &mut ExprGeneratorContext<'_>,
    statement: &StatementStructDestructure,
    statement_location: &StatementLocation,
) -> (result: Maybe<Vec<Statement>>)
    requires
        old(context).wf(),
        lowering::is_variable(statement.input, old(context).input().variable_count()),
        code::struct_destructure_code(
            old(context).input(),
            old(context).names(),
            *statement,
            *statement_location,
        ).names.fits(),
    ensures
        generates(
            *old(context),
            *final(context),
            result,
            code::struct_destructure_code(
                old(context).input(),
                old(context).names(),
                *statement,
                *statement_location,
            ),
        ),
{
    let ghost input = context.input();
    let ghost arg = code::argument_code(
        input,
        context.names(),
        *statement_location,
        0,
        statement.input,
    );
    proof {
        growth::lemma_argument(input, context.names(), *statement_location, 0, statement.input);
        names::lemma_with_variables(arg.names, statement.outputs@);
    }
    let mut statements: Vec<Statement> = Vec::new();
    let input_var = maybe_add_dup_statement(
        context,
        statement_location,
        0,
        &statement.input,
        &mut statements,
    )?;
    let ghost dups = statements@;
    let ty = context.get_variable_sierra_type(SierraGenVar::LoweringVar(statement.input))?;
    let libfunc_id = context.get_db().struct_deconstruct_libfunc_id(ty)?;
    let outputs = context.get_sierra_variables(statement.outputs.as_slice());
    let deconstruct = pre_sierra::simple_statement(
        libfunc_id,
        pre_sierra::one_variable(input_var),
        outputs,
    );
    statements.push(deconstruct);
    proof {
        pre_sierra::lemma_code_push(dups, deconstruct);
        assert(pre_sierra::code(statements@) =~= arg.statements + seq![deconstruct@]);
    }
    Ok(statements)
}

/// Generates Sierra code for [`StatementSnapshot`].
fn generate_statement_snapshot(
    context: &mut ExprGeneratorContext<'_>,
    statement: &StatementSnapshot,
    _statement_location: &StatementLocation,
) -> (result: Maybe<Vec<Statement>>)
    requires
        old(context).wf(),
        lowering::is_variable(statement.input, old(context).input().variable_count()),
        code::snapshot_code(
            old(context).input(),
            old(context).names(),
            *statement,
        ).names.fits(),
    ensures
        generates(
            *old(context),
            *final(context),
            result,
            code::snapshot_code(
                old(context).input(),
                old(context).names(),
                *statement,
            ),
        ),
{
    let ghost start = context.names();
    let ghost named = start.with_variable(SierraGenVar::LoweringVar(statement.input));
    let ghost outputs = seq![statement.output_original, statement.output_snapshot];
    let original = SierraGenVar::LoweringVar(statement.output_original);
    let snapshot = SierraGenVar::LoweringVar(statement.output_snapshot);
    proof {
        names::lemma_with_variable(start, SierraGenVar::LoweringVar(statement.input));
        names::lemma_with_variables(named, outputs);
        names::lemma_with_variable(named, original);
        names::lemma_with_variable(named.with_variable(original), snapshot);
        assert(outputs.drop_last() =~= seq![statement.output_original]);
        assert(seq![statement.output_original].drop_last() =~= Seq::<VariableId>::empty());
        reveal_with_fuel(Names::with_variables, 3);
        assert(named.with_variables(outputs) == named.with_variable(original).with_variable(
            snapshot,
        ));
    }
    let input_var = context.get_sierra_variable(SierraGenVar::LoweringVar(statement.input));
    let ty = context.get_variable_sierra_type(SierraGenVar::LoweringVar(statement.input))?;
    let original_var = context.get_sierra_variable(original);
    let snapshot_var = context.get_sierra_variable(snapshot);
    let mut statements: Vec<Statement> = Vec::new();
    statements.push(
        pre_sierra::simple_statement(
            LibfuncId::SnapshotTake { ty },
            pre_sierra::one_variable(input_var),
            pre_sierra::two_variables(original_var, snapshot_var),
        ),
    );
    proof {
        assert(named.with_variables(outputs).lookup(outputs) =~= seq![
            original_var,
            snapshot_var,
        ]);
        assert(pre_sierra::code(statements@) =~= code::snapshot_code(
            old(context).input(),
            start,
            *statement,
        ).statements);
    }
    Ok(statements)
}

/// Generates Sierra code for [`StatementDesnap`].
fn generate_statement_desnap(
    context: &mut ExprGeneratorContext<'_>,
    statement: &StatementDesnap,
    _statement_location: &StatementLocation,
) -> (result: Maybe<Vec<Statement>>)
    requires
        old(context).wf(),
        lowering::is_variable(statement.input, old(context).input().variable_count()),
        code::desnap_code(
            old(context).input(),
            old(context).names(),
            *statement,
        ).names.fits(),
    ensures
        generates(
            *old(context),
            *final(context),
            result,
            code::desnap_code(
                old(context).input(),
                old(context).names(),
                *statement,
            ),
        ),
{
    let ghost start = context.names();
    let ghost named = start.with_variable(SierraGenVar::LoweringVar(statement.input));
    let output = SierraGenVar::LoweringVar(statement.output);
    proof {
        names::lemma_with_variable(start, SierraGenVar::LoweringVar(statement.input));
        names::lemma_with_variable(named, output);
    }
    let input_var = context.get_sierra_variable(SierraGenVar::LoweringVar(statement.input));
    let ty = context.get_variable_sierra_type(SierraGenVar::LoweringVar(statement.input))?;
    let output_var = context.get_sierra_variable(output);
    let mut statements: Vec<Statement> = Vec::new();
    statements.push(
        pre_sierra::simple_statement(
            LibfuncId::Rename { ty },
            pre_sierra::one_variable(input_var),
            pre_sierra::one_variable(output_var),
        ),
    );
    proof {
        assert(pre_sierra::code(statements@) =~= code::desnap_code(
            old(context).input(),
            start,
            *statement,
        ).statements);
    }
    Ok(statements)
}

/// Generates Sierra code for [`lowering::Statement`].
pub fn generate_statement_code(
    context: &mut ExprGeneratorContext<'_>,
    statement: &lowering::Statement,
    statement_location: &StatementLocation,
) -> (result: Maybe<Vec<Statement>>)
    requires
        old(context).wf(),
        statement.wf(old(context).input().variable_count()),
        code::statement_code(
            old(context).input(),
            old(context).names(),
            *statement,
            *statement_location,
        ).names.fits(),
    ensures
        generates(
            *old(context),
            *final(context),
            result,
            code::statement_code(
                old(context).input(),
                old(context).names(),
                *statement,
                *statement_location,
            ),
        ),
{
    match statement {
        lowering::Statement::Literal(statement_literal) => {
            generate_statement_literal_code(context, statement_literal)
        },
        lowering::Statement::Call(statement_call) => {
            generate_statement_call_code(context, statement_call, statement_location)
        },
        lowering::Statement::EnumConstruct(statement_enum_construct) => {
            generate_statement_enum_construct(context, statement_enum_construct, statement_location)
        },
        lowering::Statement::StructConstruct(statement) => {
            generate_statement_struct_construct_code(context, statement, statement_location)
        },
        lowering::Statement::StructDestructure(statement) => {
            generate_statement_struct_destructure_code(context, statement, statement_location)
        },
        lowering::Statement::Snapshot(statement) => {
            generate_statement_snapshot(context, statement, statement_location)
        },
        lowering::Statement::Desnap(statement) => {
            generate_statement_desnap(context, statement, statement_location)
        },
    }
}

/// Generates Sierra code for the body of the given [`FlatBlock`].
/// Returns a list of Sierra statements.
#[verifier::rlimit(30)]
pub fn generate_block_body_code(
    context: &mut ExprGeneratorContext<'_>,
    block_id: BlockId,
    block: &FlatBlock,
) -> (result: Maybe<Vec<Statement>>)
    requires
        old(context).wf(),
        block.statements_wf(old(context).input().variable_count()),
        code::body_code(
            old(context).input(),
            old(context).names(),
            block_id,
            *block,
        ).names.fits(),
    ensures
        generates(
            *old(context),
            *final(context),
            result,
            code::body_code(old(context).input(), old(context).names(), block_id, *block),
        ),
{
    let ghost input = context.input();
    let ghost all = block.statements@;
    let ghost begin = DropLocation::BeginningOfBlock(block_id);
    let ghost end = DropLocation::PostStatement(code::end_location(block_id, *block));
    let ghost first = code::drops_at_code(input, context.names(), begin);
    let ghost middle = code::statements_code(input, first.names, block_id, all);
    proof {
        context.lemma_wf();
        growth::lemma_drops(input, context.names(), input.drops_at(begin));
        growth::lemma_statements(input, first.names, block_id, all);
        growth::lemma_drops(input, middle.names, input.drops_at(end));
    }
    let mut statements: Vec<Statement> = Vec::new();
    let drops = context.get_drops();
    add_drop_statements(
        context,
        drops,
        &DropLocation::BeginningOfBlock(block_id),
        &mut statements,
    )?;
    let ghost dropped = statements@;
    proof {
        assert(pre_sierra::code(dropped) =~= first.statements);
        assert(all.take(0) == Seq::<lowering::Statement>::empty());
        assert(first.statements + Seq::<StatementView>::empty() == first.statements);
    }
    // Process the statements.
    let mut i: usize = 0;
    while i < block.statements.len()
        invariant
            i <= all.len(),
            input == old(context).input(),
            all == block.statements@,
            *drops == input.lifetime.drops,
            input.wf(),
            block.statements_wf(input.variable_count()),
            begin == DropLocation::BeginningOfBlock(block_id),
            first == code::drops_at_code(input, old(context).names(), begin),
            first.result is Ok,
            middle == code::statements_code(input, first.names, block_id, all),
            middle.names.fits(),
            context.wf(),
            context.input() == input,
            code::statements_code(input, first.names, block_id, all.take(i as int)).result is Ok,
            context.names() == code::statements_code(
                input,
                first.names,
                block_id,
                all.take(i as int),
            ).names,
            pre_sierra::code(statements@) == first.statements + code::statements_code(
                input,
                first.names,
                block_id,
                all.take(i as int),
            ).statements,
        decreases all.len() - i,
    {
        let ghost before = code::statements_code(
            input,
            first.names,
            block_id,
            all.take(i as int),
        );
        let ghost after = code::statements_code(input, first.names, block_id, all.take(i + 1));
        let statement_location = (block_id, i);
        let drop_location = DropLocation::PostStatement(statement_location);
        let ghost step = code::statement_code(
            input,
            before.names,
            all[i as int],
            statement_location,
        );
        let ghost done = statements@;
        proof {
            assert(all.take(i + 1).drop_last() == all.take(i as int));
            assert(all.take(i + 1).last() == all[i as int]);
            growth::lemma_statements_prefix(input, first.names, block_id, all, i + 1);
            growth::lemma_statement(input, before.names, all[i as int], statement_location);
            growth::lemma_drops(input, step.names, input.drops_at(drop_location));
        }
        let mut code = generate_statement_code(context, &block.statements[i], &statement_location)?;
        proof {
            pre_sierra::lemma_code_append(done, code@);
        }
        statements.append(&mut code);
        add_drop_statements(context, drops, &drop_location, &mut statements)?;
        proof {
            assert(pre_sierra::code(statements@) =~= first.statements + after.statements);
        }
        i = i + 1;
    }
    proof {
        assert(all.take(all.len() as int) == all);
    }
    let drop_location = DropLocation::PostStatement((block_id, block.statements.len()));
    add_drop_statements(context, drops, &drop_location, &mut statements)?;
    Ok(statements)
}

/// Generates a push_values statement that corresponds to `remapping`.
fn generate_push_values_statement_for_remapping(
    context: &mut ExprGeneratorContext<'_>,
    _statement_location: StatementLocation,
    remapping: &VarRemapping,
) -> (result: Maybe<Statement>)
    requires
        old(context).wf(),
        lowering::is_remapping(*remapping, old(context).input().variable_count()),
        code::remapping_code(old(context).input(), old(context).names(), remapping@) is Some,
        code::remapping_code(
            old(context).input(),
            old(context).names(),
            remapping@,
        )->0.names.fits(),
    ensures
        context_steps(
            *old(context),
            *final(context),
            code::remapping_code(old(context).input(), old(context).names(), remapping@)->0,
        ),
        match result {
            Ok(statement) => {
                &&& code::remapping_code(
                    old(context).input(),
                    old(context).names(),
                    remapping@,
                )->0.result is Ok
                &&& code::remapping_code(
                    old(context).input(),
                    old(context).names(),
                    remapping@,
                )->0.statements == seq![statement@]
            },
            Err(_) => code::remapping_code(
                old(context).input(),
                old(context).names(),
                remapping@,
            )->0.result is Err,
        },
{
    let ghost input = context.input();
    let ghost start = context.names();
    let ghost all = remapping@;
    let ghost pushes = code::remapped_values(input, start, all)->0;
    let mut push_values: Vec<PushValue> = Vec::new();
    let mut i: usize = 0;
    proof {
        assert(all.take(0) == Seq::<(VariableId, VariableId)>::empty());
    }
    while i < remapping.len()
        invariant
            i <= all.len(),
            input == old(context).input(),
            start == old(context).names(),
            all == remapping@,
            lowering::is_remapping(*remapping, input.variable_count()),
            context.wf(),
            context.input() == input,
            code::remapped_values(input, start, all) is Some,
            pushes == code::remapped_values(input, start, all)->0,
            pushes.names.fits(),
            code::remapped_values(input, start, all.take(i as int)) is Some,
            context.names() == code::remapped_values(input, start, all.take(i as int))->0.names,
            code::remapped_values(input, start, all.take(i as int))->0.result == Ok::<
                Seq<PushValue>,
                DiagnosticAdded,
            >(push_values@),
        decreases all.len() - i,
    {
        let ghost before = context.names();
        let (output, inner_output) = *remapping.entry(i);
        let output_var = SierraGenVar::LoweringVar(output);
        let inner_output_var = SierraGenVar::LoweringVar(inner_output);
        proof {
            assert(all.take(i + 1).drop_last() == all.take(i as int));
            assert(all.take(i + 1).last() == all[i as int]);
            growth::lemma_remapped_values_prefix(input, start, all, i + 1);
            names::lemma_with_variable(before, inner_output_var);
            names::lemma_with_variable(before.with_variable(inner_output_var), output_var);
        }
        let ty = context.get_variable_sierra_type(inner_output_var)?;
        // Both sides of a remapping have the same type.
        let _var_on_stack_ty = context.get_variable_sierra_type(output_var)?;
        let var = context.get_sierra_variable(inner_output_var);
        let var_on_stack = context.get_sierra_variable(output_var);
        push_values.push(PushValue { var, var_on_stack, ty, dup: false });
        i = i + 1;
    }
    proof {
        assert(all.take(all.len() as int) == all);
        growth::lemma_remapped_values_statements(input, start, all);
    }
    let statement = Statement::PushValues(push_values);
    proof {
        assert(Seq::<StatementView>::empty() + seq![statement@] =~= seq![statement@]);
    }
    Ok(statement)
}

/// Gives labels to all the arms of a match, except for the first (which will be Fallthrough).
fn new_arm_labels(
    context: &mut ExprGeneratorContext<'_>,
    arm_count: usize,
) -> (labels: Vec<LabelId>)
    requires
        old(context).wf(),
        arm_count > 0,
        old(context).names().with_fresh_labels((arm_count - 1) as nat).fits(),
    ensures
        final(context).wf(),
        final(context).input() == old(context).input(),
        final(context).names() == old(context).names().with_fresh_labels((arm_count - 1) as nat),
        labels@ == Seq::new(
            (arm_count - 1) as nat,
            |i: int| old(context).names().label_ahead(i as nat),
        ),
{
    let ghost start = context.names();
    let mut labels: Vec<LabelId> = Vec::new();
    let mut i: usize = 1;
    while i < arm_count
        invariant
            1 <= i <= arm_count,
            start == old(context).names(),
            start.with_fresh_labels((arm_count - 1) as nat).fits(),
            context.wf(),
            context.input() == old(context).input(),
            context.names() == start.with_fresh_labels((i - 1) as nat),
            labels@ == Seq::new((i - 1) as nat, |j: int| start.label_ahead(j as nat)),
        decreases arm_count - i,
    {
        labels.push(context.new_label());
        proof {
            assert(labels@ =~= Seq::new(i as nat, |j: int| start.label_ahead(j as nat)));
        }
        i = i + 1;
    }
    labels
}

/// Creates the branches of a match to its arms, and gives the arms their variables.
fn generate_match_branches(
    context: &mut ExprGeneratorContext<'_>,
    arms: &Vec<MatchArm>,
    arm_labels: &Vec<LabelId>,
) -> (branches: Vec<GenBranchInfo>)
    requires
        old(context).wf(),
        arms@.len() == arm_labels@.len() + 1,
        old(context).names().with_variables(code::arm_variables(arms@)).fits(),
    ensures
        final(context).wf(),
        final(context).input() == old(context).input(),
        final(context).names() == old(context).names().with_variables(
            code::arm_variables(arms@),
        ),
        pre_sierra::branch_views(branches@) == Seq::new(
            arms@.len(),
            |i: int|
                BranchView {
                    target: if i == 0 {
                        GenBranchTarget::Fallthrough
                    } else {
                        GenBranchTarget::Statement(arm_labels@[i - 1])
                    },
                    results: final(context).names().lookup(arms@[i].var_ids@),
                },
        ),
{
    let ghost start = context.names();
    let ghost all = arms@;
    let mut arm_targets: Vec<GenBranchTarget> = Vec::new();
    arm_targets.push(GenBranchTarget::Fallthrough);
    let mut i: usize = 0;
    while i < arm_labels.len()
        invariant
            i <= arm_labels@.len(),
            arm_targets@.len() == i + 1,
            arm_targets@[0] == GenBranchTarget::Fallthrough,
            forall|j: int|
                0 < j <= i ==> #[trigger] arm_targets@[j] == GenBranchTarget::Statement(
                    arm_labels@[j - 1],
                ),
        decreases arm_labels@.len() - i,
    {
        arm_targets.push(GenBranchTarget::Statement(arm_labels[i]));
        i = i + 1;
    }
    let ghost targets = arm_targets@;
    let pairs = outside::zip_eq(arms, arm_targets);
    let mut branches: Vec<GenBranchInfo> = Vec::new();
    let mut k: usize = 0;
    proof {
        assert(all.take(0) == Seq::<MatchArm>::empty());
    }
    while k < pairs.len()
        invariant
            k <= all.len(),
            pairs@.len() == all.len(),
            targets.len() == all.len(),
            forall|j: int|
                0 <= j < pairs@.len() ==> *(#[trigger] pairs@[j]).0 == all[j] && pairs@[j].1
                    == targets[j],
            start == old(context).names(),
            start.with_variables(code::arm_variables(all)).fits(),
            context.wf(),
            context.input() == old(context).input(),
            context.names() == start.with_variables(code::arm_variables(all.take(k as int))),
            branches@.len() == k,
            forall|j: int|
                0 <= j < k ==> (#[trigger] branches@[j]).target == targets[j]
                    && branches@[j].results@ == context.names().lookup(all[j].var_ids@),
        decreases all.len() - k,
    {
        let ghost before = context.names();
        let ghost done = branches@;
        let (arm, target) = pairs[k];
        proof {
            let more = all.take(k + 1);
            assert(more.drop_last() == all.take(k as int));
            assert(more.last() == all[k as int]);
            names::lemma_with_variables_split(
                start,
                code::arm_variables(all.take(k as int)),
                all[k as int].var_ids@,
            );
            growth::lemma_arm_variables(start, all, k + 1);
            growth::lemma_arm_variables(start, all.take(k as int), 0);
            names::lemma_with_variables(before, all[k as int].var_ids@);
        }
        let results = context.get_sierra_variables(arm.var_ids.as_slice());
        branches.push(GenBranchInfo { target, results });
        proof {
            assert forall|j: int| 0 <= j < k + 1 implies (#[trigger] branches@[j]).target
                == targets[j] && branches@[j].results@ == context.names().lookup(
                    all[j].var_ids@,
                ) by {
                if j < k {
                    assert(branches@[j] == done[j]);
                    assert(all.take(k as int)[j] == all[j]);
                    names::lemma_lookup_extends(before, context.names(), all[j].var_ids@);
                }
            }
        }
        k = k + 1;
    }
    proof {
        assert(all.take(all.len() as int) == all);
        assert(pre_sierra::branch_views(branches@) =~= Seq::new(
            arms@.len(),
            |i: int|
                BranchView {
                    target: if i == 0 {
                        GenBranchTarget::Fallthrough
                    } else {
                        GenBranchTarget::Statement(arm_labels@[i - 1])
                    },
                    results: context.names().lookup(arms@[i].var_ids@),
                },
        ));
    }
    branches
}

/// The code of an arm comes after that of the arms before it.
proof fn lemma_arm_appended(
    earlier: Seq<StatementView>,
    before: Seq<StatementView>,
    head: Seq<StatementView>,
    block: Seq<StatementView>,
)
    ensures
        earlier + before + head + block == earlier + (before + head + block),
{
    assert(earlier + before + head + block =~= earlier + (before + head + block));
}

/// Generates the blocks of the arms of a match, each after its label and the alignment of the gas
/// costs.
#[verifier::rlimit(60)]
fn generate_match_arms(
    context: &mut ExprGeneratorContext<'_>,
    arms: &Vec<MatchArm>,
    arm_labels: &Vec<LabelId>,
    statements: &mut Vec<Statement>,
    Ghost(start): Ghost<Names>,
    Ghost(depth): Ghost<nat>,
) -> (result: Maybe<()>)
    requires
        old(context).wf(),
        arms@.len() > 0,
        arm_labels@ == Seq::new((arms@.len() - 1) as nat, |i: int| start.label_ahead(i as nat)),
        code::arms_code(
            start,
            old(context).names(),
            arms@,
            code::blocks_within(old(context).input(), depth),
        ) is Some,
        code::arms_code(
            start,
            old(context).names(),
            arms@,
            code::blocks_within(old(context).input(), depth),
        )->0.names.fits(),
    ensures
        context_steps(
            *old(context),
            *final(context),
            code::arms_code(
                start,
                old(context).names(),
                arms@,
                code::blocks_within(old(context).input(), depth),
            )->0,
        ),
        result is Ok <==> code::arms_code(
            start,
            old(context).names(),
            arms@,
            code::blocks_within(old(context).input(), depth),
        )->0.result is Ok,
        result is Ok ==> pre_sierra::code(final(statements)@) == pre_sierra::code(
            old(statements)@,
        ) + code::arms_code(
            start,
            old(context).names(),
            arms@,
            code::blocks_within(old(context).input(), depth),
        )->0.statements,
    decreases depth, 1nat,
{
    let ghost input = context.input();
    let ghost first = context.names();
    let ghost all = arms@;
    let ghost blocks = code::blocks_within(input, depth);
    let ghost step = code::arms_code(start, first, all, blocks)->0;
    let ghost earlier = pre_sierra::code(statements@);
    let mut i: usize = 0;
    proof {
        assert(all.take(0) == Seq::<MatchArm>::empty());
        assert(earlier + Seq::<StatementView>::empty() == earlier);
    }
    while i < arms.len()
        invariant
            i <= all.len(),
            all == arms@,
            arm_labels@ == Seq::new(
                (all.len() - 1) as nat,
                |i: int| start.label_ahead(i as nat),
            ),
            input == old(context).input(),
            first == old(context).names(),
            earlier == pre_sierra::code(old(statements)@),
            blocks == code::blocks_within(input, depth),
            context.wf(),
            context.input() == input,
            code::arms_code(start, first, all, blocks) is Some,
            step == code::arms_code(start, first, all, blocks)->0,
            step.names.fits(),
            code::arms_code(start, first, all.take(i as int), blocks) is Some,
            code::arms_code(start, first, all.take(i as int), blocks)->0.result is Ok,
            context.names() == code::arms_code(start, first, all.take(i as int), blocks)->0.names,
            pre_sierra::code(statements@) == earlier + code::arms_code(
                start,
                first,
                all.take(i as int),
                blocks,
            )->0.statements,
        decreases all.len() - i,
    {
        let ghost before = code::arms_code(start, first, all.take(i as int), blocks)->0;
        let ghost done = statements@;
        proof {
            depth::lemma_next_arm(input, start, first, all, depth, i as int);
        }
        // Add a label for each of the arm blocks, except for the first.
        if i > 0 {
            statements.push(pre_sierra::label_statement(arm_labels[i - 1]));
        }
        // Add branch_align to equalize gas costs across the merging paths.
        statements.push(
            pre_sierra::simple_statement(
                LibfuncId::BranchAlign,
                pre_sierra::no_variable(),
                pre_sierra::no_variable(),
            ),
        );
        let ghost headed = statements@;
        let ghost head = code::arm_head(start, i as int);
        proof {
            assert(pre_sierra::code(headed) =~= pre_sierra::code(done) + head);
        }
        let mut code = generate_block_code(context, arms[i].block_id)?;
        proof {
            pre_sierra::lemma_code_append(headed, code@);
            lemma_arm_appended(
                earlier,
                before.statements,
                head,
                pre_sierra::code(code@),
            );
        }
        statements.append(&mut code);
        i = i + 1;
    }
    proof {
        assert(all.take(all.len() as int) == all);
    }
    Ok(())
}

/// Generates Sierra code for [`MatchExternInfo`].
fn generate_match_extern_code(
    context: &mut ExprGeneratorContext<'_>,
    match_info: &MatchExternInfo,
    statement_location: &StatementLocation,
    Ghost(depth): Ghost<nat>,
) -> (result: Maybe<Vec<Statement>>)
    requires
        old(context).wf(),
        lowering::are_variables(match_info.inputs@, old(context).input().variable_count()),
        code::match_code(
            old(context).input(),
            old(context).names(),
            *statement_location,
            match_info.inputs@,
            Ok(LibfuncId::Function { function: match_info.function }),
            match_info.arms@,
            code::blocks_within(old(context).input(), depth),
        ) is Some,
        code::match_code(
            old(context).input(),
            old(context).names(),
            *statement_location,
            match_info.inputs@,
            Ok(LibfuncId::Function { function: match_info.function }),
            match_info.arms@,
            code::blocks_within(old(context).input(), depth),
        )->0.names.fits(),
    ensures
        generates(
            *old(context),
            *final(context),
            result,
            code::match_code(
                old(context).input(),
                old(context).names(),
                *statement_location,
                match_info.inputs@,
                Ok(LibfuncId::Function { function: match_info.function }),
                match_info.arms@,
                code::blocks_within(old(context).input(), depth),
            )->0,
        ),
    decreases depth, 2nat,
{
    let ghost input = context.input();
    let ghost start = context.names();
    let ghost arms = match_info.arms@;
    let ghost inputs: Seq<VariableId> = match_info.inputs@;
    let ghost libfunc: Maybe<LibfuncId> = Ok(LibfuncId::Function { function: match_info.function });
    let ghost named = code::match_names(start, arms);
    let ghost branching = code::branching_code(
        input,
        start,
        *statement_location,
        inputs,
        libfunc,
        arms,
    );
    proof {
        growth::lemma_blocks_within(input, depth);
        growth::lemma_branching(input, start, *statement_location, inputs, libfunc, arms);
        if branching.result is Ok {
            growth::lemma_arms_prefix(
                start,
                branching.names,
                arms,
                code::blocks_within(input, depth),
                0,
            );
            assert(arms.take(0) == Seq::<MatchArm>::empty());
        }
        growth::lemma_match_names(start, arms);
    }
    let mut statements: Vec<Statement> = Vec::new();
    // Generate labels for all the arms, except for the first (which will be Fallthrough).
    let arm_labels = new_arm_labels(context, match_info.arms.len());
    // Generate a label for the end of the match.
    let end_label = context.new_label();
    proof {
        assert(context.names() == start.with_fresh_labels(arms.len()));
    }
    // Create the arm branches.
    let branches = generate_match_branches(context, &match_info.arms, &arm_labels);
    proof {
        assert(pre_sierra::branch_views(branches@) =~= code::match_branches(start, arms));
    }
    // Prepare the Sierra input variables.
    let args_vec = maybe_add_dup_statements(
        context,
        statement_location,
        match_info.inputs.as_slice(),
        &mut statements,
    )?;
    let ghost dups = statements@;
    // Get the libfunc.
    let libfunc_id = LibfuncId::Function { function: match_info.function };
    // Call the match libfunc.
    let invocation = Statement::Sierra(
        GenStatement::Invocation(GenInvocation { libfunc_id, args: args_vec, branches }),
    );
    statements.push(invocation);
    proof {
        pre_sierra::lemma_code_push(dups, invocation);
        assert(pre_sierra::code(statements@) =~= branching.statements);
    }
    // Generate the blocks.
    generate_match_arms(
        context,
        &match_info.arms,
        &arm_labels,
        &mut statements,
        Ghost(start),
        Ghost(depth),
    )?;
    let ghost done = statements@;
    // Post match.
    let end = pre_sierra::label_statement(end_label);
    statements.push(end);
    proof {
        pre_sierra::lemma_code_push(done, end);
        assert(pre_sierra::code(statements@) =~= branching.statements + (code::arms_code(
            start,
            branching.names,
            arms,
            code::blocks_within(input, depth),
        )->0.statements + seq![end@]));
    }
    Ok(statements)
}

/// Generates Sierra code for [`MatchEnumInfo`].
fn generate_match_enum_code(
    context: &mut ExprGeneratorContext<'_>,
    match_info: &MatchEnumInfo,
    statement_location: &StatementLocation,
    Ghost(depth): Ghost<nat>,
) -> (result: Maybe<Vec<Statement>>)
    requires
        old(context).wf(),
        lowering::is_variable(match_info.input, old(context).input().variable_count()),
        code::match_code(
            old(context).input(),
            old(context).names(),
            *statement_location,
            seq![match_info.input],
            code::match_enum_libfunc(old(context).input(), match_info.input),
            match_info.arms@,
            code::blocks_within(old(context).input(), depth),
        ) is Some,
        code::match_code(
            old(context).input(),
            old(context).names(),
            *statement_location,
            seq![match_info.input],
            code::match_enum_libfunc(old(context).input(), match_info.input),
            match_info.arms@,
            code::blocks_within(old(context).input(), depth),
        )->0.names.fits(),
    ensures
        generates(
            *old(context),
            *final(context),
            result,
            code::match_code(
                old(context).input(),
                old(context).names(),
                *statement_location,
                seq![match_info.input],
                code::match_enum_libfunc(old(context).input(), match_info.input),
                match_info.arms@,
                code::blocks_within(old(context).input(), depth),
            )->0,
        ),
    decreases depth, 2nat,
{
    let ghost input = context.input();
    let ghost start = context.names();
    let ghost arms = match_info.arms@;
    let ghost inputs: Seq<VariableId> = seq![match_info.input];
    let ghost libfunc: Maybe<LibfuncId> = code::match_enum_libfunc(input, match_info.input);
    let ghost named = code::match_names(start, arms);
    let ghost branching = code::branching_code(
        input,
        start,
        *statement_location,
        inputs,
        libfunc,
        arms,
    );
    proof {
        growth::lemma_blocks_within(input, depth);
        growth::lemma_branching(input, start, *statement_location, inputs, libfunc, arms);
        if branching.result is Ok {
            growth::lemma_arms_prefix(
                start,
                branching.names,
                arms,
                code::blocks_within(input, depth),
                0,
            );
            assert(arms.take(0) == Seq::<MatchArm>::empty());
        }
        growth::lemma_match_names(start, arms);
        growth::lemma_one_argument(input, named, *statement_location, match_info.input);
    }
    let mut statements: Vec<Statement> = Vec::new();
    // Generate labels for all the arms, except for the first (which will be Fallthrough).
    let arm_labels = new_arm_labels(context, match_info.arms.len());
    // Generate a label for the end of the match.
    let end_label = context.new_label();
    proof {
        assert(context.names() == start.with_fresh_labels(arms.len()));
    }
    // Create the arm branches.
    let branches = generate_match_branches(context, &match_info.arms, &arm_labels);
    proof {
        assert(pre_sierra::branch_views(branches@) =~= code::match_branches(start, arms));
    }
    // Prepare the Sierra input variables.
    let matched_enum = maybe_add_dup_statement(
        context,
        statement_location,
        0,
        &match_info.input,
        &mut statements,
    )?;
    let ghost dups = statements@;
    // Get the libfunc.
    let concrete_enum_type = context.get_variable_sierra_type(
        SierraGenVar::LoweringVar(match_info.input),
    )?;
    let libfunc_id = context.get_db().match_enum_libfunc_id(concrete_enum_type)?;
    // Call the match libfunc.
    let invocation = Statement::Sierra(
        GenStatement::Invocation(
            GenInvocation { libfunc_id, args: pre_sierra::one_variable(matched_enum), branches },
        ),
    );
    statements.push(invocation);
    proof {
        pre_sierra::lemma_code_push(dups, invocation);
        assert(pre_sierra::code(statements@) =~= branching.statements);
    }
    // Generate the blocks.
    generate_match_arms(
        context,
        &match_info.arms,
        &arm_labels,
        &mut statements,
        Ghost(start),
        Ghost(depth),
    )?;
    let ghost done = statements@;
    // Post match.
    let end = pre_sierra::label_statement(end_label);
    statements.push(end);
    proof {
        pre_sierra::lemma_code_push(done, end);
        assert(pre_sierra::code(statements@) =~= branching.statements + (code::arms_code(
            start,
            branching.names,
            arms,
            code::blocks_within(input, depth),
        )->0.statements + seq![end@]));
    }
    Ok(statements)
}

/// Generates Sierra code for going on at another block: the remapped values are pushed, and the
/// block that follows comes next, after its label, while there is a jump to any other one.
fn generate_goto_code(
    context: &mut ExprGeneratorContext<'_>,
    block_id: BlockId,
    statement_location: StatementLocation,
    target_block_id: &BlockId,
    remapping: &VarRemapping,
    Ghost(depth): Ghost<nat>,
) -> (result: Maybe<Vec<Statement>>)
    requires
        old(context).wf(),
        block_id.0 < usize::MAX,
        lowering::is_remapping(*remapping, old(context).input().variable_count()),
        code::goto_code(
            old(context).input(),
            old(context).names(),
            block_id,
            *target_block_id,
            remapping@,
            code::blocks_within(old(context).input(), depth),
        ) is Some,
        code::goto_code(
            old(context).input(),
            old(context).names(),
            block_id,
            *target_block_id,
            remapping@,
            code::blocks_within(old(context).input(), depth),
        )->0.names.fits(),
    ensures
        generates(
            *old(context),
            *final(context),
            result,
            code::goto_code(
                old(context).input(),
                old(context).names(),
                block_id,
                *target_block_id,
                remapping@,
                code::blocks_within(old(context).input(), depth),
            )->0,
        ),
    decreases depth, 2nat,
{
    let ghost input = context.input();
    let ghost start = context.names();
    let ghost pushes = code::remapping_code(input, start, remapping@)->0;
    let ghost named = pushes.names.with_block_label(*target_block_id);
    proof {
        growth::lemma_remapping(input, start, remapping@);
        names::lemma_with_block_label(pushes.names, *target_block_id);
        if pushes.result is Ok && target_block_id.0 == block_id.0 + 1 {
            growth::lemma_blocks_within(input, depth);
            assert(code::block_code_within(input, named, *target_block_id, depth) is Some);
            depth::lemma_block_code(input, named, *target_block_id, depth);
        }
    }
    let mut statements: Vec<Statement> = Vec::new();
    let push_values = generate_push_values_statement_for_remapping(
        context,
        statement_location,
        remapping,
    )?;
    statements.push(push_values);
    let label = context.block_label(*target_block_id);
    if *target_block_id == block_id.next_block_id() {
        statements.push(pre_sierra::label_statement(label));
        let ghost headed = statements@;
        let mut code = generate_block_code(context, *target_block_id)?;
        proof {
            pre_sierra::lemma_code_append(headed, code@);
            assert(pre_sierra::code(headed) =~= pushes.statements + seq![
                StatementView::Label(label),
            ]);
        }
        statements.append(&mut code);
    } else {
        statements.push(pre_sierra::jump_statement(label));
        proof {
            assert(pre_sierra::code(statements@) =~= pushes.statements + seq![
                pre_sierra::jump(label),
            ]);
        }
    }
    Ok(statements)
}

/// Generates Sierra for a given [`FlatBlock`].
///
/// Returns a list of Sierra statements.
/// Assumes `block_id` is a block of the function.
pub fn generate_block_code(
    context: &mut ExprGeneratorContext<'_>,
    block_id: BlockId,
) -> (result: Maybe<Vec<Statement>>)
    requires
        old(context).wf(),
        code::block_code(old(context).input(), old(context).names(), block_id) is Some,
        code::block_code(
            old(context).input(),
            old(context).names(),
            block_id,
        )->0.names.fits(),
    ensures
        generates(
            *old(context),
            *final(context),
            result,
            code::block_code(old(context).input(), old(context).names(), block_id)->0,
        ),
    decreases code::block_depth(old(context).input(), old(context).names(), block_id), 0nat,
{
    let ghost input = context.input();
    let ghost start = context.names();
    let ghost depth = code::block_depth(input, start, block_id);
    let ghost less = (depth - 1) as nat;
    proof {
        context.lemma_wf();
        depth::lemma_block_within_parts(input, start, block_id);
        growth::lemma_blocks_within(input, less);
    }
    let block = context.get_lowered_block(block_id);
    let statement_location: StatementLocation = (block_id, block.statements.len());
    let ghost body = code::body_code(input, start, block_id, *block);
    let ghost end = code::end_code(
        input,
        body.names,
        block_id,
        *block,
        code::blocks_within(input, less),
    );
    proof {
        assert(input.lowered.blocks@[block_id.0 as int].wf(input.variable_count()));
        assert(input.lowered.blocks@.len() == input.lowered.blocks.len());
        if body.result is Ok {
            growth::lemma_end(
                input,
                body.names,
                block_id,
                *block,
                code::blocks_within(input, less),
            );
        }
    }
    let mut statements = generate_block_body_code(context, block_id, block)?;
    let ghost done = statements@;
    match &block.end {
        FlatBlockEnd::Return(returned_variables) => {
            let mut code = generate_return_code(
                context,
                returned_variables.as_slice(),
                &statement_location,
            )?;
            proof {
                pre_sierra::lemma_code_append(done, code@);
            }
            statements.append(&mut code);
        },
        FlatBlockEnd::Panic(_) => {
            // Panics were stripped in a previous phase.
            assert(false);
        },
        FlatBlockEnd::Goto(target_block_id, remapping) => {
            let mut code = generate_goto_code(
                context,
                block_id,
                statement_location,
                target_block_id,
                remapping,
                Ghost(less),
            )?;
            proof {
                pre_sierra::lemma_code_append(done, code@);
            }
            statements.append(&mut code);
        },
        FlatBlockEnd::NotSet => {
            assert(false);
        },
        // Process the block end if it's a match.
        FlatBlockEnd::Match { info } => {
            let mut code = match info {
                MatchInfo::Extern(s) => {
                    generate_match_extern_code(context, s, &statement_location, Ghost(less))?
                },
                MatchInfo::Enum(s) => {
                    generate_match_enum_code(context, s, &statement_location, Ghost(less))?
                },
            };
            proof {
                pre_sierra::lemma_code_append(done, code@);
            }
            statements.append(&mut code);
        },
    }
    proof {
        assert(pre_sierra::code(statements@) =~= body.statements + end->0.statements);
    }
    Ok(statements)
}

} // verus!
