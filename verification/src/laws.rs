//! What holds of all generated code.

use vstd::prelude::*;

use crate::code;
use crate::context::FunctionInput;
use crate::growth;
use crate::libfunc::{GenericFunctionId, LibfuncId};
use crate::lifetime::{DropLocation, SierraGenVar};
use crate::lowering::{BlockId, FlatBlock, Statement, StatementLocation, VariableId};
use crate::meaning;
use crate::names;
use crate::names::Names;
use crate::pre_sierra::{PushValue, StatementView, VarId};

verus! {

broadcast use crate::names::lemma_extends_reflexive;

/// Variables can be dropped if and only if all have a Sierra type.
pub proof fn drops_succeed_iff_typed(input: FunctionInput, names: Names, vars: Seq<SierraGenVar>)
    ensures
        code::drops_code(input, names, vars).result is Ok <==> forall|i: int|
            0 <= i < vars.len() ==> meaning::recorded_type(input, #[trigger] vars[i]) is Ok,
    decreases vars.len(),
{
    if vars.len() > 0 {
        let shorter = vars.drop_last();
        drops_succeed_iff_typed(input, names, shorter);
        assert(forall|i: int| 0 <= i < shorter.len() ==> shorter[i] == vars[i]);
        assert(vars[vars.len() - 1] == vars.last());
        if forall|i: int|
            0 <= i < vars.len() ==> meaning::recorded_type(input, #[trigger] vars[i]) is Ok {
            assert forall|i: int| 0 <= i < shorter.len() implies meaning::recorded_type(
                input,
                #[trigger] shorter[i],
            ) is Ok by {
                assert(meaning::recorded_type(input, vars[i]) is Ok);
            }
        } else if code::drops_code(input, names, vars).result is Ok {
            assert forall|i: int| 0 <= i < vars.len() implies meaning::recorded_type(
                input,
                #[trigger] vars[i],
            ) is Ok by {
                if i < shorter.len() {
                    assert(meaning::recorded_type(input, shorter[i]) is Ok);
                }
            }
        }
    }
}

/// Dropping variables takes one call of the `drop` libfunc for each, in order, on the Sierra
/// variable and with the type of the variable.
pub proof fn drops_are_in_order(input: FunctionInput, names: Names, vars: Seq<SierraGenVar>)
    requires
        code::drops_code(input, names, vars).result is Ok,
    ensures
        ({
            let step = code::drops_code(input, names, vars);
            &&& step.statements.len() == vars.len()
            &&& forall|i: int|
                0 <= i < vars.len() ==> step.names.variables.contains_key(#[trigger] vars[i])
                    && step.statements[i] == meaning::invoked(
                        LibfuncId::Drop { ty: meaning::recorded_type(input, vars[i])->Ok_0 },
                        seq![step.names.variables[vars[i]]],
                        Seq::empty(),
                    )
        }),
    decreases vars.len(),
{
    if vars.len() > 0 {
        let shorter = vars.drop_last();
        let before = code::drops_code(input, names, shorter);
        let step = code::drops_code(input, names, vars);
        drops_are_in_order(input, names, shorter);
        names::lemma_with_variable(before.names, vars.last());
        assert forall|i: int| 0 <= i < vars.len() implies step.names.variables.contains_key(
            #[trigger] vars[i],
        ) && step.statements[i] == meaning::invoked(
            LibfuncId::Drop { ty: meaning::recorded_type(input, vars[i])->Ok_0 },
            seq![step.names.variables[vars[i]]],
            Seq::empty(),
        ) by {
            if i < shorter.len() {
                assert(shorter[i] == vars[i]);
                names::lemma_extends_variable(before.names, step.names, vars[i]);
            }
        }
    }
}

/// Dropping variables stops at the first that has no Sierra type: it gets its Sierra variable, and
/// the drops before it stay.
pub proof fn drops_stop_at_first_untyped(
    input: FunctionInput,
    names: Names,
    vars: Seq<SierraGenVar>,
    first: int,
)
    requires
        0 <= first < vars.len(),
        forall|i: int| 0 <= i < first ==> meaning::recorded_type(input, #[trigger] vars[i]) is Ok,
        meaning::recorded_type(input, vars[first]) is Err,
    ensures
        ({
            let step = code::drops_code(input, names, vars);
            let before = code::drops_code(input, names, vars.take(first));
            &&& before.result is Ok
            &&& step.result is Err
            &&& step.statements == before.statements
            &&& step.names == before.names.with_variable(vars[first])
        }),
    decreases vars.len(),
{
    let shorter = vars.drop_last();
    if first < shorter.len() {
        assert(shorter.take(first) == vars.take(first));
        assert forall|i: int| 0 <= i < first implies meaning::recorded_type(
            input,
            #[trigger] shorter[i],
        ) is Ok by {
            assert(shorter[i] == vars[i]);
        }
        drops_stop_at_first_untyped(input, names, shorter, first);
    } else {
        let before = code::drops_code(input, names, shorter);
        assert(shorter == vars.take(first));
        drops_succeed_iff_typed(input, names, shorter);
        assert(before.statements + Seq::<StatementView>::empty() == before.statements);
    }
}

/// Inputs can be pushed if and only if all have a Sierra type.
pub proof fn pushes_succeed_iff_typed(
    input: FunctionInput,
    names: Names,
    location: StatementLocation,
    vars: Seq<VariableId>,
)
    ensures
        code::pushed_inputs(input, names, location, vars).result is Ok <==> forall|i: int|
            0 <= i < vars.len() ==> meaning::type_of(input, #[trigger] vars[i]) is Ok,
    decreases vars.len(),
{
    if vars.len() > 0 {
        let shorter = vars.drop_last();
        pushes_succeed_iff_typed(input, names, location, shorter);
        assert(vars[vars.len() - 1] == vars.last());
        if forall|i: int|
            0 <= i < vars.len() ==> meaning::type_of(input, #[trigger] vars[i]) is Ok {
            assert forall|i: int| 0 <= i < shorter.len() implies meaning::type_of(
                input,
                #[trigger] shorter[i],
            ) is Ok by {
                assert(meaning::type_of(input, vars[i]) is Ok);
            }
        } else if code::pushed_inputs(input, names, location, vars).result is Ok {
            assert forall|i: int| 0 <= i < vars.len() implies meaning::type_of(
                input,
                #[trigger] vars[i],
            ) is Ok by {
                if i < shorter.len() {
                    assert(meaning::type_of(input, shorter[i]) is Ok);
                }
            }
        }
    }
}

/// A push is that of an input: of its Sierra variable, with its type, and as a copy unless it is
/// the last use.
pub open spec fn is_push_of(
    push: PushValue,
    input: FunctionInput,
    names: Names,
    location: StatementLocation,
    idx: int,
    var: VariableId,
) -> bool {
    &&& names.variables.contains_key(SierraGenVar::LoweringVar(var))
    &&& push.var == names.variables[SierraGenVar::LoweringVar(var)]
    &&& meaning::type_of(input, var) is Ok
    &&& push.ty == meaning::type_of(input, var)->Ok_0
    &&& push.dup == meaning::used_again(input, location, idx)
}

/// There is one push for each input, in order.
pub proof fn pushes_are_in_order(
    input: FunctionInput,
    names: Names,
    location: StatementLocation,
    vars: Seq<VariableId>,
)
    requires
        code::pushed_inputs(input, names, location, vars).result is Ok,
    ensures
        ({
            let step = code::pushed_inputs(input, names, location, vars);
            &&& step.value().len() == vars.len()
            &&& forall|i: int|
                0 <= i < vars.len() ==> is_push_of(
                    #[trigger] step.value()[i],
                    input,
                    step.names,
                    location,
                    i,
                    vars[i],
                )
        }),
    decreases vars.len(),
{
    if vars.len() > 0 {
        let shorter = vars.drop_last();
        let before = code::pushed_inputs(input, names, location, shorter);
        let step = code::pushed_inputs(input, names, location, vars);
        pushes_are_in_order(input, names, location, shorter);
        growth::lemma_pushed_input(input, before.names, location, vars.len() - 1, vars.last());
        names::lemma_with_variable(
            before.names.with_fresh_variable(),
            SierraGenVar::LoweringVar(vars.last()),
        );
        assert forall|i: int| 0 <= i < vars.len() implies is_push_of(
            #[trigger] step.value()[i],
            input,
            step.names,
            location,
            i,
            vars[i],
        ) by {
            if i < shorter.len() {
                assert(before.value()[i] == step.value()[i]);
                assert(shorter[i] == vars[i]);
                names::lemma_extends_variable(
                    before.names,
                    step.names,
                    SierraGenVar::LoweringVar(vars[i]),
                );
            }
        }
    }
}

/// The pushed values get new Sierra variables, all different, and none of them ever stands for a
/// variable of the function.
pub proof fn pushes_are_fresh(
    input: FunctionInput,
    names: Names,
    location: StatementLocation,
    vars: Seq<VariableId>,
)
    requires
        names.wf(),
        code::pushed_inputs(input, names, location, vars).result is Ok,
        code::pushed_inputs(input, names, location, vars).names.fits(),
    ensures
        ({
            let step = code::pushed_inputs(input, names, location, vars);
            &&& step.value().len() == vars.len()
            &&& forall|i: int|
                0 <= i < vars.len() ==> names.next_variable <= (
                #[trigger] step.value()[i]).var_on_stack.0 < step.names.next_variable
            &&& forall|i: int, j: int|
                0 <= i < j < vars.len() ==> (#[trigger] step.value()[i]).var_on_stack != (
                #[trigger] step.value()[j]).var_on_stack
            &&& forall|i: int, var: SierraGenVar|
                0 <= i < vars.len() && step.names.variables.contains_key(var) ==> (
                #[trigger] step.value()[i]).var_on_stack != #[trigger] step.names.variables[var]
        }),
    decreases vars.len(),
{
    if vars.len() > 0 {
        let shorter = vars.drop_last();
        let before = code::pushed_inputs(input, names, location, shorter);
        let step = code::pushed_inputs(input, names, location, vars);
        let allocated = before.names.with_fresh_variable();
        let last = SierraGenVar::LoweringVar(vars.last());
        growth::lemma_pushed_input(input, before.names, location, vars.len() - 1, vars.last());
        growth::lemma_pushed_inputs(input, names, location, shorter);
        pushes_are_fresh(input, names, location, shorter);
        names::lemma_extends_wf(names, before.names);
        assert(step.names == allocated.with_variable(last));
        assert forall|i: int, var: SierraGenVar|
            0 <= i < vars.len() && step.names.variables.contains_key(var) implies (
        #[trigger] step.value()[i]).var_on_stack != #[trigger] step.names.variables[var] by {
            if i < shorter.len() {
                assert(before.value()[i] == step.value()[i]);
            }
        }
        assert forall|i: int, j: int| 0 <= i < j < vars.len() implies (
        #[trigger] step.value()[i]).var_on_stack != (#[trigger] step.value()[j]).var_on_stack by {
            assert(before.value()[i] == step.value()[i]);
            if j < shorter.len() {
                assert(before.value()[j] == step.value()[j]);
            }
        }
        assert forall|i: int| 0 <= i < vars.len() implies names.next_variable <= (
        #[trigger] step.value()[i]).var_on_stack.0 < step.names.next_variable by {
            if i < shorter.len() {
                assert(before.value()[i] == step.value()[i]);
            }
        }
    }
}

/// An input can be made ready: it is the last use of the variable, or else the variable has a
/// Sierra type, so that it can be copied.
pub open spec fn argument_resolves(
    input: FunctionInput,
    location: StatementLocation,
    idx: int,
    var: VariableId,
) -> bool {
    meaning::used_again(input, location, idx) ==> meaning::type_of(input, var) is Ok
}

/// All inputs can be made ready.
pub open spec fn arguments_resolve(
    input: FunctionInput,
    location: StatementLocation,
    vars: Seq<VariableId>,
) -> bool {
    forall|i: int|
        0 <= i < vars.len() ==> argument_resolves(input, location, i, #[trigger] vars[i])
}

/// Making inputs ready succeeds if and only if each can be made ready.
pub proof fn arguments_succeed_iff_resolved(
    input: FunctionInput,
    names: Names,
    location: StatementLocation,
    vars: Seq<VariableId>,
)
    ensures
        code::arguments_code(input, names, location, vars).result is Ok <==> arguments_resolve(
            input,
            location,
            vars,
        ),
    decreases vars.len(),
{
    if vars.len() > 0 {
        let shorter = vars.drop_last();
        arguments_succeed_iff_resolved(input, names, location, shorter);
        if arguments_resolve(input, location, vars) {
            assert forall|i: int| 0 <= i < shorter.len() implies argument_resolves(
                input,
                location,
                i,
                #[trigger] shorter[i],
            ) by {
                assert(argument_resolves(input, location, i, vars[i]));
            }
            assert(argument_resolves(input, location, vars.len() - 1, vars[vars.len() - 1]));
        } else if code::arguments_code(input, names, location, vars).result is Ok {
            assert forall|i: int| 0 <= i < vars.len() implies argument_resolves(
                input,
                location,
                i,
                #[trigger] vars[i],
            ) by {
                if i < shorter.len() {
                    assert(argument_resolves(input, location, i, shorter[i]));
                }
            }
        }
    }
}

/// The statement copies a variable.
pub open spec fn is_dup_of(
    statement: StatementView,
    input: FunctionInput,
    names: Names,
    var: VariableId,
    copy: VarId,
) -> bool {
    let original = names.variables[SierraGenVar::LoweringVar(var)];
    statement == meaning::invoked(
        LibfuncId::Dup { ty: meaning::type_of(input, var)->Ok_0 },
        seq![original],
        seq![original, copy],
    )
}

/// The copied inputs are those that are not last uses, each once and in increasing order.
pub proof fn copied_inputs_are_the_others(
    input: FunctionInput,
    location: StatementLocation,
    count: nat,
)
    ensures
        ({
            let copied = meaning::copied_inputs(input, location, count);
            &&& copied.len() <= count
            &&& forall|k: int|
                0 <= k < copied.len() ==> 0 <= #[trigger] copied[k] < count && meaning::used_again(
                    input,
                    location,
                    copied[k],
                )
            &&& forall|k: int, l: int|
                0 <= k < l < copied.len() ==> #[trigger] copied[k] < #[trigger] copied[l]
            &&& forall|i: int|
                0 <= i < count && #[trigger] meaning::used_again(input, location, i)
                    ==> copied.contains(i)
        }),
    decreases count,
{
    if count > 0 {
        let before = meaning::copied_inputs(input, location, (count - 1) as nat);
        let copied = meaning::copied_inputs(input, location, count);
        copied_inputs_are_the_others(input, location, (count - 1) as nat);
        assert forall|i: int|
            0 <= i < count && #[trigger] meaning::used_again(
                input,
                location,
                i,
            ) implies copied.contains(i) by {
            if i < count - 1 {
                assert(before.contains(i));
                let k = choose|k: int| 0 <= k < before.len() && before[k] == i;
                assert(copied[k] == i);
            } else {
                assert(copied[before.len() as int] == i);
            }
        }
    }
}

/// There is one argument for each input, in order: the input's own Sierra variable at its last use,
/// and else a copy. The copies are made one after the other, in the order of the inputs, and
/// nothing else is done.
pub proof fn arguments_are_in_order(
    input: FunctionInput,
    names: Names,
    location: StatementLocation,
    vars: Seq<VariableId>,
)
    requires
        code::arguments_code(input, names, location, vars).result is Ok,
    ensures
        ({
            let step = code::arguments_code(input, names, location, vars);
            let copied = meaning::copied_inputs(input, location, vars.len());
            &&& step.value().len() == vars.len()
            &&& forall|i: int|
                0 <= i < vars.len() ==> step.names.variables.contains_key(
                    SierraGenVar::LoweringVar(#[trigger] vars[i]),
                )
            &&& forall|i: int|
                0 <= i < vars.len() && !meaning::used_again(input, location, i)
                    ==> #[trigger] step.value()[i]
                    == step.names.variables[SierraGenVar::LoweringVar(vars[i])]
            &&& step.statements.len() == copied.len()
            &&& forall|k: int|
                0 <= k < copied.len() ==> is_dup_of(
                    #[trigger] step.statements[k],
                    input,
                    step.names,
                    vars[copied[k]],
                    step.value()[copied[k]],
                )
        }),
    decreases vars.len(),
{
    if vars.len() > 0 {
        let shorter = vars.drop_last();
        let before = code::arguments_code(input, names, location, shorter);
        let step = code::arguments_code(input, names, location, vars);
        let last = SierraGenVar::LoweringVar(vars.last());
        let named = before.names.with_variable(last);
        let copied_before = meaning::copied_inputs(input, location, shorter.len());
        let copied = meaning::copied_inputs(input, location, vars.len());
        arguments_are_in_order(input, names, location, shorter);
        copied_inputs_are_the_others(input, location, shorter.len());
        growth::lemma_argument(input, before.names, location, vars.len() - 1, vars.last());
        names::lemma_with_variable(before.names, last);
        names::lemma_with_fresh_variable(named);
        assert forall|i: int| 0 <= i < vars.len() implies step.names.variables.contains_key(
            SierraGenVar::LoweringVar(#[trigger] vars[i]),
        ) && (i < shorter.len() ==> step.names.variables[SierraGenVar::LoweringVar(vars[i])]
            == before.names.variables[SierraGenVar::LoweringVar(vars[i])]) by {
            if i < shorter.len() {
                assert(shorter[i] == vars[i]);
                names::lemma_extends_variable(
                    before.names,
                    step.names,
                    SierraGenVar::LoweringVar(vars[i]),
                );
            }
        }
        assert forall|i: int|
            0 <= i < vars.len() && !meaning::used_again(
                input,
                location,
                i,
            ) implies #[trigger] step.value()[i]
            == step.names.variables[SierraGenVar::LoweringVar(vars[i])] by {
            if i < shorter.len() {
                assert(before.value()[i] == step.value()[i]);
                assert(shorter[i] == vars[i]);
            }
        }
        assert forall|k: int| 0 <= k < copied.len() implies is_dup_of(
            #[trigger] step.statements[k],
            input,
            step.names,
            vars[copied[k]],
            step.value()[copied[k]],
        ) by {
            if k < copied_before.len() {
                let i = copied_before[k];
                assert(copied[k] == i);
                assert(step.statements[k] == before.statements[k]);
                assert(before.value()[i] == step.value()[i]);
                assert(shorter[i] == vars[i]);
            }
        }
    }
}

/// A copy is a new Sierra variable, which never stands for a variable of the function, and no two
/// copies are the same.
pub proof fn copies_are_fresh(
    input: FunctionInput,
    names: Names,
    location: StatementLocation,
    vars: Seq<VariableId>,
)
    requires
        names.wf(),
        code::arguments_code(input, names, location, vars).result is Ok,
        code::arguments_code(input, names, location, vars).names.fits(),
    ensures
        ({
            let step = code::arguments_code(input, names, location, vars);
            &&& step.value().len() == vars.len()
            &&& forall|i: int|
                0 <= i < vars.len() && meaning::used_again(input, location, i)
                    ==> names.next_variable <= (#[trigger] step.value()[i]).0
                    < step.names.next_variable
            &&& forall|i: int, j: int|
                0 <= i < j < vars.len() && meaning::used_again(input, location, i)
                    && meaning::used_again(input, location, j) ==> #[trigger] step.value()[i]
                    != #[trigger] step.value()[j]
            &&& forall|i: int, var: SierraGenVar|
                0 <= i < vars.len() && meaning::used_again(input, location, i)
                    && step.names.variables.contains_key(var) ==> #[trigger] step.value()[i]
                    != #[trigger] step.names.variables[var]
        }),
    decreases vars.len(),
{
    if vars.len() > 0 {
        let shorter = vars.drop_last();
        let before = code::arguments_code(input, names, location, shorter);
        let step = code::arguments_code(input, names, location, vars);
        let last = SierraGenVar::LoweringVar(vars.last());
        let named = before.names.with_variable(last);
        growth::lemma_argument(input, before.names, location, vars.len() - 1, vars.last());
        growth::lemma_arguments(input, names, location, shorter);
        copies_are_fresh(input, names, location, shorter);
        names::lemma_extends_wf(names, before.names);
        names::lemma_with_variable(before.names, last);
        names::lemma_extends_wf(before.names, named);
        assert(step.names.variables == named.variables);
        assert(forall|i: int|
            0 <= i < shorter.len() ==> #[trigger] step.value()[i] == before.value()[i]);
        assert forall|i: int, var: SierraGenVar|
            0 <= i < vars.len() && meaning::used_again(input, location, i)
                && step.names.variables.contains_key(var) implies #[trigger] step.value()[i]
            != #[trigger] step.names.variables[var] by {
            if i < shorter.len() {
                assert(before.value()[i] == step.value()[i]);
                if before.names.variables.contains_key(var) {
                    assert(before.names.variables[var] == step.names.variables[var]);
                }
            } else {
                assert(named.variables.contains_key(var));
            }
        }
        assert forall|i: int, j: int|
            0 <= i < j < vars.len() && meaning::used_again(input, location, i)
                && meaning::used_again(input, location, j) implies #[trigger] step.value()[i]
                != #[trigger] step.value()[j] by {
            assert(before.value()[i] == step.value()[i]);
            if j < shorter.len() {
                assert(before.value()[j] == step.value()[j]);
            }
        }
    }
}

/// Returning takes a push of each returned value and the return of the pushed values, in order.
pub proof fn return_pushes_and_returns(
    input: FunctionInput,
    names: Names,
    location: StatementLocation,
    vars: Seq<VariableId>,
)
    ensures
        ({
            let step = code::return_code(input, names, location, vars);
            let pushes = code::pushed_inputs(input, names, location, vars);
            &&& step.result is Ok <==> forall|i: int|
                0 <= i < vars.len() ==> meaning::type_of(input, #[trigger] vars[i]) is Ok
            &&& step.result is Ok ==> step.statements == seq![
                StatementView::PushValues(pushes.value()),
                StatementView::Return(code::stack_variables(pushes.value())),
            ]
        }),
{
    let pushes = code::pushed_inputs(input, names, location, vars);
    let step = code::return_code(input, names, location, vars);
    pushes_succeed_iff_typed(input, names, location, vars);
    growth::lemma_pushed_inputs_values(input, names, location, vars);
    if step.result is Ok {
        assert(step.statements =~= seq![
            StatementView::PushValues(pushes.value()),
            StatementView::Return(code::stack_variables(pushes.value())),
        ]);
    }
}

/// What the generation of a statement asks of the types is known.
pub open spec fn statement_resolves(
    input: FunctionInput,
    statement: Statement,
    location: StatementLocation,
) -> bool {
    match statement {
        Statement::Literal(_) => true,
        Statement::Call(s) => match s.function.generic_function {
            GenericFunctionId::Free(_) | GenericFunctionId::Impl(_) => forall|i: int|
                0 <= i < s.inputs@.len() ==> meaning::type_of(input, #[trigger] s.inputs@[i]) is Ok,
            GenericFunctionId::Extern(_) => arguments_resolve(input, location, s.inputs@),
        },
        Statement::EnumConstruct(s) => argument_resolves(input, location, 0, s.input)
            && meaning::type_of(input, s.output) is Ok,
        Statement::StructConstruct(s) => arguments_resolve(input, location, s.inputs@)
            && meaning::type_of(input, s.output) is Ok,
        Statement::StructDestructure(s) => meaning::type_of(input, s.input) is Ok
            && !input.db.without_struct_deconstruct.map().contains_key(
                meaning::type_of(input, s.input)->Ok_0,
            ),
        Statement::Snapshot(s) => meaning::type_of(input, s.input) is Ok,
        Statement::Desnap(s) => meaning::type_of(input, s.input) is Ok,
    }
}

/// A statement can be generated if and only if what it asks of the types is known, whatever names
/// were given.
pub proof fn statement_succeeds_iff_resolved(
    input: FunctionInput,
    names: Names,
    statement: Statement,
    location: StatementLocation,
)
    ensures
        code::statement_code(input, names, statement, location).result is Ok
            <==> statement_resolves(input, statement, location),
{
    match statement {
        Statement::Call(s) => {
            let named = names.with_variables(s.inputs@).with_variables(s.outputs@);
            pushes_succeed_iff_typed(input, named, location, s.inputs@);
            arguments_succeed_iff_resolved(input, named, location, s.inputs@);
        },
        Statement::StructConstruct(s) => {
            arguments_succeed_iff_resolved(input, names, location, s.inputs@);
        },
        _ => {},
    }
}

/// The variables that a statement defines, in order.
pub open spec fn defined_variables(statement: Statement) -> Seq<VariableId> {
    match statement {
        Statement::Literal(s) => seq![s.output],
        Statement::Call(s) => s.outputs@,
        Statement::EnumConstruct(s) => seq![s.output],
        Statement::StructConstruct(s) => seq![s.output],
        Statement::StructDestructure(s) => s.outputs@,
        Statement::Snapshot(s) => seq![s.output_original, s.output_snapshot],
        Statement::Desnap(s) => seq![s.output],
    }
}

/// An invocation with one branch, which goes on with the next statement.
pub open spec fn goes_on(statement: StatementView) -> bool {
    statement matches StatementView::Invocation { libfunc_id, args, branches } && branches.len()
        == 1 && branches[0].target is Fallthrough
}

/// Each statement goes on with the next one, and only the first may be a push.
pub open spec fn is_straight(statements: Seq<StatementView>) -> bool {
    forall|i: int|
        0 <= i < statements.len() ==> goes_on(#[trigger] statements[i]) || (i == 0
            && statements[i] is PushValues)
}

/// Making inputs ready takes only invocations that go on with the next statement.
proof fn lemma_arguments_go_on(
    input: FunctionInput,
    names: Names,
    location: StatementLocation,
    vars: Seq<VariableId>,
)
    ensures
        forall|i: int|
            0 <= i < code::arguments_code(input, names, location, vars).statements.len()
                ==> goes_on(
                #[trigger] code::arguments_code(input, names, location, vars).statements[i],
            ),
    decreases vars.len(),
{
    if vars.len() > 0 {
        lemma_arguments_go_on(input, names, location, vars.drop_last());
    }
}

/// The statement is an invocation that goes on with the next one and defines the variables, in
/// order.
pub open spec fn defines(statement: StatementView, names: Names, vars: Seq<VariableId>) -> bool {
    &&& goes_on(statement)
    &&& statement->branches[0].results == names.lookup(vars)
    &&& forall|i: int|
        0 <= i < vars.len() ==> names.variables.contains_key(
            SierraGenVar::LoweringVar(#[trigger] vars[i]),
        )
}

/// The code of a statement is straight: each part of it goes on with the next, and at most one
/// push comes, at the beginning. Where the statement can be generated, the last part defines its
/// variables, in order.
pub proof fn statements_are_straight(
    input: FunctionInput,
    names: Names,
    statement: Statement,
    location: StatementLocation,
)
    ensures
        ({
            let step = code::statement_code(input, names, statement, location);
            &&& is_straight(step.statements)
            &&& step.result is Ok ==> step.statements.len() > 0 && defines(
                step.statements.last(),
                step.names,
                defined_variables(statement),
            )
        }),
{
    let step = code::statement_code(input, names, statement, location);
    let defined = defined_variables(statement);
    match statement {
        Statement::Literal(s) => {
            names::lemma_with_variable(names, SierraGenVar::LoweringVar(s.output));
            assert(step.names.lookup(defined) =~= seq![
                names.variable(SierraGenVar::LoweringVar(s.output)),
            ]);
        },
        Statement::Call(s) => {
            let first = names.with_variables(s.inputs@);
            let named = first.with_variables(s.outputs@);
            names::lemma_with_variables(first, s.outputs@);
            lemma_arguments_go_on(input, named, location, s.inputs@);
            growth::lemma_arguments(input, named, location, s.inputs@);
            growth::lemma_pushed_inputs(input, named, location, s.inputs@);
            growth::lemma_pushed_inputs_values(input, named, location, s.inputs@);
            names::lemma_lookup_extends(named, step.names, s.outputs@);
            assert forall|i: int|
                0 <= i < defined.len() implies step.names.variables.contains_key(
                SierraGenVar::LoweringVar(#[trigger] defined[i]),
            ) by {
                names::lemma_extends_variable(
                    named,
                    step.names,
                    SierraGenVar::LoweringVar(defined[i]),
                );
            }
        },
        Statement::EnumConstruct(s) => {
            let arg = code::argument_code(input, names, location, 0, s.input);
            names::lemma_with_variable(arg.names, SierraGenVar::LoweringVar(s.output));
            if step.result is Ok {
                assert(step.names.lookup(defined) =~= seq![
                    arg.names.variable(SierraGenVar::LoweringVar(s.output)),
                ]);
            }
        },
        Statement::StructConstruct(s) => {
            let args = code::arguments_code(input, names, location, s.inputs@);
            lemma_arguments_go_on(input, names, location, s.inputs@);
            names::lemma_with_variable(args.names, SierraGenVar::LoweringVar(s.output));
            if step.result is Ok {
                assert(step.names.lookup(defined) =~= seq![
                    args.names.variable(SierraGenVar::LoweringVar(s.output)),
                ]);
            }
        },
        Statement::StructDestructure(s) => {
            let arg = code::argument_code(input, names, location, 0, s.input);
            names::lemma_with_variables(arg.names, s.outputs@);
        },
        Statement::Snapshot(s) => {
            let named = names.with_variable(SierraGenVar::LoweringVar(s.input));
            names::lemma_with_variables(named, defined);
        },
        Statement::Desnap(s) => {
            let named = names.with_variable(SierraGenVar::LoweringVar(s.input));
            names::lemma_with_variable(named, SierraGenVar::LoweringVar(s.output));
            if step.result is Ok {
                assert(step.names.lookup(defined) =~= seq![
                    named.variable(SierraGenVar::LoweringVar(s.output)),
                ]);
            }
        },
    }
}

/// What the drops at a place ask of the types is known.
pub open spec fn drops_resolve(input: FunctionInput, location: DropLocation) -> bool {
    forall|i: int|
        0 <= i < meaning::dying_at(input, location).len() ==> meaning::recorded_type(
            input,
            #[trigger] meaning::dying_at(input, location)[i],
        ) is Ok
}

/// What the first statements of a block and the drops after them ask of the types is known.
pub open spec fn statements_resolve(
    input: FunctionInput,
    block_id: BlockId,
    statements: Seq<Statement>,
) -> bool {
    forall|i: int|
        0 <= i < statements.len() ==> statement_resolves(
            input,
            #[trigger] statements[i],
            (block_id, i as usize),
        ) && drops_resolve(input, DropLocation::PostStatement((block_id, i as usize)))
}

/// What statements ask is known where it is of the last and of those before it.
proof fn lemma_statements_resolve(
    input: FunctionInput,
    block_id: BlockId,
    statements: Seq<Statement>,
)
    requires
        statements.len() > 0,
    ensures
        ({
            let location = (block_id, (statements.len() - 1) as usize);
            statements_resolve(input, block_id, statements) <==> {
                &&& statements_resolve(input, block_id, statements.drop_last())
                &&& statement_resolves(input, statements.last(), location)
                &&& drops_resolve(input, DropLocation::PostStatement(location))
            }
        }),
{
    let shorter = statements.drop_last();
    let last = statements.len() - 1;
    let location = (block_id, last as usize);
    if statements_resolve(input, block_id, statements) {
        assert forall|j: int| 0 <= j < shorter.len() implies statement_resolves(
            input,
            #[trigger] shorter[j],
            (block_id, j as usize),
        ) && drops_resolve(input, DropLocation::PostStatement((block_id, j as usize))) by {
            assert(shorter[j] == statements[j]);
        }
        assert(statements[last] == statements.last());
    } else if statements_resolve(input, block_id, shorter) {
        let j = choose|j: int|
            0 <= j < statements.len() && !(statement_resolves(
                input,
                #[trigger] statements[j],
                (block_id, j as usize),
            ) && drops_resolve(input, DropLocation::PostStatement((block_id, j as usize))));
        if j < last {
            assert(shorter[j] == statements[j]);
        }
    }
}

/// Statements can be generated if and only if what they and the drops after them ask of the types
/// is known.
pub proof fn statements_succeed_iff_resolved(
    input: FunctionInput,
    names: Names,
    block_id: BlockId,
    statements: Seq<Statement>,
)
    ensures
        code::statements_code(input, names, block_id, statements).result is Ok
            <==> statements_resolve(input, block_id, statements),
    decreases statements.len(),
{
    if statements.len() > 0 {
        let shorter = statements.drop_last();
        let location = (block_id, (statements.len() - 1) as usize);
        let place = DropLocation::PostStatement(location);
        let before = code::statements_code(input, names, block_id, shorter);
        let statement = before.then_emit(
            code::statement_code(input, before.names, statements.last(), location),
        );
        statements_succeed_iff_resolved(input, names, block_id, shorter);
        statement_succeeds_iff_resolved(input, before.names, statements.last(), location);
        drops_succeed_iff_typed(input, statement.names, meaning::dying_at(input, place));
        lemma_statements_resolve(input, block_id, statements);
        assert(statement.result is Ok <==> statements_resolve(input, block_id, shorter)
            && statement_resolves(input, statements.last(), location));
        assert(code::drops_at_code(input, statement.names, place).result is Ok <==> drops_resolve(
            input,
            place,
        ));
    }
}

/// What the body of a block asks of the types is known.
pub open spec fn body_resolves(input: FunctionInput, block_id: BlockId, block: FlatBlock) -> bool {
    &&& drops_resolve(input, DropLocation::BeginningOfBlock(block_id))
    &&& statements_resolve(input, block_id, block.statements@)
    &&& drops_resolve(input, DropLocation::PostStatement(meaning::place_of_end(block_id, block)))
}

/// The body of a block can be generated if and only if what it asks of the types is known,
/// whatever names were given.
pub proof fn body_succeeds_iff_resolved(
    input: FunctionInput,
    names: Names,
    block_id: BlockId,
    block: FlatBlock,
)
    ensures
        code::body_code(input, names, block_id, block).result is Ok <==> body_resolves(
            input,
            block_id,
            block,
        ),
{
    let begin = DropLocation::BeginningOfBlock(block_id);
    let end = DropLocation::PostStatement(meaning::place_of_end(block_id, block));
    let first = code::drops_at_code(input, names, begin);
    let statements = first.then_emit(
        code::statements_code(input, first.names, block_id, block.statements@),
    );
    drops_succeed_iff_typed(input, names, meaning::dying_at(input, begin));
    statements_succeed_iff_resolved(input, first.names, block_id, block.statements@);
    drops_succeed_iff_typed(input, statements.names, meaning::dying_at(input, end));
}

/// The names came from the earlier ones by giving at most so many Sierra variables and no label.
pub open spec fn gives_at_most(earlier: Names, later: Names, count: nat) -> bool {
    &&& later.next_variable <= earlier.next_variable + count
    &&& later.next_label == earlier.next_label
    &&& later.block_labels == earlier.block_labels
}

/// Naming variables gives at most one Sierra variable to each.
pub proof fn variables_give_few_names(names: Names, vars: Seq<VariableId>)
    ensures
        gives_at_most(names, names.with_variables(vars), vars.len()),
    decreases vars.len(),
{
    if vars.len() > 0 {
        variables_give_few_names(names, vars.drop_last());
    }
}

/// Dropping variables gives at most one Sierra variable to each.
pub proof fn drops_give_few_names(input: FunctionInput, names: Names, vars: Seq<SierraGenVar>)
    ensures
        gives_at_most(names, code::drops_code(input, names, vars).names, vars.len()),
    decreases vars.len(),
{
    if vars.len() > 0 {
        drops_give_few_names(input, names, vars.drop_last());
    }
}

/// Making inputs ready gives at most two Sierra variables to each.
pub proof fn arguments_give_few_names(
    input: FunctionInput,
    names: Names,
    location: StatementLocation,
    vars: Seq<VariableId>,
)
    ensures
        gives_at_most(
            names,
            code::arguments_code(input, names, location, vars).names,
            2 * vars.len(),
        ),
    decreases vars.len(),
{
    if vars.len() > 0 {
        arguments_give_few_names(input, names, location, vars.drop_last());
    }
}

/// Making inputs that have Sierra variables ready gives at most one more to each.
proof fn lemma_known_arguments_count(
    input: FunctionInput,
    names: Names,
    location: StatementLocation,
    vars: Seq<VariableId>,
)
    requires
        forall|i: int|
            0 <= i < vars.len() ==> names.variables.contains_key(
                SierraGenVar::LoweringVar(#[trigger] vars[i]),
            ),
    ensures
        gives_at_most(
            names,
            code::arguments_code(input, names, location, vars).names,
            vars.len(),
        ),
        code::arguments_code(input, names, location, vars).names.variables == names.variables,
    decreases vars.len(),
{
    if vars.len() > 0 {
        assert forall|i: int| 0 <= i < vars.drop_last().len() implies names.variables.contains_key(
            SierraGenVar::LoweringVar(#[trigger] vars.drop_last()[i]),
        ) by {
            assert(vars.drop_last()[i] == vars[i]);
        }
        lemma_known_arguments_count(input, names, location, vars.drop_last());
        assert(names.variables.contains_key(SierraGenVar::LoweringVar(vars[vars.len() - 1])));
    }
}

/// Pushing inputs gives at most two Sierra variables to each.
proof fn lemma_pushes_count(
    input: FunctionInput,
    names: Names,
    location: StatementLocation,
    vars: Seq<VariableId>,
)
    ensures
        gives_at_most(
            names,
            code::pushed_inputs(input, names, location, vars).names,
            2 * vars.len(),
        ),
    decreases vars.len(),
{
    if vars.len() > 0 {
        lemma_pushes_count(input, names, location, vars.drop_last());
    }
}

/// Pushing inputs that have Sierra variables gives at most one more to each.
proof fn lemma_known_pushes_count(
    input: FunctionInput,
    names: Names,
    location: StatementLocation,
    vars: Seq<VariableId>,
)
    requires
        forall|i: int|
            0 <= i < vars.len() ==> names.variables.contains_key(
                SierraGenVar::LoweringVar(#[trigger] vars[i]),
            ),
    ensures
        gives_at_most(
            names,
            code::pushed_inputs(input, names, location, vars).names,
            vars.len(),
        ),
        code::pushed_inputs(input, names, location, vars).names.variables == names.variables,
    decreases vars.len(),
{
    if vars.len() > 0 {
        assert forall|i: int| 0 <= i < vars.drop_last().len() implies names.variables.contains_key(
            SierraGenVar::LoweringVar(#[trigger] vars.drop_last()[i]),
        ) by {
            assert(vars.drop_last()[i] == vars[i]);
        }
        lemma_known_pushes_count(input, names, location, vars.drop_last());
        assert(names.variables.contains_key(SierraGenVar::LoweringVar(vars[vars.len() - 1])));
    }
}

/// Returning gives at most two Sierra variables to each returned variable.
pub proof fn returns_give_few_names(
    input: FunctionInput,
    names: Names,
    location: StatementLocation,
    vars: Seq<VariableId>,
)
    ensures
        gives_at_most(
            names,
            code::return_code(input, names, location, vars).names,
            2 * vars.len(),
        ),
{
    lemma_pushes_count(input, names, location, vars);
}

/// The number of inputs of a statement.
pub open spec fn input_count(statement: Statement) -> nat {
    match statement {
        Statement::Literal(_) => 0,
        Statement::Call(s) => s.inputs@.len(),
        Statement::StructConstruct(s) => s.inputs@.len(),
        _ => 1,
    }
}

/// The number of outputs of a statement.
pub open spec fn output_count(statement: Statement) -> nat {
    match statement {
        Statement::Call(s) => s.outputs@.len(),
        Statement::StructDestructure(s) => s.outputs@.len(),
        Statement::Snapshot(_) => 2,
        _ => 1,
    }
}

/// A statement gives at most two Sierra variables to each input and one to each output.
pub proof fn statements_give_few_names(
    input: FunctionInput,
    names: Names,
    statement: Statement,
    location: StatementLocation,
)
    ensures
        gives_at_most(
            names,
            code::statement_code(input, names, statement, location).names,
            2 * input_count(statement) + output_count(statement),
        ),
{
    match statement {
        Statement::Call(s) => {
            let middle = names.with_variables(s.inputs@);
            let named = middle.with_variables(s.outputs@);
            variables_give_few_names(names, s.inputs@);
            variables_give_few_names(middle, s.outputs@);
            names::lemma_with_variables(names, s.inputs@);
            names::lemma_with_variables(middle, s.outputs@);
            assert forall|i: int| 0 <= i < s.inputs@.len() implies named.variables.contains_key(
                SierraGenVar::LoweringVar(#[trigger] s.inputs@[i]),
            ) by {
                names::lemma_extends_variable(
                    middle,
                    named,
                    SierraGenVar::LoweringVar(s.inputs@[i]),
                );
            }
            lemma_known_pushes_count(input, named, location, s.inputs@);
            lemma_known_arguments_count(input, named, location, s.inputs@);
        },
        Statement::StructConstruct(s) => {
            arguments_give_few_names(input, names, location, s.inputs@);
        },
        Statement::StructDestructure(s) => {
            let arg = code::argument_code(input, names, location, 0, s.input);
            variables_give_few_names(arg.names, s.outputs@);
        },
        Statement::Snapshot(s) => {
            let named = names.with_variable(SierraGenVar::LoweringVar(s.input));
            variables_give_few_names(named, seq![s.output_original, s.output_snapshot]);
        },
        _ => {},
    }
}

} // verus!
