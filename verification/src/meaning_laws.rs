//! The code of statements, drops and returns is what it has to be.

use vstd::prelude::*;

use crate::code;
use crate::context::FunctionInput;
use crate::growth;
use crate::laws;
use crate::libfunc::{GenericFunctionId, LibfuncId};
use crate::lifetime::SierraGenVar;
use crate::lowering::{
    Statement, StatementCall, StatementDesnap, StatementEnumConstruct, StatementLiteral,
    StatementLocation, StatementSnapshot, StatementStructConstruct, StatementStructDestructure,
    VariableId,
};
use crate::meaning;
use crate::names;
use crate::names::Names;
use crate::pre_sierra::{StatementView, VarId};

verus! {

broadcast use crate::names::lemma_extends_reflexive;

/// Mentions in two lists come one after the other.
pub proof fn lemma_mentions_split(
    names: Names,
    first: Seq<Option<SierraGenVar>>,
    rest: Seq<Option<SierraGenVar>>,
)
    ensures
        meaning::after_mentions(names, first + rest) == meaning::after_mentions(
            meaning::after_mentions(names, first),
            rest,
        ),
    decreases rest.len(),
{
    if rest.len() == 0 {
        assert(first + rest == first);
    } else {
        assert((first + rest).drop_last() == first + rest.drop_last());
        lemma_mentions_split(names, first, rest.drop_last());
    }
}

/// A mention gives a variable its Sierra variable, unless it had one.
pub proof fn lemma_mention(
    names: Names,
    mentions: Seq<Option<SierraGenVar>>,
    var: SierraGenVar,
)
    ensures
        meaning::after_mentions(names, mentions.push(Some(var))) == meaning::after_mentions(
            names,
            mentions,
        ).with_variable(var),
{
    assert(mentions.push(Some(var)).drop_last() == mentions);
}

/// A new Sierra variable is asked for.
pub proof fn lemma_new_variable(names: Names, mentions: Seq<Option<SierraGenVar>>)
    ensures
        meaning::after_mentions(names, mentions.push(None)) == meaning::after_mentions(
            names,
            mentions,
        ).with_fresh_variable(),
{
    assert(mentions.push(None).drop_last() == mentions);
}

/// Mentioning variables one after the other names them all.
pub proof fn lemma_each_mentioned(names: Names, vars: Seq<VariableId>)
    ensures
        meaning::after_mentions(names, meaning::each_mentioned(vars)) == names.with_variables(vars),
    decreases vars.len(),
{
    if vars.len() > 0 {
        lemma_each_mentioned(names, vars.drop_last());
        assert(meaning::each_mentioned(vars) =~= meaning::each_mentioned(vars.drop_last()).push(
            Some(SierraGenVar::LoweringVar(vars.last())),
        ));
        lemma_mention(
            names,
            meaning::each_mentioned(vars.drop_last()),
            SierraGenVar::LoweringVar(vars.last()),
        );
    }
}

/// Dropping variables names them in order.
pub proof fn drops_name_in_order(input: FunctionInput, names: Names, vars: Seq<SierraGenVar>)
    requires
        code::drops_code(input, names, vars).result is Ok,
    ensures
        code::drops_code(input, names, vars).names == meaning::after_mentions(
            names,
            meaning::dying_mentioned(vars),
        ),
    decreases vars.len(),
{
    if vars.len() > 0 {
        drops_name_in_order(input, names, vars.drop_last());
        assert(meaning::dying_mentioned(vars) =~= meaning::dying_mentioned(vars.drop_last()).push(
            Some(vars.last()),
        ));
        lemma_mention(names, meaning::dying_mentioned(vars.drop_last()), vars.last());
    }
}

/// Dropping variables drops each of them, in order, and does nothing else.
pub proof fn drops_drop(input: FunctionInput, names: Names, vars: Seq<SierraGenVar>)
    requires
        code::drops_code(input, names, vars).result is Ok,
    ensures
        meaning::are_drops(
            input,
            code::drops_code(input, names, vars).names,
            vars,
            code::drops_code(input, names, vars).statements,
        ),
{
    laws::drops_are_in_order(input, names, vars);
    laws::drops_succeed_iff_typed(input, names, vars);
    let step = code::drops_code(input, names, vars);
    assert forall|i: int| 0 <= i < vars.len() implies {
        &&& step.names.variables.contains_key(vars[i])
        &&& meaning::recorded_type(input, vars[i]) is Ok
        &&& #[trigger] step.statements[i] == meaning::invoked(
            LibfuncId::Drop { ty: meaning::recorded_type(input, vars[i])->Ok_0 },
            seq![step.names.variables[vars[i]]],
            Seq::empty(),
        )
    } by {
        assert(step.names.variables.contains_key(vars[i]));
    }
}

/// Making inputs ready names them in order, each followed by its copy.
pub proof fn arguments_name_in_order(
    input: FunctionInput,
    names: Names,
    location: StatementLocation,
    vars: Seq<VariableId>,
)
    requires
        code::arguments_code(input, names, location, vars).result is Ok,
    ensures
        code::arguments_code(input, names, location, vars).names == meaning::after_mentions(
            names,
            meaning::ready_mentions(input, location, vars),
        ),
        forall|i: int|
            0 <= i < vars.len() && meaning::used_again(input, location, i) ==> (
            #[trigger] code::arguments_code(input, names, location, vars).value()[i])
                == meaning::next_variable(
                meaning::after_mentions(
                    names,
                    meaning::ready_mentions(input, location, vars.take(i)).push(
                        meaning::mention(vars[i]),
                    ),
                ),
            ),
    decreases vars.len(),
{
    if vars.len() > 0 {
        let shorter = vars.drop_last();
        let last = SierraGenVar::LoweringVar(vars.last());
        let before = code::arguments_code(input, names, location, shorter);
        let step = code::arguments_code(input, names, location, vars);
        let mentions = meaning::ready_mentions(input, location, shorter);
        arguments_name_in_order(input, names, location, shorter);
        laws::arguments_are_in_order(input, names, location, shorter);
        lemma_mention(names, mentions, last);
        lemma_new_variable(names, mentions.push(Some(last)));
        assert forall|i: int|
            0 <= i < vars.len() && meaning::used_again(input, location, i) implies (
        #[trigger] step.value()[i]) == meaning::next_variable(
            meaning::after_mentions(
                names,
                meaning::ready_mentions(input, location, vars.take(i)).push(
                    meaning::mention(vars[i]),
                ),
            ),
        ) by {
            if i < shorter.len() {
                assert(vars.take(i) == shorter.take(i));
                assert(step.value()[i] == before.value()[i]);
                assert(vars[i] == shorter[i]);
            } else {
                assert(vars.take(i) == shorter);
            }
        }
    }
}

/// Inputs that are made ready are given themselves, in order, or copied just before.
pub proof fn arguments_stand_for_inputs(
    input: FunctionInput,
    names: Names,
    location: StatementLocation,
    vars: Seq<VariableId>,
)
    requires
        code::arguments_code(input, names, location, vars).result is Ok,
    ensures
        ({
            let step = code::arguments_code(input, names, location, vars);
            meaning::are_arguments(
                input,
                names,
                step.names,
                location,
                vars,
                step.statements,
                step.value(),
            )
        }),
{
    reveal(meaning::are_arguments);
    let step = code::arguments_code(input, names, location, vars);
    let copied = meaning::copied_inputs(input, location, vars.len());
    laws::arguments_are_in_order(input, names, location, vars);
    laws::arguments_succeed_iff_resolved(input, names, location, vars);
    laws::copied_inputs_are_the_others(input, location, vars.len());
    arguments_name_in_order(input, names, location, vars);
    assert forall|k: int| 0 <= k < copied.len() implies {
        let var = vars[copied[k]];
        &&& meaning::type_of(input, var) is Ok
        &&& #[trigger] step.statements[k] == meaning::invoked(
            LibfuncId::Dup { ty: meaning::type_of(input, var)->Ok_0 },
            seq![meaning::named(step.names, var)],
            seq![meaning::named(step.names, var), step.value()[copied[k]]],
        )
    } by {
        let i = copied[k];
        assert(laws::argument_resolves(input, location, i, vars[i]));
        assert(laws::is_dup_of(step.statements[k], input, step.names, vars[i], step.value()[i]));
    }
    assert forall|i: int| 0 <= i < vars.len() implies {
        &&& step.names.variables.contains_key(SierraGenVar::LoweringVar(vars[i]))
        &&& #[trigger] step.value()[i] == if meaning::used_again(input, location, i) {
            meaning::next_variable(
                meaning::after_mentions(
                    names,
                    meaning::ready_mentions(input, location, vars.take(i)).push(
                        meaning::mention(vars[i]),
                    ),
                ),
            )
        } else {
            meaning::named(step.names, vars[i])
        }
    } by {
        assert(step.names.variables.contains_key(SierraGenVar::LoweringVar(vars[i])));
    }
}

/// Where arguments stand for inputs, they still do when more was named.
pub proof fn lemma_arguments_later(
    input: FunctionInput,
    earlier: Names,
    names: Names,
    later: Names,
    location: StatementLocation,
    vars: Seq<VariableId>,
    copies: Seq<StatementView>,
    args: Seq<VarId>,
)
    requires
        meaning::are_arguments(input, earlier, names, location, vars, copies, args),
        later.extends(names),
    ensures
        meaning::are_arguments(input, earlier, later, location, vars, copies, args),
{
    reveal(meaning::are_arguments);
    let copied = meaning::copied_inputs(input, location, vars.len());
    laws::copied_inputs_are_the_others(input, location, vars.len());
    assert forall|i: int| 0 <= i < vars.len() implies later.variables.contains_key(
        SierraGenVar::LoweringVar(#[trigger] vars[i]),
    ) && meaning::named(later, vars[i]) == meaning::named(names, vars[i]) by {
        names::lemma_extends_variable(names, later, SierraGenVar::LoweringVar(vars[i]));
    }
    assert forall|k: int| 0 <= k < copied.len() implies {
        let var = vars[copied[k]];
        &&& meaning::type_of(input, var) is Ok
        &&& #[trigger] copies[k] == meaning::invoked(
            LibfuncId::Dup { ty: meaning::type_of(input, var)->Ok_0 },
            seq![meaning::named(later, var)],
            seq![meaning::named(later, var), args[copied[k]]],
        )
    } by {
        let var = vars[copied[k]];
        assert(meaning::named(later, var) == meaning::named(names, var));
    }
}

/// Pushing inputs names them in order, each after what it is pushed to.
pub proof fn pushes_name_in_order(
    input: FunctionInput,
    names: Names,
    location: StatementLocation,
    vars: Seq<VariableId>,
)
    requires
        code::pushed_inputs(input, names, location, vars).result is Ok,
    ensures
        code::pushed_inputs(input, names, location, vars).names == meaning::after_mentions(
            names,
            meaning::push_mentions(vars),
        ),
        forall|i: int|
            0 <= i < vars.len() ==> (#[trigger] code::pushed_inputs(
                input,
                names,
                location,
                vars,
            ).value()[i]).var_on_stack == meaning::next_variable(
                meaning::after_mentions(names, meaning::push_mentions(vars.take(i))),
            ),
    decreases vars.len(),
{
    if vars.len() > 0 {
        let shorter = vars.drop_last();
        let last = SierraGenVar::LoweringVar(vars.last());
        let before = code::pushed_inputs(input, names, location, shorter);
        let step = code::pushed_inputs(input, names, location, vars);
        let mentions = meaning::push_mentions(shorter);
        pushes_name_in_order(input, names, location, shorter);
        laws::pushes_are_in_order(input, names, location, shorter);
        lemma_new_variable(names, mentions);
        lemma_mention(names, mentions.push(None), last);
        assert forall|i: int| 0 <= i < vars.len() implies (
        #[trigger] step.value()[i]).var_on_stack == meaning::next_variable(
            meaning::after_mentions(names, meaning::push_mentions(vars.take(i))),
        ) by {
            if i < shorter.len() {
                assert(vars.take(i) == shorter.take(i));
                assert(step.value()[i] == before.value()[i]);
            } else {
                assert(vars.take(i) == shorter);
            }
        }
    }
}

/// Pushed inputs are pushed each to a Sierra variable of its own, in order.
pub proof fn pushes_stand_for_inputs(
    input: FunctionInput,
    names: Names,
    location: StatementLocation,
    vars: Seq<VariableId>,
)
    requires
        code::pushed_inputs(input, names, location, vars).result is Ok,
    ensures
        ({
            let step = code::pushed_inputs(input, names, location, vars);
            meaning::are_pushes(input, names, step.names, location, vars, step.value())
        }),
{
    reveal(meaning::are_pushes);
    let step = code::pushed_inputs(input, names, location, vars);
    laws::pushes_are_in_order(input, names, location, vars);
    pushes_name_in_order(input, names, location, vars);
    assert forall|i: int| #![trigger vars[i]] 0 <= i < vars.len() implies {
        &&& step.names.variables.contains_key(SierraGenVar::LoweringVar(vars[i]))
        &&& meaning::type_of(input, vars[i]) is Ok
        &&& step.value()[i].var == meaning::named(step.names, vars[i])
        &&& step.value()[i].var_on_stack == meaning::next_variable(
            meaning::after_mentions(names, meaning::push_mentions(vars.take(i))),
        )
        &&& step.value()[i].ty == meaning::type_of(input, vars[i])->Ok_0
        &&& step.value()[i].dup == meaning::used_again(input, location, i)
    } by {
        assert(laws::is_push_of(step.value()[i], input, step.names, location, i, vars[i]));
    }
}

/// Returning pushes each returned value and returns what they were pushed to, in order.
pub proof fn returns_return(
    input: FunctionInput,
    names: Names,
    location: StatementLocation,
    vars: Seq<VariableId>,
)
    requires
        code::return_code(input, names, location, vars).result is Ok,
    ensures
        ({
            let step = code::return_code(input, names, location, vars);
            &&& meaning::is_return(input, names, step.names, location, vars, step.statements)
            &&& step.names == meaning::after_mentions(names, meaning::push_mentions(vars))
        }),
{
    let step = code::return_code(input, names, location, vars);
    let pushes = code::pushed_inputs(input, names, location, vars);
    laws::return_pushes_and_returns(input, names, location, vars);
    laws::pushes_succeed_iff_typed(input, names, location, vars);
    pushes_stand_for_inputs(input, names, location, vars);
    pushes_name_in_order(input, names, location, vars);
    assert(step.names == pushes.names);
    assert(step.statements[0] == StatementView::PushValues(pushes.value()));
    assert(step.statements[1] == StatementView::Return(code::stack_variables(pushes.value())));
    assert(meaning::are_on_stack(pushes.value(), code::stack_variables(pushes.value())));
}

/// The Sierra variables of variables that have one.
pub proof fn lemma_lookup_named(names: Names, vars: Seq<VariableId>)
    requires
        forall|i: int|
            0 <= i < vars.len() ==> names.variables.contains_key(
                SierraGenVar::LoweringVar(#[trigger] vars[i]),
            ),
    ensures
        meaning::are_named(names, vars, names.lookup(vars)),
{
    assert forall|i: int| 0 <= i < vars.len() implies names.variables.contains_key(
        SierraGenVar::LoweringVar(vars[i]),
    ) && #[trigger] names.lookup(vars)[i] == meaning::named(names, vars[i]) by {
        assert(names.variables.contains_key(SierraGenVar::LoweringVar(vars[i])));
    }
}

/// Generating a statement names what it mentions, in order.
pub proof fn statements_name_in_order(
    input: FunctionInput,
    names: Names,
    statement: Statement,
    location: StatementLocation,
)
    requires
        code::statement_code(input, names, statement, location).result is Ok,
    ensures
        code::statement_code(input, names, statement, location).names == meaning::after_mentions(
            names,
            meaning::statement_mentions(input, location, statement),
        ),
{
    let none = Seq::<Option<SierraGenVar>>::empty();
    match statement {
        Statement::Literal(s) => {
            lemma_mention(names, none, SierraGenVar::LoweringVar(s.output));
            assert(none.push(meaning::mention(s.output)) =~= seq![meaning::mention(s.output)]);
        },
        Statement::Call(s) => {
            let inputs = meaning::each_mentioned(s.inputs@);
            let outputs = meaning::each_mentioned(s.outputs@);
            let middle = names.with_variables(s.inputs@);
            let named = middle.with_variables(s.outputs@);
            lemma_each_mentioned(names, s.inputs@);
            lemma_each_mentioned(middle, s.outputs@);
            lemma_mentions_split(names, inputs, outputs);
            match s.function.generic_function {
                GenericFunctionId::Extern(_) => {
                    arguments_name_in_order(input, named, location, s.inputs@);
                    lemma_mentions_split(
                        names,
                        inputs + outputs,
                        meaning::ready_mentions(input, location, s.inputs@),
                    );
                },
                _ => {
                    pushes_name_in_order(input, named, location, s.inputs@);
                    lemma_mentions_split(
                        names,
                        inputs + outputs,
                        meaning::push_mentions(s.inputs@),
                    );
                },
            }
        },
        Statement::EnumConstruct(s) => {
            growth::lemma_one_argument(input, names, location, s.input);
            arguments_name_in_order(input, names, location, seq![s.input]);
            lemma_mention(
                names,
                meaning::ready_mentions(input, location, seq![s.input]),
                SierraGenVar::LoweringVar(s.output),
            );
        },
        Statement::StructConstruct(s) => {
            arguments_name_in_order(input, names, location, s.inputs@);
            lemma_mention(
                names,
                meaning::ready_mentions(input, location, s.inputs@),
                SierraGenVar::LoweringVar(s.output),
            );
        },
        Statement::StructDestructure(s) => {
            let arg = code::argument_code(input, names, location, 0, s.input);
            growth::lemma_one_argument(input, names, location, s.input);
            arguments_name_in_order(input, names, location, seq![s.input]);
            lemma_each_mentioned(arg.names, s.outputs@);
            lemma_mentions_split(
                names,
                meaning::ready_mentions(input, location, seq![s.input]),
                meaning::each_mentioned(s.outputs@),
            );
        },
        Statement::Snapshot(s) => {
            let outputs = seq![s.output_original, s.output_snapshot];
            let first = seq![meaning::mention(s.input)];
            lemma_mention(names, none, SierraGenVar::LoweringVar(s.input));
            assert(none.push(meaning::mention(s.input)) =~= first);
            lemma_each_mentioned(
                names.with_variable(SierraGenVar::LoweringVar(s.input)),
                outputs,
            );
            lemma_mentions_split(names, first, meaning::each_mentioned(outputs));
            assert(first + meaning::each_mentioned(outputs) =~= seq![
                meaning::mention(s.input),
                meaning::mention(s.output_original),
                meaning::mention(s.output_snapshot),
            ]);
        },
        Statement::Desnap(s) => {
            let first = seq![meaning::mention(s.input)];
            lemma_mention(names, none, SierraGenVar::LoweringVar(s.input));
            assert(none.push(meaning::mention(s.input)) =~= first);
            lemma_mention(names, first, SierraGenVar::LoweringVar(s.output));
            assert(first.push(meaning::mention(s.output)) =~= seq![
                meaning::mention(s.input),
                meaning::mention(s.output),
            ]);
        },
    }
}

/// A literal is a constant of the type of its variable and with its value.
pub proof fn literals_are_constants(
    input: FunctionInput,
    names: Names,
    s: StatementLiteral,
    location: StatementLocation,
)
    requires
        code::statement_code(input, names, Statement::Literal(s), location).result is Ok,
    ensures
        ({
            let step = code::statement_code(input, names, Statement::Literal(s), location);
            meaning::is_code_of(
                input,
                names,
                step.names,
                location,
                Statement::Literal(s),
                step.statements,
            )
        }),
{
    let statement = Statement::Literal(s);
    let step = code::statement_code(input, names, statement, location);
    let defined = laws::defined_variables(statement);
    laws::statements_are_straight(input, names, statement, location);
    laws::statement_succeeds_iff_resolved(input, names, statement, location);
    lemma_lookup_named(step.names, defined);
}

/// A call invokes the called function: a libfunc on the inputs or their copies, in order, and
/// another one on what the inputs were pushed to, in order.
pub proof fn calls_give_their_inputs(
    input: FunctionInput,
    names: Names,
    s: StatementCall,
    location: StatementLocation,
)
    requires
        code::statement_code(input, names, Statement::Call(s), location).result is Ok,
    ensures
        ({
            let step = code::statement_code(input, names, Statement::Call(s), location);
            meaning::is_code_of(
                input,
                names,
                step.names,
                location,
                Statement::Call(s),
                step.statements,
            )
        }),
{
    let statement = Statement::Call(s);
    let step = code::statement_code(input, names, statement, location);
    let defined = laws::defined_variables(statement);
    laws::statements_are_straight(input, names, statement, location);
    laws::statement_succeeds_iff_resolved(input, names, statement, location);
    lemma_lookup_named(step.names, defined);
    let inputs = meaning::each_mentioned(s.inputs@);
    let outputs = meaning::each_mentioned(s.outputs@);
    let middle = names.with_variables(s.inputs@);
    let named = middle.with_variables(s.outputs@);
    lemma_each_mentioned(names, s.inputs@);
    lemma_each_mentioned(middle, s.outputs@);
    lemma_mentions_split(names, inputs, outputs);
    match s.function.generic_function {
        GenericFunctionId::Extern(_) => {
            let args = code::arguments_code(input, named, location, s.inputs@);
            arguments_stand_for_inputs(input, named, location, s.inputs@);
            assert(step.names == args.names);
            assert(step.statements.drop_last() =~= args.statements);
            assert(step.statements.last()->args == args.value());
        },
        _ => {
            let pushes = code::pushed_inputs(input, named, location, s.inputs@);
            pushes_stand_for_inputs(input, named, location, s.inputs@);
            growth::lemma_pushed_inputs_values(input, named, location, s.inputs@);
            assert(step.names == pushes.names);
            assert(step.statements[0] == StatementView::PushValues(pushes.value()));
            assert(step.statements[1] == step.statements.last());
            assert(step.statements[1]->args == code::stack_variables(pushes.value()));
            assert(meaning::are_on_stack(pushes.value(), code::stack_variables(pushes.value())));
        },
    }
}

/// An enum is constructed with its own type and the number of the variant, of the input or its
/// copy.
pub proof fn enums_are_constructed_of_their_variant(
    input: FunctionInput,
    names: Names,
    s: StatementEnumConstruct,
    location: StatementLocation,
)
    requires
        code::statement_code(input, names, Statement::EnumConstruct(s), location).result is Ok,
    ensures
        ({
            let step = code::statement_code(input, names, Statement::EnumConstruct(s), location);
            meaning::is_code_of(
                input,
                names,
                step.names,
                location,
                Statement::EnumConstruct(s),
                step.statements,
            )
        }),
{
    let statement = Statement::EnumConstruct(s);
    let step = code::statement_code(input, names, statement, location);
    let defined = laws::defined_variables(statement);
    laws::statements_are_straight(input, names, statement, location);
    laws::statement_succeeds_iff_resolved(input, names, statement, location);
    lemma_lookup_named(step.names, defined);
    let args = code::arguments_code(input, names, location, seq![s.input]);
    growth::lemma_one_argument(input, names, location, s.input);
    arguments_stand_for_inputs(input, names, location, seq![s.input]);
    names::lemma_with_variable(args.names, SierraGenVar::LoweringVar(s.output));
    lemma_arguments_later(
        input,
        names,
        args.names,
        step.names,
        location,
        seq![s.input],
        args.statements,
        args.value(),
    );
    assert(step.statements.drop_last() =~= args.statements);
    assert(step.statements.last()->args =~= args.value());
}

/// A struct is constructed with its own type, of the inputs or their copies, in order.
pub proof fn structs_are_constructed_of_their_members(
    input: FunctionInput,
    names: Names,
    s: StatementStructConstruct,
    location: StatementLocation,
)
    requires
        code::statement_code(input, names, Statement::StructConstruct(s), location).result is Ok,
    ensures
        ({
            let step = code::statement_code(input, names, Statement::StructConstruct(s), location);
            meaning::is_code_of(
                input,
                names,
                step.names,
                location,
                Statement::StructConstruct(s),
                step.statements,
            )
        }),
{
    let statement = Statement::StructConstruct(s);
    let step = code::statement_code(input, names, statement, location);
    let defined = laws::defined_variables(statement);
    laws::statements_are_straight(input, names, statement, location);
    laws::statement_succeeds_iff_resolved(input, names, statement, location);
    lemma_lookup_named(step.names, defined);
    let args = code::arguments_code(input, names, location, s.inputs@);
    arguments_stand_for_inputs(input, names, location, s.inputs@);
    names::lemma_with_variable(args.names, SierraGenVar::LoweringVar(s.output));
    lemma_arguments_later(
        input,
        names,
        args.names,
        step.names,
        location,
        s.inputs@,
        args.statements,
        args.value(),
    );
    assert(step.statements.drop_last() =~= args.statements);
}

/// A struct is taken apart with its own type into the outputs, in order.
pub proof fn structs_are_taken_apart(
    input: FunctionInput,
    names: Names,
    s: StatementStructDestructure,
    location: StatementLocation,
)
    requires
        code::statement_code(input, names, Statement::StructDestructure(s), location).result is Ok,
    ensures
        ({
            let step = code::statement_code(
                input,
                names,
                Statement::StructDestructure(s),
                location,
            );
            meaning::is_code_of(
                input,
                names,
                step.names,
                location,
                Statement::StructDestructure(s),
                step.statements,
            )
        }),
{
    let statement = Statement::StructDestructure(s);
    let step = code::statement_code(input, names, statement, location);
    let defined = laws::defined_variables(statement);
    laws::statements_are_straight(input, names, statement, location);
    laws::statement_succeeds_iff_resolved(input, names, statement, location);
    lemma_lookup_named(step.names, defined);
    let args = code::arguments_code(input, names, location, seq![s.input]);
    growth::lemma_one_argument(input, names, location, s.input);
    arguments_stand_for_inputs(input, names, location, seq![s.input]);
    names::lemma_with_variables(args.names, s.outputs@);
    lemma_arguments_later(
        input,
        names,
        args.names,
        step.names,
        location,
        seq![s.input],
        args.statements,
        args.value(),
    );
    assert(step.statements.drop_last() =~= args.statements);
    assert(step.statements.last()->args =~= args.value());
}

/// A snapshot is taken of the input, with its type, and gives back the original and the snapshot.
pub proof fn snapshots_are_taken(
    input: FunctionInput,
    names: Names,
    s: StatementSnapshot,
    location: StatementLocation,
)
    requires
        code::statement_code(input, names, Statement::Snapshot(s), location).result is Ok,
    ensures
        ({
            let step = code::statement_code(input, names, Statement::Snapshot(s), location);
            meaning::is_code_of(
                input,
                names,
                step.names,
                location,
                Statement::Snapshot(s),
                step.statements,
            )
        }),
{
    let statement = Statement::Snapshot(s);
    let step = code::statement_code(input, names, statement, location);
    let defined = laws::defined_variables(statement);
    laws::statements_are_straight(input, names, statement, location);
    laws::statement_succeeds_iff_resolved(input, names, statement, location);
    lemma_lookup_named(step.names, defined);
    let named = names.with_variable(SierraGenVar::LoweringVar(s.input));
    names::lemma_with_variable(names, SierraGenVar::LoweringVar(s.input));
    names::lemma_with_variables(named, defined);
    names::lemma_extends_variable(
        named,
        step.names,
        SierraGenVar::LoweringVar(s.input),
    );
}

/// A snapshot is renamed to the value.
pub proof fn snapshots_are_renamed(
    input: FunctionInput,
    names: Names,
    s: StatementDesnap,
    location: StatementLocation,
)
    requires
        code::statement_code(input, names, Statement::Desnap(s), location).result is Ok,
    ensures
        ({
            let step = code::statement_code(input, names, Statement::Desnap(s), location);
            meaning::is_code_of(
                input,
                names,
                step.names,
                location,
                Statement::Desnap(s),
                step.statements,
            )
        }),
{
    let statement = Statement::Desnap(s);
    let step = code::statement_code(input, names, statement, location);
    let defined = laws::defined_variables(statement);
    laws::statements_are_straight(input, names, statement, location);
    laws::statement_succeeds_iff_resolved(input, names, statement, location);
    lemma_lookup_named(step.names, defined);
    let named = names.with_variable(SierraGenVar::LoweringVar(s.input));
    names::lemma_with_variable(names, SierraGenVar::LoweringVar(s.input));
    names::lemma_with_variable(named, SierraGenVar::LoweringVar(s.output));
    names::lemma_extends_variable(
        named,
        step.names,
        SierraGenVar::LoweringVar(s.input),
    );
}

/// The code of a statement does what the statement says: it invokes the right libfunc, on the right
/// inputs, in order, and with the right results.
pub proof fn statements_do_what_they_say(
    input: FunctionInput,
    names: Names,
    statement: Statement,
    location: StatementLocation,
)
    requires
        code::statement_code(input, names, statement, location).result is Ok,
    ensures
        ({
            let step = code::statement_code(input, names, statement, location);
            meaning::is_code_of(input, names, step.names, location, statement, step.statements)
        }),
{
    match statement {
        Statement::Literal(s) => {
            literals_are_constants(input, names, s, location);
        },
        Statement::Call(s) => {
            calls_give_their_inputs(input, names, s, location);
        },
        Statement::EnumConstruct(s) => {
            enums_are_constructed_of_their_variant(input, names, s, location);
        },
        Statement::StructConstruct(s) => {
            structs_are_constructed_of_their_members(input, names, s, location);
        },
        Statement::StructDestructure(s) => {
            structs_are_taken_apart(input, names, s, location);
        },
        Statement::Snapshot(s) => {
            snapshots_are_taken(input, names, s, location);
        },
        Statement::Desnap(s) => {
            snapshots_are_renamed(input, names, s, location);
        },
    }
}

} // verus!
