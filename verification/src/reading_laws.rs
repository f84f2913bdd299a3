//! What is read counts as it stands, and what is generated is returned as it stands.

use vstd::prelude::*;

use crate::block_generator;
use crate::code::Emitted;
use crate::context::{ExprGeneratorContext, FunctionInput};
use crate::libfunc::{ConcreteTypeId, DiagnosticAdded, LibfuncId, Maybe, SierraGenDb};
use crate::lifetime::{DropLocation, SierraGenVar, UseLocation};
use crate::lowering::{BlockId, VariableId};
use crate::names::Names;
use crate::ordered_map;
use crate::ordered_map::OrderedMap;
use crate::pre_sierra;
use crate::pre_sierra::{
    GenInvocation, GenStatement, Label, PushValue, Statement, StatementView, VarId,
};

verus! {

/// A map has the keys of its entries and no others, no key twice, and each with the value of its
/// entry.
pub proof fn maps_hold_their_entries<K, V>(map: OrderedMap<K, V>, key: K)
    requires
        map.wf(),
    ensures
        map.map().contains_key(key) <==> exists|i: int|
            0 <= i < map@.len() && (#[trigger] map@[i]).0 == key,
        forall|i: int|
            0 <= i < map@.len() ==> map.map().contains_key((#[trigger] map@[i]).0)
                && map.map()[map@[i].0] == map@[i].1,
        forall|i: int, j: int|
            0 <= i < j < map@.len() ==> (#[trigger] map@[i]).0 != (#[trigger] map@[j]).0,
{
    ordered_map::lemma_entries_map(map@);
}

/// A use is the last one of its variable if and only if it is listed as such.
pub proof fn last_uses_are_those_listed(input: FunctionInput, use_location: UseLocation)
    ensures
        input.last_use(use_location) <==> exists|i: int|
            0 <= i < input.lifetime.last_use@.len() && (
            #[trigger] input.lifetime.last_use@[i]).0 == use_location,
{
    ordered_map::lemma_entries_map(input.lifetime.last_use@);
}

/// What is dropped at a place is what is listed for it, and nothing where nothing is.
pub proof fn drops_are_those_listed(input: FunctionInput, location: DropLocation, index: int)
    requires
        input.lifetime.drops.wf(),
    ensures
        0 <= index < input.lifetime.drops@.len() && input.lifetime.drops@[index].0 == location
            ==> input.drops_at(location) == input.lifetime.drops@[index].1@,
        (forall|i: int|
            0 <= i < input.lifetime.drops@.len() ==> (#[trigger] input.lifetime.drops@[i]).0
                != location) ==> input.drops_at(location).len() == 0,
{
    ordered_map::lemma_entries_map(input.lifetime.drops@);
}

/// The types of a variable are those that are recorded for it.
pub proof fn types_are_those_recorded(input: FunctionInput, var: VariableId)
    ensures
        input.var_type(var) == input.lowered.variables@[var.0 as int].ty,
        input.variable_type(var) == input.lowered.variables@[var.0 as int].sierra_type,
        input.sierra_type(SierraGenVar::LoweringVar(var))
            == input.lowered.variables@[var.0 as int].sierra_type,
        input.sierra_type(SierraGenVar::UninitializedLocal(var))
            == input.lowered.variables@[var.0 as int].uninitialized_sierra_type,
{
}

/// A struct is taken apart and an enum matched by the libfunc of its type, unless the type is
/// listed as one that has none.
pub proof fn libfuncs_are_missing_where_listed(db: SierraGenDb, ty: ConcreteTypeId)
    ensures
        db.struct_deconstruct(ty) == (if exists|i: int|
            0 <= i < db.without_struct_deconstruct@.len() && (
            #[trigger] db.without_struct_deconstruct@[i]).0 == ty {
            Err::<LibfuncId, DiagnosticAdded>(DiagnosticAdded)
        } else {
            Ok(LibfuncId::StructDeconstruct { ty })
        }),
        db.match_enum(ty) == (if exists|i: int|
            0 <= i < db.without_match_enum@.len() && (#[trigger] db.without_match_enum@[i]).0
                == ty {
            Err::<LibfuncId, DiagnosticAdded>(DiagnosticAdded)
        } else {
            Ok(LibfuncId::MatchEnum { ty })
        }),
{
    ordered_map::lemma_entries_map(db.without_struct_deconstruct@);
    ordered_map::lemma_entries_map(db.without_match_enum@);
}

/// At first nothing has a name, and numbers start at zero.
pub proof fn names_start_empty(var: SierraGenVar, block: BlockId)
    ensures
        !Names::initial().variables.contains_key(var),
        !Names::initial().block_labels.contains_key(block),
        Names::initial().next_variable == 0,
        Names::initial().next_label == 0,
{
}

/// An invocation of generated code is the one of the list: its libfunc, its arguments, and its
/// branches with their targets and results, in order.
pub proof fn invocations_stand_as_they_are(invocation: GenInvocation)
    ensures
        ({
            let seen = Statement::Sierra(GenStatement::Invocation(invocation))@;
            &&& seen is Invocation
            &&& seen->libfunc_id == invocation.libfunc_id
            &&& seen->args == invocation.args@
            &&& seen->branches.len() == invocation.branches@.len()
            &&& forall|i: int|
                0 <= i < invocation.branches@.len() ==> (#[trigger] seen->branches[i]).target
                    == invocation.branches@[i].target && seen->branches[i].results
                    == invocation.branches@[i].results@
        }),
{
}

/// Returns, labels and pushes of generated code are those of the list.
pub proof fn other_statements_stand_as_they_are(
    vars: Vec<VarId>,
    label: Label,
    values: Vec<PushValue>,
)
    ensures
        Statement::Sierra(GenStatement::Return(vars))@ == StatementView::Return(vars@),
        Statement::Label(label)@ == StatementView::Label(label.id),
        Statement::PushValues(values)@ == StatementView::PushValues(values@),
{
}

/// A generating function returns all the statements, in order, or else the error, and leaves the
/// names that were given and all that is read.
pub proof fn all_that_is_generated_is_returned(
    before: ExprGeneratorContext,
    after: ExprGeneratorContext,
    result: Maybe<Vec<Statement>>,
    step: Emitted<()>,
)
    requires
        block_generator::generates(before, after, result, step),
    ensures
        result is Ok <==> step.result is Ok,
        result matches Ok(statements) ==> statements@.len() == step.statements.len() && forall|
            i: int,
        |
            0 <= i < statements@.len() ==> (#[trigger] statements@[i])@ == step.statements[i],
        after.names() == step.names,
        after.input() == before.input(),
        after.wf(),
{
    if let Ok(statements) = result {
        assert forall|i: int| 0 <= i < statements@.len() implies (#[trigger] statements@[i])@
            == step.statements[i] by {
            assert(pre_sierra::code(statements@)[i] == statements@[i]@);
        }
    }
}

} // verus!
