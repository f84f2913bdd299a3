//! The code of single statements, and of returns.

use num_bigint::BigInt;
use sierra_generator::block_generator::{
    generate_return_code, generate_statement_code, should_dup,
};
use sierra_generator::context::ExprGeneratorContext;
use sierra_generator::libfunc::{
    ConcreteTypeId, DiagnosticAdded, FunctionId, GenericFunctionId, LibfuncId, SierraGenDb, TypeId,
};
use sierra_generator::lifetime::{UseLocation, VariableLifetimeResult};
use sierra_generator::lowering;
use sierra_generator::lowering::{
    BlockId, ConcreteVariant, FlatLowered, StatementCall, StatementDesnap, StatementEnumConstruct,
    StatementLiteral, StatementSnapshot, StatementStructConstruct, StatementStructDestructure,
    Variable, VariableId,
};
use sierra_generator::pre_sierra::{
    GenBranchInfo, GenBranchTarget, GenInvocation, GenStatement, PushValue, Statement, VarId,
};

const HERE: (BlockId, usize) = (BlockId(0), 3);

/// A function of five variables without blocks. The variable of number `n` has the type `10 + n`
/// and the Sierra type `100 + n`, but the last has no Sierra type.
fn lowered() -> FlatLowered {
    let mut variables = vec![];
    for n in 0..4u64 {
        variables.push(Variable {
            ty: TypeId(10 + n),
            sierra_type: Ok(ConcreteTypeId(100 + n)),
            uninitialized_sierra_type: Ok(ConcreteTypeId(200 + n)),
        });
    }
    variables.push(Variable {
        ty: TypeId(14),
        sierra_type: Err(DiagnosticAdded),
        uninitialized_sierra_type: Err(DiagnosticAdded),
    });
    FlatLowered { variables, blocks: vec![] }
}

/// The lifetimes in which those inputs of the statement are last uses.
fn last_uses(inputs: &[usize]) -> VariableLifetimeResult {
    let mut lifetime = VariableLifetimeResult::new();
    for idx in inputs {
        lifetime.last_use.insert(UseLocation { statement_location: HERE, idx: *idx }, ());
    }
    lifetime
}

fn vars(ids: &[usize]) -> Vec<VariableId> {
    ids.iter().map(|id| VariableId(*id)).collect()
}

fn sierra_vars(ids: &[u64]) -> Vec<VarId> {
    ids.iter().map(|id| VarId(*id)).collect()
}

fn simple(libfunc_id: LibfuncId, inputs: &[u64], outputs: &[u64]) -> Statement {
    Statement::Sierra(GenStatement::Invocation(GenInvocation {
        libfunc_id,
        args: sierra_vars(inputs),
        branches: vec![GenBranchInfo {
            target: GenBranchTarget::Fallthrough,
            results: sierra_vars(outputs),
        }],
    }))
}

fn push(var: u64, var_on_stack: u64, ty: u64, dup: bool) -> PushValue {
    PushValue { var: VarId(var), var_on_stack: VarId(var_on_stack), ty: ConcreteTypeId(ty), dup }
}

fn function(generic_function: GenericFunctionId) -> FunctionId {
    FunctionId { generic_function, generic_args: 7 }
}

fn generate(
    lifetime: &VariableLifetimeResult,
    statement: &lowering::Statement,
) -> Result<Vec<Statement>, DiagnosticAdded> {
    generate_with_db(&SierraGenDb::new(), lifetime, statement)
}

fn generate_with_db(
    db: &SierraGenDb,
    lifetime: &VariableLifetimeResult,
    statement: &lowering::Statement,
) -> Result<Vec<Statement>, DiagnosticAdded> {
    let lowered = lowered();
    let mut context = ExprGeneratorContext::new(db, &lowered, lifetime);
    generate_statement_code(&mut context, statement, &HERE)
}

#[test]
fn a_literal_becomes_a_constant_of_its_type() {
    // A value that no machine integer holds.
    let value = BigInt::from(u128::MAX) * BigInt::from(-3);
    let statement =
        lowering::Statement::Literal(StatementLiteral { value: value.clone(), output: VariableId(2) });
    assert_eq!(
        generate(&last_uses(&[]), &statement),
        Ok(vec![simple(LibfuncId::Const { value_type: TypeId(12), value }, &[], &[0])])
    );
}

#[test]
fn a_literal_needs_no_sierra_type() {
    let statement = lowering::Statement::Literal(StatementLiteral {
        value: BigInt::from(5),
        output: VariableId(4),
    });
    assert_eq!(
        generate(&last_uses(&[]), &statement),
        Ok(vec![simple(
            LibfuncId::Const { value_type: TypeId(14), value: BigInt::from(5) },
            &[],
            &[0]
        )])
    );
}

#[test]
fn the_arguments_of_a_user_function_are_pushed() {
    for generic_function in [GenericFunctionId::Free(1), GenericFunctionId::Impl(1)] {
        let statement = lowering::Statement::Call(StatementCall {
            function: function(generic_function),
            inputs: vars(&[3, 1]),
            outputs: vars(&[0]),
        });
        assert_eq!(
            generate(&last_uses(&[0]), &statement),
            Ok(vec![
                Statement::PushValues(vec![push(0, 3, 103, false), push(1, 4, 101, true)]),
                simple(
                    LibfuncId::Function { function: function(generic_function) },
                    &[3, 4],
                    &[2]
                ),
            ])
        );
    }
}

#[test]
fn an_argument_that_comes_twice_is_pushed_twice() {
    let statement = lowering::Statement::Call(StatementCall {
        function: function(GenericFunctionId::Free(1)),
        inputs: vars(&[2, 2]),
        outputs: vars(&[2]),
    });
    assert_eq!(
        generate(&last_uses(&[1]), &statement),
        Ok(vec![
            Statement::PushValues(vec![push(0, 1, 102, true), push(0, 2, 102, false)]),
            simple(
                LibfuncId::Function { function: function(GenericFunctionId::Free(1)) },
                &[1, 2],
                &[0]
            ),
        ])
    );
}

#[test]
fn the_arguments_of_a_libfunc_are_copied_where_needed() {
    let extern_function = function(GenericFunctionId::Extern(1));
    let statement = lowering::Statement::Call(StatementCall {
        function: extern_function,
        inputs: vars(&[3, 1, 0]),
        outputs: vars(&[2]),
    });
    assert_eq!(
        generate(&last_uses(&[1]), &statement),
        Ok(vec![
            simple(LibfuncId::Dup { ty: ConcreteTypeId(103) }, &[0], &[0, 4]),
            simple(LibfuncId::Dup { ty: ConcreteTypeId(100) }, &[2], &[2, 5]),
            simple(LibfuncId::Function { function: extern_function }, &[4, 1, 5], &[3]),
        ])
    );
}

#[test]
fn a_call_without_arguments_pushes_nothing() {
    let free = function(GenericFunctionId::Free(9));
    let statement = lowering::Statement::Call(StatementCall {
        function: free,
        inputs: vec![],
        outputs: vec![],
    });
    assert_eq!(
        generate(&last_uses(&[]), &statement),
        Ok(vec![
            Statement::PushValues(vec![]),
            simple(LibfuncId::Function { function: free }, &[], &[]),
        ])
    );
}

#[test]
fn an_argument_of_a_user_function_needs_a_type_even_at_its_last_use() {
    let statement = lowering::Statement::Call(StatementCall {
        function: function(GenericFunctionId::Free(1)),
        inputs: vars(&[0, 4]),
        outputs: vec![],
    });
    assert_eq!(generate(&last_uses(&[0, 1]), &statement), Err(DiagnosticAdded));
}

#[test]
fn an_argument_of_a_libfunc_needs_a_type_only_to_be_copied() {
    let extern_function = function(GenericFunctionId::Extern(1));
    let statement = lowering::Statement::Call(StatementCall {
        function: extern_function,
        inputs: vars(&[4]),
        outputs: vec![],
    });
    assert_eq!(
        generate(&last_uses(&[0]), &statement),
        Ok(vec![simple(LibfuncId::Function { function: extern_function }, &[0], &[])])
    );
    assert_eq!(generate(&last_uses(&[]), &statement), Err(DiagnosticAdded));
}

#[test]
fn an_enum_is_constructed_of_its_variant() {
    let statement = lowering::Statement::EnumConstruct(StatementEnumConstruct {
        variant: ConcreteVariant { concrete_enum_id: 3, idx: 2 },
        input: VariableId(0),
        output: VariableId(1),
    });
    let libfunc_id = || LibfuncId::EnumInit { ty: ConcreteTypeId(101), variant_idx: 2 };
    assert_eq!(
        generate(&last_uses(&[0]), &statement),
        Ok(vec![simple(libfunc_id(), &[0], &[1])])
    );
    assert_eq!(
        generate(&last_uses(&[]), &statement),
        Ok(vec![
            simple(LibfuncId::Dup { ty: ConcreteTypeId(100) }, &[0], &[0, 1]),
            simple(libfunc_id(), &[1], &[2]),
        ])
    );
}

#[test]
fn an_enum_of_unknown_type_is_not_constructed() {
    let statement = lowering::Statement::EnumConstruct(StatementEnumConstruct {
        variant: ConcreteVariant { concrete_enum_id: 3, idx: 2 },
        input: VariableId(0),
        output: VariableId(4),
    });
    assert_eq!(generate(&last_uses(&[0]), &statement), Err(DiagnosticAdded));
}

#[test]
fn a_struct_is_constructed_of_its_members() {
    let statement = lowering::Statement::StructConstruct(StatementStructConstruct {
        inputs: vars(&[0, 1]),
        output: VariableId(2),
    });
    assert_eq!(
        generate(&last_uses(&[0]), &statement),
        Ok(vec![
            simple(LibfuncId::Dup { ty: ConcreteTypeId(101) }, &[1], &[1, 2]),
            simple(LibfuncId::StructConstruct { ty: ConcreteTypeId(102) }, &[0, 2], &[3]),
        ])
    );
    let untyped = lowering::Statement::StructConstruct(StatementStructConstruct {
        inputs: vars(&[0, 1]),
        output: VariableId(4),
    });
    assert_eq!(generate(&last_uses(&[0, 1]), &untyped), Err(DiagnosticAdded));
}

#[test]
fn a_struct_is_taken_apart() {
    let statement = lowering::Statement::StructDestructure(StatementStructDestructure {
        input: VariableId(2),
        outputs: vars(&[0, 3]),
    });
    assert_eq!(
        generate(&last_uses(&[0]), &statement),
        Ok(vec![simple(LibfuncId::StructDeconstruct { ty: ConcreteTypeId(102) }, &[0], &[1, 2])])
    );
    assert_eq!(
        generate(&last_uses(&[]), &statement),
        Ok(vec![
            simple(LibfuncId::Dup { ty: ConcreteTypeId(102) }, &[0], &[0, 1]),
            simple(LibfuncId::StructDeconstruct { ty: ConcreteTypeId(102) }, &[1], &[2, 3]),
        ])
    );
}

#[test]
fn a_struct_without_its_libfunc_is_not_taken_apart() {
    let statement = lowering::Statement::StructDestructure(StatementStructDestructure {
        input: VariableId(2),
        outputs: vars(&[0, 3]),
    });
    let mut db = SierraGenDb::new();
    db.without_struct_deconstruct.insert(ConcreteTypeId(102), ());
    assert_eq!(
        generate_with_db(&db, &last_uses(&[0]), &statement),
        Err(DiagnosticAdded)
    );
    let untyped = lowering::Statement::StructDestructure(StatementStructDestructure {
        input: VariableId(4),
        outputs: vec![],
    });
    assert_eq!(generate(&last_uses(&[0]), &untyped), Err(DiagnosticAdded));
}

#[test]
fn a_snapshot_is_taken_without_a_copy() {
    let statement = lowering::Statement::Snapshot(StatementSnapshot {
        input: VariableId(1),
        output_original: VariableId(2),
        output_snapshot: VariableId(3),
    });
    assert_eq!(
        generate(&last_uses(&[]), &statement),
        Ok(vec![simple(LibfuncId::SnapshotTake { ty: ConcreteTypeId(101) }, &[0], &[1, 2])])
    );
    let untyped = lowering::Statement::Snapshot(StatementSnapshot {
        input: VariableId(4),
        output_original: VariableId(2),
        output_snapshot: VariableId(3),
    });
    assert_eq!(generate(&last_uses(&[0]), &untyped), Err(DiagnosticAdded));
}

#[test]
fn a_desnap_renames() {
    let statement = lowering::Statement::Desnap(StatementDesnap {
        input: VariableId(3),
        output: VariableId(0),
    });
    assert_eq!(
        generate(&last_uses(&[]), &statement),
        Ok(vec![simple(LibfuncId::Rename { ty: ConcreteTypeId(103) }, &[0], &[1])])
    );
    let untyped = lowering::Statement::Desnap(StatementDesnap {
        input: VariableId(4),
        output: VariableId(0),
    });
    assert_eq!(generate(&last_uses(&[]), &untyped), Err(DiagnosticAdded));
}

#[test]
fn a_return_pushes_and_returns() {
    let db = SierraGenDb::new();
    let lowered = lowered();
    let lifetime = last_uses(&[1]);
    let mut context = ExprGeneratorContext::new(&db, &lowered, &lifetime);
    assert_eq!(
        generate_return_code(&mut context, &vars(&[1, 0]), &HERE),
        Ok(vec![
            Statement::PushValues(vec![push(1, 0, 101, true), push(3, 2, 100, false)]),
            Statement::Sierra(GenStatement::Return(sierra_vars(&[0, 2]))),
        ])
    );
}

#[test]
fn a_return_of_nothing() {
    let db = SierraGenDb::new();
    let lowered = lowered();
    let lifetime = last_uses(&[]);
    let mut context = ExprGeneratorContext::new(&db, &lowered, &lifetime);
    assert_eq!(
        generate_return_code(&mut context, &[], &HERE),
        Ok(vec![
            Statement::PushValues(vec![]),
            Statement::Sierra(GenStatement::Return(vec![])),
        ])
    );
}

#[test]
fn a_value_of_unknown_type_is_not_returned() {
    let db = SierraGenDb::new();
    let lowered = lowered();
    let lifetime = last_uses(&[0, 1]);
    let mut context = ExprGeneratorContext::new(&db, &lowered, &lifetime);
    assert_eq!(
        generate_return_code(&mut context, &vars(&[0, 4]), &HERE),
        Err(DiagnosticAdded)
    );
}

#[test]
fn only_a_last_use_needs_no_copy() {
    let db = SierraGenDb::new();
    let lowered = lowered();
    let lifetime = last_uses(&[1]);
    let mut context = ExprGeneratorContext::new(&db, &lowered, &lifetime);
    assert!(should_dup(&mut context, &UseLocation { statement_location: HERE, idx: 0 }));
    assert!(!should_dup(&mut context, &UseLocation { statement_location: HERE, idx: 1 }));
    let elsewhere = (BlockId(1), 3);
    assert!(should_dup(&mut context, &UseLocation { statement_location: elsewhere, idx: 1 }));
    let earlier = (BlockId(0), 2);
    assert!(should_dup(&mut context, &UseLocation { statement_location: earlier, idx: 1 }));
}

#[test]
fn a_variable_keeps_its_name_over_statements() {
    let db = SierraGenDb::new();
    let lowered = lowered();
    let lifetime = last_uses(&[0]);
    let mut context = ExprGeneratorContext::new(&db, &lowered, &lifetime);
    let desnap = lowering::Statement::Desnap(StatementDesnap {
        input: VariableId(3),
        output: VariableId(0),
    });
    let back = lowering::Statement::Desnap(StatementDesnap {
        input: VariableId(0),
        output: VariableId(3),
    });
    assert_eq!(
        generate_statement_code(&mut context, &desnap, &HERE),
        Ok(vec![simple(LibfuncId::Rename { ty: ConcreteTypeId(103) }, &[0], &[1])])
    );
    assert_eq!(
        generate_statement_code(&mut context, &back, &HERE),
        Ok(vec![simple(LibfuncId::Rename { ty: ConcreteTypeId(100) }, &[1], &[0])])
    );
}

#[test]
fn a_failed_statement_keeps_the_names_that_it_gave() {
    let db = SierraGenDb::new();
    let lowered = lowered();
    let lifetime = last_uses(&[0, 1]);
    let mut context = ExprGeneratorContext::new(&db, &lowered, &lifetime);
    let call = lowering::Statement::Call(StatementCall {
        function: function(GenericFunctionId::Free(1)),
        inputs: vars(&[4, 0]),
        outputs: vars(&[1]),
    });
    assert_eq!(generate_statement_code(&mut context, &call, &HERE), Err(DiagnosticAdded));
    // Three variables got names, and one more was allocated for the first argument.
    assert_eq!(context.allocate_sierra_variable(), VarId(4));
}
