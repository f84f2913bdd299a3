//! The code of blocks.

use sierra_generator::block_generator::{generate_block_body_code, generate_block_code};
use sierra_generator::context::ExprGeneratorContext;
use sierra_generator::libfunc::{
    ConcreteTypeId, DiagnosticAdded, FunctionId, GenericFunctionId, LibfuncId, SierraGenDb, TypeId,
};
use sierra_generator::lifetime::{
    DropLocation, SierraGenVar, UseLocation, VariableLifetimeResult,
};
use sierra_generator::lowering;
use sierra_generator::lowering::{
    BlockId, ConcreteVariant, FlatBlock, FlatBlockEnd, FlatLowered, MatchArm, MatchEnumInfo,
    MatchExternInfo, MatchInfo, StatementDesnap, VarRemapping, Variable, VariableId,
};
use sierra_generator::pre_sierra::{
    GenBranchInfo, GenBranchTarget, GenInvocation, GenStatement, Label, LabelId, PushValue,
    Statement, VarId,
};

/// Variables of which that of number `n` has the Sierra type that the list gives. A zero stands
/// for a type that is not known.
fn variables(types: &[u64]) -> Vec<Variable> {
    types
        .iter()
        .map(|ty| {
            let known = |id: u64| if *ty == 0 { Err(DiagnosticAdded) } else { Ok(ConcreteTypeId(id)) };
            Variable {
                ty: TypeId(*ty),
                sierra_type: known(*ty),
                uninitialized_sierra_type: known(*ty + 1000),
            }
        })
        .collect()
}

fn desnap(input: usize, output: usize) -> lowering::Statement {
    lowering::Statement::Desnap(StatementDesnap {
        input: VariableId(input),
        output: VariableId(output),
    })
}

fn return_end(vars: &[usize]) -> FlatBlockEnd {
    FlatBlockEnd::Return(vars.iter().map(|id| VariableId(*id)).collect())
}

fn goto(target: usize, entries: &[(usize, usize)]) -> FlatBlockEnd {
    let mut remapping = VarRemapping::new();
    for (output, inner_output) in entries {
        remapping.insert(VariableId(*output), VariableId(*inner_output));
    }
    FlatBlockEnd::Goto(BlockId(target), remapping)
}

fn arm(idx: usize, block: usize, vars: &[usize]) -> MatchArm {
    MatchArm {
        variant_id: ConcreteVariant { concrete_enum_id: 1, idx },
        block_id: BlockId(block),
        var_ids: vars.iter().map(|id| VariableId(*id)).collect(),
    }
}

fn libfunc() -> FunctionId {
    FunctionId { generic_function: GenericFunctionId::Extern(5), generic_args: 0 }
}

fn match_extern(inputs: &[usize], arms: Vec<MatchArm>) -> FlatBlockEnd {
    FlatBlockEnd::Match {
        info: MatchInfo::Extern(MatchExternInfo {
            function: libfunc(),
            inputs: inputs.iter().map(|id| VariableId(*id)).collect(),
            arms,
        }),
    }
}

fn match_enum(input: usize, arms: Vec<MatchArm>) -> FlatBlockEnd {
    FlatBlockEnd::Match {
        info: MatchInfo::Enum(MatchEnumInfo {
            concrete_enum_id: 1,
            input: VariableId(input),
            arms,
        }),
    }
}

fn block(statements: Vec<lowering::Statement>, end: FlatBlockEnd) -> FlatBlock {
    FlatBlock { statements, end }
}

fn last_use(lifetime: &mut VariableLifetimeResult, block: usize, statement: usize, idx: usize) {
    lifetime
        .last_use
        .insert(UseLocation { statement_location: (BlockId(block), statement), idx }, ());
}

fn sierra_vars(ids: &[u64]) -> Vec<VarId> {
    ids.iter().map(|id| VarId(*id)).collect()
}

fn simple(libfunc_id: LibfuncId, inputs: &[u64], outputs: &[u64]) -> Statement {
    invocation(libfunc_id, inputs, vec![branch(None, outputs)])
}

fn invocation(libfunc_id: LibfuncId, inputs: &[u64], branches: Vec<GenBranchInfo>) -> Statement {
    Statement::Sierra(GenStatement::Invocation(GenInvocation {
        libfunc_id,
        args: sierra_vars(inputs),
        branches,
    }))
}

fn branch(label: Option<u64>, results: &[u64]) -> GenBranchInfo {
    GenBranchInfo {
        target: match label {
            Some(id) => GenBranchTarget::Statement(LabelId(id)),
            None => GenBranchTarget::Fallthrough,
        },
        results: sierra_vars(results),
    }
}

fn jump(label: u64) -> Statement {
    invocation(LibfuncId::Jump, &[], vec![branch(Some(label), &[])])
}

fn label(id: u64) -> Statement {
    Statement::Label(Label { id: LabelId(id) })
}

fn align() -> Statement {
    simple(LibfuncId::BranchAlign, &[], &[])
}

fn drop_of(ty: u64, var: u64) -> Statement {
    simple(LibfuncId::Drop { ty: ConcreteTypeId(ty) }, &[var], &[])
}

fn rename(ty: u64, input: u64, output: u64) -> Statement {
    simple(LibfuncId::Rename { ty: ConcreteTypeId(ty) }, &[input], &[output])
}

fn pushes(values: &[(u64, u64, u64, bool)]) -> Statement {
    Statement::PushValues(
        values
            .iter()
            .map(|(var, var_on_stack, ty, dup)| PushValue {
                var: VarId(*var),
                var_on_stack: VarId(*var_on_stack),
                ty: ConcreteTypeId(*ty),
                dup: *dup,
            })
            .collect(),
    )
}

fn return_of(vars: &[u64]) -> Statement {
    Statement::Sierra(GenStatement::Return(sierra_vars(vars)))
}

fn generate(
    db: &SierraGenDb,
    lowered: &FlatLowered,
    lifetime: &VariableLifetimeResult,
    block_id: usize,
) -> Result<Vec<Statement>, DiagnosticAdded> {
    let mut context = ExprGeneratorContext::new(db, lowered, lifetime);
    generate_block_code(&mut context, BlockId(block_id))
}

#[test]
fn a_block_that_returns() {
    let lowered =
        FlatLowered { variables: variables(&[7]), blocks: vec![block(vec![], return_end(&[0]))] };
    let mut lifetime = VariableLifetimeResult::new();
    last_use(&mut lifetime, 0, 0, 0);
    assert_eq!(
        generate(&SierraGenDb::new(), &lowered, &lifetime, 0),
        Ok(vec![pushes(&[(1, 0, 7, false)]), return_of(&[0])])
    );
}

#[test]
fn drops_stand_at_their_places() {
    let lowered = FlatLowered {
        variables: variables(&[7, 8, 9]),
        blocks: vec![block(vec![desnap(0, 1), desnap(0, 1)], return_end(&[]))],
    };
    let mut lifetime = VariableLifetimeResult::new();
    lifetime.drops.insert(
        DropLocation::BeginningOfBlock(BlockId(0)),
        vec![
            SierraGenVar::UninitializedLocal(VariableId(2)),
            SierraGenVar::LoweringVar(VariableId(2)),
        ],
    );
    lifetime.drops.insert(
        DropLocation::PostStatement((BlockId(0), 0)),
        vec![SierraGenVar::LoweringVar(VariableId(1))],
    );
    lifetime.drops.insert(
        DropLocation::PostStatement((BlockId(0), 2)),
        vec![SierraGenVar::LoweringVar(VariableId(0)), SierraGenVar::LoweringVar(VariableId(1))],
    );
    // Drops of another block do not count.
    lifetime.drops.insert(
        DropLocation::PostStatement((BlockId(1), 1)),
        vec![SierraGenVar::LoweringVar(VariableId(0))],
    );
    assert_eq!(
        generate(&SierraGenDb::new(), &lowered, &lifetime, 0),
        Ok(vec![
            drop_of(1009, 0),
            drop_of(9, 1),
            rename(7, 2, 3),
            drop_of(8, 3),
            rename(7, 2, 3),
            drop_of(7, 2),
            drop_of(8, 3),
            pushes(&[]),
            return_of(&[]),
        ])
    );
}

#[test]
fn a_body_is_the_block_without_its_end() {
    let lowered = FlatLowered {
        variables: variables(&[7, 8]),
        blocks: vec![block(vec![desnap(0, 1)], FlatBlockEnd::NotSet)],
    };
    let mut lifetime = VariableLifetimeResult::new();
    lifetime.drops.insert(
        DropLocation::PostStatement((BlockId(0), 1)),
        vec![SierraGenVar::LoweringVar(VariableId(1))],
    );
    let db = SierraGenDb::new();
    let mut context = ExprGeneratorContext::new(&db, &lowered, &lifetime);
    assert_eq!(
        generate_block_body_code(&mut context, BlockId(0), &lowered.blocks[0]),
        Ok(vec![rename(7, 0, 1), drop_of(8, 1)])
    );
}

#[test]
fn a_variable_of_unknown_type_is_not_dropped() {
    let lowered =
        FlatLowered { variables: variables(&[7, 0]), blocks: vec![block(vec![], return_end(&[]))] };
    let mut lifetime = VariableLifetimeResult::new();
    lifetime.drops.insert(
        DropLocation::BeginningOfBlock(BlockId(0)),
        vec![SierraGenVar::LoweringVar(VariableId(0)), SierraGenVar::LoweringVar(VariableId(1))],
    );
    assert_eq!(generate(&SierraGenDb::new(), &lowered, &lifetime, 0), Err(DiagnosticAdded));
}

#[test]
fn a_block_that_fails_before_its_end_does_not_reach_it() {
    let lowered = FlatLowered {
        variables: variables(&[0, 7]),
        blocks: vec![block(vec![desnap(0, 1)], FlatBlockEnd::Panic(VariableId(0)))],
    };
    assert_eq!(
        generate(&SierraGenDb::new(), &lowered, &VariableLifetimeResult::new(), 0),
        Err(DiagnosticAdded)
    );
}

#[test]
fn the_next_block_follows_its_label() {
    let lowered = FlatLowered {
        variables: variables(&[7, 7, 8, 8]),
        blocks: vec![
            block(vec![], goto(1, &[(1, 0), (3, 2)])),
            block(vec![], return_end(&[1])),
        ],
    };
    let mut lifetime = VariableLifetimeResult::new();
    last_use(&mut lifetime, 1, 0, 0);
    assert_eq!(
        generate(&SierraGenDb::new(), &lowered, &lifetime, 0),
        Ok(vec![
            pushes(&[(0, 1, 7, false), (2, 3, 8, false)]),
            label(0),
            pushes(&[(1, 4, 7, false)]),
            return_of(&[4]),
        ])
    );
}

#[test]
fn another_block_is_jumped_to() {
    let lowered = FlatLowered {
        variables: variables(&[]),
        blocks: vec![
            block(vec![], goto(2, &[])),
            block(vec![], return_end(&[])),
            block(vec![], goto(0, &[])),
        ],
    };
    let lifetime = VariableLifetimeResult::new();
    let db = SierraGenDb::new();
    assert_eq!(generate(&db, &lowered, &lifetime, 0), Ok(vec![pushes(&[]), jump(0)]));
    // A jump back is one too, and each block has one label.
    let mut context = ExprGeneratorContext::new(&db, &lowered, &lifetime);
    assert_eq!(
        generate_block_code(&mut context, BlockId(2)),
        Ok(vec![pushes(&[]), jump(0)])
    );
    assert_eq!(
        generate_block_code(&mut context, BlockId(0)),
        Ok(vec![pushes(&[]), jump(1)])
    );
    assert_eq!(
        generate_block_code(&mut context, BlockId(2)),
        Ok(vec![pushes(&[]), jump(0)])
    );
}

#[test]
fn a_jump_needs_no_such_block() {
    let lowered =
        FlatLowered { variables: variables(&[]), blocks: vec![block(vec![], goto(9, &[]))] };
    assert_eq!(
        generate(&SierraGenDb::new(), &lowered, &VariableLifetimeResult::new(), 0),
        Ok(vec![pushes(&[]), jump(0)])
    );
}

#[test]
fn a_value_of_unknown_type_is_not_remapped() {
    let lowered = FlatLowered {
        variables: variables(&[7, 0]),
        blocks: vec![block(vec![], goto(2, &[(0, 1)])), block(vec![], goto(2, &[(1, 0)]))],
    };
    let lifetime = VariableLifetimeResult::new();
    assert_eq!(generate(&SierraGenDb::new(), &lowered, &lifetime, 0), Err(DiagnosticAdded));
    assert_eq!(generate(&SierraGenDb::new(), &lowered, &lifetime, 1), Err(DiagnosticAdded));
}

#[test]
fn a_match_on_a_libfunc() {
    let lowered = FlatLowered {
        variables: variables(&[7, 8, 9, 10]),
        blocks: vec![
            block(
                vec![],
                match_extern(&[0, 1], vec![arm(0, 1, &[2]), arm(1, 2, &[]), arm(2, 3, &[3, 2])]),
            ),
            block(vec![], return_end(&[2])),
            block(vec![], goto(4, &[])),
            block(vec![desnap(3, 1)], return_end(&[])),
            block(vec![], return_end(&[])),
        ],
    };
    let mut lifetime = VariableLifetimeResult::new();
    last_use(&mut lifetime, 0, 0, 0);
    last_use(&mut lifetime, 1, 0, 0);
    assert_eq!(
        generate(&SierraGenDb::new(), &lowered, &lifetime, 0),
        Ok(vec![
            simple(LibfuncId::Dup { ty: ConcreteTypeId(8) }, &[3], &[3, 4]),
            invocation(
                LibfuncId::Function { function: libfunc() },
                &[2, 4],
                vec![branch(None, &[0]), branch(Some(0), &[]), branch(Some(1), &[1, 0])],
            ),
            align(),
            pushes(&[(0, 5, 9, false)]),
            return_of(&[5]),
            label(0),
            align(),
            pushes(&[]),
            jump(3),
            label(1),
            align(),
            rename(10, 1, 3),
            pushes(&[]),
            return_of(&[]),
            label(2),
        ])
    );
}

#[test]
fn a_match_on_an_enum() {
    let lowered = FlatLowered {
        variables: variables(&[7, 8, 9]),
        blocks: vec![
            block(vec![], match_enum(0, vec![arm(0, 1, &[1]), arm(1, 2, &[2])])),
            block(vec![], return_end(&[])),
            block(vec![], return_end(&[])),
        ],
    };
    let mut lifetime = VariableLifetimeResult::new();
    let arms = || {
        vec![
            align(),
            pushes(&[]),
            return_of(&[]),
            label(0),
            align(),
            pushes(&[]),
            return_of(&[]),
            label(1),
        ]
    };
    let enum_match = |matched: u64| {
        invocation(
            LibfuncId::MatchEnum { ty: ConcreteTypeId(7) },
            &[matched],
            vec![branch(None, &[0]), branch(Some(0), &[1])],
        )
    };
    let mut copied = vec![
        simple(LibfuncId::Dup { ty: ConcreteTypeId(7) }, &[2], &[2, 3]),
        enum_match(3),
    ];
    copied.extend(arms());
    assert_eq!(generate(&SierraGenDb::new(), &lowered, &lifetime, 0), Ok(copied));
    last_use(&mut lifetime, 0, 0, 0);
    let mut moved = vec![enum_match(2)];
    moved.extend(arms());
    assert_eq!(generate(&SierraGenDb::new(), &lowered, &lifetime, 0), Ok(moved));
}

#[test]
fn a_match_with_one_arm_has_only_the_label_of_its_end() {
    let lowered = FlatLowered {
        variables: variables(&[7]),
        blocks: vec![
            block(vec![], match_enum(0, vec![arm(0, 1, &[])])),
            block(vec![], return_end(&[])),
        ],
    };
    let mut lifetime = VariableLifetimeResult::new();
    last_use(&mut lifetime, 0, 0, 0);
    assert_eq!(
        generate(&SierraGenDb::new(), &lowered, &lifetime, 0),
        Ok(vec![
            invocation(
                LibfuncId::MatchEnum { ty: ConcreteTypeId(7) },
                &[0],
                vec![branch(None, &[])]
            ),
            align(),
            pushes(&[]),
            return_of(&[]),
            label(0),
        ])
    );
}

#[test]
fn an_enum_without_its_libfunc_is_not_matched() {
    let lowered = FlatLowered {
        variables: variables(&[7, 0]),
        blocks: vec![
            block(vec![], match_enum(0, vec![arm(0, 2, &[])])),
            block(vec![], match_enum(1, vec![arm(0, 2, &[])])),
            block(vec![], return_end(&[])),
        ],
    };
    let mut lifetime = VariableLifetimeResult::new();
    last_use(&mut lifetime, 0, 0, 0);
    last_use(&mut lifetime, 1, 0, 0);
    let mut db = SierraGenDb::new();
    assert!(generate(&db, &lowered, &lifetime, 0).is_ok());
    // The type of the second is not known.
    assert_eq!(generate(&db, &lowered, &lifetime, 1), Err(DiagnosticAdded));
    db.without_match_enum.insert(ConcreteTypeId(7), ());
    assert_eq!(generate(&db, &lowered, &lifetime, 0), Err(DiagnosticAdded));
}

#[test]
fn an_arm_that_fails_stops_the_match() {
    let lowered = FlatLowered {
        variables: variables(&[0, 7]),
        blocks: vec![
            block(
                vec![],
                // The last arm is never reached.
                match_extern(&[], vec![arm(0, 1, &[]), arm(1, 2, &[]), arm(2, 99, &[])]),
            ),
            block(vec![], return_end(&[])),
            block(vec![], return_end(&[0])),
        ],
    };
    assert_eq!(
        generate(&SierraGenDb::new(), &lowered, &VariableLifetimeResult::new(), 0),
        Err(DiagnosticAdded)
    );
}

#[test]
fn nested_matches_place_each_label_once() {
    let lowered = FlatLowered {
        variables: variables(&[7]),
        blocks: vec![
            block(vec![], match_extern(&[], vec![arm(0, 1, &[]), arm(1, 4, &[])])),
            block(vec![], match_extern(&[], vec![arm(0, 2, &[]), arm(1, 3, &[])])),
            block(vec![], goto(6, &[])),
            block(vec![], goto(6, &[])),
            block(vec![], goto(5, &[])),
            block(vec![], goto(6, &[])),
            block(vec![], return_end(&[])),
        ],
    };
    let code = generate(&SierraGenDb::new(), &lowered, &VariableLifetimeResult::new(), 0).unwrap();
    let placed: Vec<u64> = code
        .iter()
        .filter_map(|statement| match statement {
            Statement::Label(Label { id }) => Some(id.0),
            _ => None,
        })
        .collect();
    assert_eq!(placed, vec![2, 3, 0, 5, 4, 1]);
    // The code ends with the label of the outer match, and both jumps go to the same block.
    assert_eq!(code.last(), Some(&label(1)));
    assert_eq!(code.iter().filter(|statement| **statement == jump(4)).count(), 2);
}

#[test]
fn a_block_that_two_arms_share_is_generated_twice() {
    let lowered = FlatLowered {
        variables: variables(&[]),
        blocks: vec![
            block(vec![], match_extern(&[], vec![arm(0, 1, &[]), arm(1, 1, &[])])),
            block(vec![], goto(2, &[])),
            block(vec![], return_end(&[])),
        ],
    };
    let code = generate(&SierraGenDb::new(), &lowered, &VariableLifetimeResult::new(), 0).unwrap();
    // Then the label of the block after the shared one is placed twice.
    assert_eq!(code.iter().filter(|statement| **statement == label(2)).count(), 2);
}

#[test]
fn names_carry_over_from_block_to_block() {
    let lowered = FlatLowered {
        variables: variables(&[7, 7]),
        blocks: vec![
            block(vec![desnap(0, 1)], goto(5, &[])),
            block(vec![desnap(1, 0)], return_end(&[])),
        ],
    };
    let db = SierraGenDb::new();
    let lifetime = VariableLifetimeResult::new();
    let mut context = ExprGeneratorContext::new(&db, &lowered, &lifetime);
    assert_eq!(
        generate_block_code(&mut context, BlockId(0)),
        Ok(vec![rename(7, 0, 1), pushes(&[]), jump(0)])
    );
    assert_eq!(
        generate_block_code(&mut context, BlockId(1)),
        Ok(vec![rename(7, 1, 0), pushes(&[]), return_of(&[])])
    );
}

#[test]
fn only_the_blocks_that_are_generated_need_types() {
    let blocks = |target: usize| {
        vec![
            block(vec![], goto(target, &[])),
            block(vec![], return_end(&[0])),
            block(vec![], return_end(&[0])),
        ]
    };
    let lifetime = VariableLifetimeResult::new();
    let db = SierraGenDb::new();
    // The next block is generated, and what it returns has no known type.
    let followed = FlatLowered { variables: variables(&[0]), blocks: blocks(1) };
    assert_eq!(generate(&db, &followed, &lifetime, 0), Err(DiagnosticAdded));
    // A block that is jumped to is not.
    let jumped = FlatLowered { variables: variables(&[0]), blocks: blocks(2) };
    assert_eq!(generate(&db, &jumped, &lifetime, 0), Ok(vec![pushes(&[]), jump(0)]));
}

#[test]
fn a_block_gives_few_names() {
    let lowered = FlatLowered {
        variables: variables(&[7, 7, 7]),
        blocks: vec![
            block(vec![desnap(0, 1)], match_extern(&[0], vec![arm(0, 1, &[2]), arm(1, 2, &[])])),
            block(vec![], return_end(&[2])),
            block(vec![], goto(9, &[(1, 2)])),
        ],
    };
    let db = SierraGenDb::new();
    let lifetime = VariableLifetimeResult::new();
    let mut context = ExprGeneratorContext::new(&db, &lowered, &lifetime);
    assert!(generate_block_code(&mut context, BlockId(0)).is_ok());
    // Three variables have names, and one was given to a copy and one to a returned value. The
    // match has two labels, and the jump goes to a third.
    assert_eq!(context.allocate_sierra_variable(), VarId(5));
    assert_eq!(context.new_label(), LabelId(3));
}

#[test]
fn the_names_given_do_not_change_how_a_block_comes_out() {
    let lowered = FlatLowered {
        variables: variables(&[7, 0]),
        blocks: vec![block(vec![desnap(0, 1)], return_end(&[0])), block(vec![], return_end(&[1]))],
    };
    let db = SierraGenDb::new();
    let lifetime = VariableLifetimeResult::new();
    let mut context = ExprGeneratorContext::new(&db, &lowered, &lifetime);
    for _ in 0..3 {
        assert!(generate_block_code(&mut context, BlockId(0)).is_ok());
        assert_eq!(generate_block_code(&mut context, BlockId(1)), Err(DiagnosticAdded));
        context.allocate_sierra_variable();
        context.new_label();
    }
}

#[test]
fn arms_may_lead_to_earlier_blocks() {
    let lowered = FlatLowered {
        variables: variables(&[]),
        blocks: vec![
            block(vec![], return_end(&[])),
            block(vec![], match_extern(&[], vec![arm(0, 2, &[]), arm(1, 0, &[])])),
            block(vec![], goto(1, &[])),
            // This one is never reached.
            block(vec![], FlatBlockEnd::NotSet),
        ],
    };
    assert_eq!(
        generate(&SierraGenDb::new(), &lowered, &VariableLifetimeResult::new(), 1),
        Ok(vec![
            invocation(
                LibfuncId::Function { function: libfunc() },
                &[],
                vec![branch(None, &[]), branch(Some(0), &[])],
            ),
            align(),
            pushes(&[]),
            jump(2),
            label(0),
            align(),
            pushes(&[]),
            return_of(&[]),
            label(1),
        ])
    );
}

#[test]
fn arms_that_share_a_match_get_labels_of_their_own() {
    let lowered = FlatLowered {
        variables: variables(&[]),
        blocks: vec![
            block(vec![], match_extern(&[], vec![arm(0, 1, &[]), arm(1, 1, &[])])),
            block(vec![], match_extern(&[], vec![arm(0, 2, &[]), arm(1, 2, &[])])),
            block(vec![], return_end(&[])),
        ],
    };
    let code = generate(&SierraGenDb::new(), &lowered, &VariableLifetimeResult::new(), 0).unwrap();
    let placed: Vec<u64> = code
        .iter()
        .filter_map(|statement| match statement {
            Statement::Label(Label { id }) => Some(id.0),
            _ => None,
        })
        .collect();
    assert_eq!(placed, vec![2, 3, 0, 4, 5, 1]);
}

#[test]
fn a_body_does_not_depend_on_its_end() {
    let lowered = FlatLowered { variables: variables(&[7, 8]), blocks: vec![] };
    let lifetime = VariableLifetimeResult::new();
    let db = SierraGenDb::new();
    for end in [FlatBlockEnd::NotSet, FlatBlockEnd::Panic(VariableId(50)), return_end(&[99])] {
        let mut context = ExprGeneratorContext::new(&db, &lowered, &lifetime);
        assert_eq!(
            generate_block_body_code(&mut context, BlockId(4), &block(vec![desnap(0, 1)], end)),
            Ok(vec![rename(7, 0, 1)])
        );
    }
}

#[test]
fn a_drop_that_fails_still_names_its_variable() {
    let lowered =
        FlatLowered { variables: variables(&[7, 0, 8]), blocks: vec![block(vec![], return_end(&[]))] };
    let mut lifetime = VariableLifetimeResult::new();
    lifetime.drops.insert(
        DropLocation::BeginningOfBlock(BlockId(0)),
        vec![
            SierraGenVar::LoweringVar(VariableId(0)),
            SierraGenVar::LoweringVar(VariableId(1)),
            SierraGenVar::LoweringVar(VariableId(2)),
        ],
    );
    let db = SierraGenDb::new();
    let mut context = ExprGeneratorContext::new(&db, &lowered, &lifetime);
    assert_eq!(generate_block_code(&mut context, BlockId(0)), Err(DiagnosticAdded));
    // The first two have names. The third was not come to.
    assert_eq!(context.allocate_sierra_variable(), VarId(2));
}
