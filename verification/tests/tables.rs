//! Ordered maps, and the names that a context gives.

use sierra_generator::context::ExprGeneratorContext;
use sierra_generator::libfunc::{ConcreteTypeId, LibfuncId, SierraGenDb, TypeId};
use sierra_generator::lifetime::{SierraGenVar, VariableLifetimeResult};
use sierra_generator::lowering::{BlockId, FlatLowered, Variable, VariableId};
use sierra_generator::ordered_map::OrderedMap;
use sierra_generator::pre_sierra::{LabelId, VarId};

#[test]
fn a_map_keeps_the_order_of_its_keys() {
    let mut map: OrderedMap<BlockId, u8> = OrderedMap::new();
    assert_eq!(map.len(), 0);
    map.insert(BlockId(3), 30);
    map.insert(BlockId(1), 10);
    map.insert(BlockId(2), 20);
    // A key that is there keeps its place.
    map.insert(BlockId(1), 11);
    assert_eq!(map.len(), 3);
    assert_eq!(*map.entry(0), (BlockId(3), 30));
    assert_eq!(*map.entry(1), (BlockId(1), 11));
    assert_eq!(*map.entry(2), (BlockId(2), 20));
    assert_eq!(map.get(BlockId(1)), Some(&11));
    assert_eq!(map.get(BlockId(0)), None);
    assert!(map.contains_key(BlockId(2)));
    assert!(!map.contains_key(BlockId(4)));
}

#[test]
fn a_context_gives_each_name_once() {
    let db = SierraGenDb::new();
    let lowered = FlatLowered { variables: vec![], blocks: vec![] };
    let lifetime = VariableLifetimeResult::new();
    let mut context = ExprGeneratorContext::new(&db, &lowered, &lifetime);
    let first = SierraGenVar::LoweringVar(VariableId(8));
    let local = SierraGenVar::UninitializedLocal(VariableId(8));
    assert_eq!(context.get_sierra_variable(first), VarId(0));
    assert_eq!(context.get_sierra_variable(local), VarId(1));
    assert_eq!(context.allocate_sierra_variable(), VarId(2));
    assert_eq!(context.get_sierra_variable(first), VarId(0));
    assert_eq!(
        context.get_sierra_variables(&[VariableId(5), VariableId(8), VariableId(5)]),
        vec![VarId(3), VarId(0), VarId(3)]
    );
    assert_eq!(context.block_label(BlockId(4)), LabelId(0));
    assert_eq!(context.new_label(), LabelId(1));
    assert_eq!(context.block_label(BlockId(4)), LabelId(0));
    assert_eq!(context.block_label(BlockId(0)), LabelId(2));
}

#[test]
fn the_types_of_a_variable() {
    let db = SierraGenDb::new();
    let lowered = FlatLowered {
        variables: vec![Variable {
            ty: TypeId(1),
            sierra_type: Ok(ConcreteTypeId(2)),
            uninitialized_sierra_type: Ok(ConcreteTypeId(3)),
        }],
        blocks: vec![],
    };
    let lifetime = VariableLifetimeResult::new();
    let context = ExprGeneratorContext::new(&db, &lowered, &lifetime);
    let var = VariableId(0);
    assert_eq!(context.get_var_type(var), TypeId(1));
    assert_eq!(
        context.get_variable_sierra_type(SierraGenVar::LoweringVar(var)),
        Ok(ConcreteTypeId(2))
    );
    assert_eq!(
        context.get_variable_sierra_type(SierraGenVar::UninitializedLocal(var)),
        Ok(ConcreteTypeId(3))
    );
}

#[test]
fn a_database_says_what_it_lacks() {
    let mut db = SierraGenDb::new();
    let ty = ConcreteTypeId(6);
    assert_eq!(
        db.struct_deconstruct_libfunc_id(ty),
        Ok(LibfuncId::StructDeconstruct { ty })
    );
    assert_eq!(db.match_enum_libfunc_id(ty), Ok(LibfuncId::MatchEnum { ty }));
    db.without_struct_deconstruct.insert(ty, ());
    assert!(db.struct_deconstruct_libfunc_id(ty).is_err());
    assert!(db.match_enum_libfunc_id(ty).is_ok());
    db.without_match_enum.insert(ty, ());
    assert!(db.match_enum_libfunc_id(ty).is_err());
}
