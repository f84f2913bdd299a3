//! The lowered form of a function: flat blocks of statements over variables.

use num_bigint::BigInt;
use vstd::prelude::*;

use crate::libfunc::{ConcreteTypeId, FunctionId, Maybe, TypeId};
use crate::ordered_map::{Key, OrderedMap};

verus! {

/// A variable of a lowered function: its position among the function's variables.
#[derive(Clone, Copy, Debug, PartialEq, Eq, Structural)]
pub struct VariableId(pub usize);

/// A block of a lowered function: its position among the function's blocks.
#[derive(Clone, Copy, Debug, PartialEq, Eq, Structural)]
pub struct BlockId(pub usize);

impl BlockId {
    /// The block that follows this one.
    pub fn next_block_id(&self) -> (next: BlockId)
        requires
            self.0 < usize::MAX,
        ensures
            next.0 == self.0 + 1,
    {
        BlockId(self.0 + 1)
    }
}

impl Key for VariableId {
    fn same(&self, other: &Self) -> (equal: bool) {
        *self == *other
    }
}

impl Key for BlockId {
    fn same(&self, other: &Self) -> (equal: bool) {
        *self == *other
    }
}

/// A place in a block: before the statement of that number, or before the block's end.
pub type StatementLocation = (BlockId, usize);

/// A variable, with what is known of its type.
#[derive(Debug)]
pub struct Variable {
    /// The type of the variable.
    pub ty: TypeId,
    /// The Sierra type of the variable.
    pub sierra_type: Maybe<ConcreteTypeId>,
    /// The Sierra type of a local of that type before it is initialized.
    pub uninitialized_sierra_type: Maybe<ConcreteTypeId>,
}

/// A variant of an enum.
#[derive(Clone, Copy, Debug, PartialEq, Eq, Structural)]
pub struct ConcreteVariant {
    pub concrete_enum_id: u64,
    pub idx: usize,
}

/// A statement that introduces a constant.
#[derive(Debug)]
pub struct StatementLiteral {
    pub value: BigInt,
    pub output: VariableId,
}

/// A statement that calls a function.
#[derive(Debug)]
pub struct StatementCall {
    pub function: FunctionId,
    pub inputs: Vec<VariableId>,
    pub outputs: Vec<VariableId>,
}

/// A statement that constructs a variant of an enum.
#[derive(Debug)]
pub struct StatementEnumConstruct {
    pub variant: ConcreteVariant,
    pub input: VariableId,
    pub output: VariableId,
}

/// A statement that constructs a struct or a tuple.
#[derive(Debug)]
pub struct StatementStructConstruct {
    pub inputs: Vec<VariableId>,
    pub output: VariableId,
}

/// A statement that takes a struct or a tuple apart.
#[derive(Debug)]
pub struct StatementStructDestructure {
    pub input: VariableId,
    pub outputs: Vec<VariableId>,
}

/// A statement that takes a snapshot of a variable.
#[derive(Debug)]
pub struct StatementSnapshot {
    pub input: VariableId,
    pub output_original: VariableId,
    pub output_snapshot: VariableId,
}

/// A statement that turns a snapshot of a copyable value into the value.
#[derive(Debug)]
pub struct StatementDesnap {
    pub input: VariableId,
    pub output: VariableId,
}

/// A statement of a block.
#[derive(Debug)]
pub enum Statement {
    Literal(StatementLiteral),
    Call(StatementCall),
    EnumConstruct(StatementEnumConstruct),
    StructConstruct(StatementStructConstruct),
    StructDestructure(StatementStructDestructure),
    Snapshot(StatementSnapshot),
    Desnap(StatementDesnap),
}

/// The values that the variables of a target block take from this one: each variable of the
/// target once, with the variable that it takes its value from.
pub type VarRemapping = OrderedMap<VariableId, VariableId>;

/// An arm of a match.
#[derive(Debug)]
pub struct MatchArm {
    pub variant_id: ConcreteVariant,
    /// The block to which the arm leads.
    pub block_id: BlockId,
    /// The variables that the arm introduces.
    pub var_ids: Vec<VariableId>,
}

/// A match on what a libfunc returns.
#[derive(Debug)]
pub struct MatchExternInfo {
    pub function: FunctionId,
    pub inputs: Vec<VariableId>,
    pub arms: Vec<MatchArm>,
}

/// A match on the variant of an enum.
#[derive(Debug)]
pub struct MatchEnumInfo {
    pub concrete_enum_id: u64,
    pub input: VariableId,
    pub arms: Vec<MatchArm>,
}

/// A match at the end of a block.
#[derive(Debug)]
pub enum MatchInfo {
    Extern(MatchExternInfo),
    Enum(MatchEnumInfo),
}

/// What happens at the end of a block.
#[derive(Debug)]
pub enum FlatBlockEnd {
    /// The block was created but not filled.
    NotSet,
    /// Returns the variables from the function.
    Return(Vec<VariableId>),
    /// Panics with the data of a variable. Earlier phases strip such ends.
    Panic(VariableId),
    /// Goes on at another block.
    Goto(BlockId, VarRemapping),
    /// Branches.
    Match { info: MatchInfo },
}

/// A block: statements, then an end.
#[derive(Debug)]
pub struct FlatBlock {
    pub statements: Vec<Statement>,
    pub end: FlatBlockEnd,
}

/// A lowered function.
#[derive(Debug)]
pub struct FlatLowered {
    pub variables: Vec<Variable>,
    pub blocks: Vec<FlatBlock>,
}

/// The variable is one of the first `count`.
pub open spec fn is_variable(var: VariableId, count: nat) -> bool {
    var.0 < count
}

/// Each of the variables is one of the first `count`.
pub open spec fn are_variables(vars: Seq<VariableId>, count: nat) -> bool {
    forall|i: int| 0 <= i < vars.len() ==> is_variable(#[trigger] vars[i], count)
}

/// The arms introduce only variables that are among the first `count`.
pub open spec fn are_arms(arms: Seq<MatchArm>, count: nat) -> bool {
    forall|i: int| 0 <= i < arms.len() ==> are_variables((#[trigger] arms[i]).var_ids@, count)
}

impl Statement {
    /// The statement mentions only variables that are among the first `count`.
    pub open spec fn wf(&self, count: nat) -> bool {
        match self {
            Statement::Literal(s) => is_variable(s.output, count),
            Statement::Call(s) => are_variables(s.inputs@, count) && are_variables(
                s.outputs@,
                count,
            ),
            Statement::EnumConstruct(s) => is_variable(s.input, count) && is_variable(
                s.output,
                count,
            ),
            Statement::StructConstruct(s) => are_variables(s.inputs@, count) && is_variable(
                s.output,
                count,
            ),
            Statement::StructDestructure(s) => is_variable(s.input, count) && are_variables(
                s.outputs@,
                count,
            ),
            Statement::Snapshot(s) => is_variable(s.input, count) && is_variable(
                s.output_original,
                count,
            ) && is_variable(s.output_snapshot, count),
            Statement::Desnap(s) => is_variable(s.input, count) && is_variable(s.output, count),
        }
    }
}

/// The remapping mentions each target once, and only variables that are among the first `count`.
pub open spec fn is_remapping(remapping: VarRemapping, count: nat) -> bool {
    &&& remapping.wf()
    &&& forall|i: int|
        0 <= i < remapping@.len() ==> is_variable((#[trigger] remapping@[i]).0, count)
            && is_variable(remapping@[i].1, count)
}

impl FlatBlockEnd {
    /// The end mentions only variables that are among the first `count`.
    pub open spec fn wf(&self, count: nat) -> bool {
        match self {
            FlatBlockEnd::NotSet => true,
            FlatBlockEnd::Return(vars) => are_variables(vars@, count),
            FlatBlockEnd::Panic(var) => is_variable(*var, count),
            FlatBlockEnd::Goto(_, remapping) => is_remapping(*remapping, count),
            FlatBlockEnd::Match { info: MatchInfo::Extern(info) } => are_variables(
                info.inputs@,
                count,
            ) && are_arms(info.arms@, count),
            FlatBlockEnd::Match { info: MatchInfo::Enum(info) } => is_variable(info.input, count)
                && are_arms(info.arms@, count),
        }
    }
}

impl FlatBlock {
    /// The statements of the block mention only variables that are among the first `count`.
    pub open spec fn statements_wf(&self, count: nat) -> bool {
        forall|i: int|
            0 <= i < self.statements@.len() ==> (#[trigger] self.statements@[i]).wf(count)
    }

    /// The block mentions only variables that are among the first `count`.
    pub open spec fn wf(&self, count: nat) -> bool {
        self.statements_wf(count) && self.end.wf(count)
    }
}

impl FlatLowered {
    /// Each block mentions only variables of the function.
    pub open spec fn wf(&self) -> bool {
        forall|i: int|
            0 <= i < self.blocks@.len() ==> (#[trigger] self.blocks@[i]).wf(
                self.variables@.len(),
            )
    }
}

} // verus!
