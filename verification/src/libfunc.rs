//! Types, functions and libfuncs as the generated code names them.

use num_bigint::BigInt;
use vstd::prelude::*;

use crate::ordered_map::{Key, OrderedMap};

verus! {

/// Says that a diagnostic was reported, so that what was asked for could not be computed.
#[derive(Clone, Copy, Debug, PartialEq, Eq, Structural)]
pub struct DiagnosticAdded;

/// A value that could not be computed where a diagnostic was reported.
pub type Maybe<T> = Result<T, DiagnosticAdded>;

/// A type of the source language.
#[derive(Clone, Copy, Debug, PartialEq, Eq, Structural)]
pub struct TypeId(pub u64);

/// A Sierra type.
#[derive(Clone, Copy, Debug, PartialEq, Eq, Structural)]
pub struct ConcreteTypeId(pub u64);

/// The kinds of function that a call can name.
#[derive(Clone, Copy, Debug, PartialEq, Eq, Structural)]
pub enum GenericFunctionId {
    /// A function with a body.
    Free(u64),
    /// A libfunc.
    Extern(u64),
    /// A function of an impl.
    Impl(u64),
}

/// A concrete function: a generic one with its arguments.
#[derive(Clone, Copy, Debug, PartialEq, Eq, Structural)]
pub struct FunctionId {
    pub generic_function: GenericFunctionId,
    pub generic_args: u64,
}

/// A concrete libfunc: what an invocation invokes.
#[derive(Debug, PartialEq, Eq)]
pub enum LibfuncId {
    /// Equalizes the gas costs of the branches that merge.
    BranchAlign,
    /// Goes to a label.
    Jump,
    /// Produces a constant of a type.
    Const { value_type: TypeId, value: BigInt },
    /// Destroys a value.
    Drop { ty: ConcreteTypeId },
    /// Copies a value.
    Dup { ty: ConcreteTypeId },
    /// Wraps a value in a variant of an enum.
    EnumInit { ty: ConcreteTypeId, variant_idx: usize },
    /// Branches on the variant of an enum.
    MatchEnum { ty: ConcreteTypeId },
    /// Gives a value another name.
    Rename { ty: ConcreteTypeId },
    /// Takes a snapshot of a value.
    SnapshotTake { ty: ConcreteTypeId },
    /// Makes a struct of its members.
    StructConstruct { ty: ConcreteTypeId },
    /// Takes a struct apart into its members.
    StructDeconstruct { ty: ConcreteTypeId },
    /// Calls a function, or invokes the libfunc that an extern function stands for.
    Function { function: FunctionId },
}

impl Key for ConcreteTypeId {
    fn same(&self, other: &Self) -> (equal: bool) {
        *self == *other
    }
}

/// What the compiler's database could not compute of the Sierra types of a program.
#[derive(Debug)]
pub struct SierraGenDb {
    /// The types for which there is no libfunc that takes a struct apart.
    pub without_struct_deconstruct: OrderedMap<ConcreteTypeId, ()>,
    /// The types for which there is no libfunc that matches an enum.
    pub without_match_enum: OrderedMap<ConcreteTypeId, ()>,
}

impl SierraGenDb {
    /// The libfunc that takes a struct of the type apart.
    pub open spec fn struct_deconstruct(&self, ty: ConcreteTypeId) -> Maybe<LibfuncId> {
        if self.without_struct_deconstruct.map().contains_key(ty) {
            Err(DiagnosticAdded)
        } else {
            Ok(LibfuncId::StructDeconstruct { ty })
        }
    }

    /// The libfunc that matches an enum of the type.
    pub open spec fn match_enum(&self, ty: ConcreteTypeId) -> Maybe<LibfuncId> {
        if self.without_match_enum.map().contains_key(ty) {
            Err(DiagnosticAdded)
        } else {
            Ok(LibfuncId::MatchEnum { ty })
        }
    }

    /// A database that could compute everything.
    pub fn new() -> (db: Self)
        ensures
            db.without_struct_deconstruct.wf(),
            db.without_match_enum.wf(),
            forall|ty: ConcreteTypeId| #[trigger] db.struct_deconstruct(ty) is Ok,
            forall|ty: ConcreteTypeId| #[trigger] db.match_enum(ty) is Ok,
    {
        SierraGenDb {
            without_struct_deconstruct: OrderedMap::new(),
            without_match_enum: OrderedMap::new(),
        }
    }

    /// Returns the libfunc that takes a struct of the type apart.
    pub fn struct_deconstruct_libfunc_id(&self, ty: ConcreteTypeId) -> (libfunc: Maybe<LibfuncId>)
        ensures
            libfunc == self.struct_deconstruct(ty),
    {
        if self.without_struct_deconstruct.contains_key(ty) {
            Err(DiagnosticAdded)
        } else {
            Ok(LibfuncId::StructDeconstruct { ty })
        }
    }

    /// Returns the libfunc that matches an enum of the type.
    pub fn match_enum_libfunc_id(&self, ty: ConcreteTypeId) -> (libfunc: Maybe<LibfuncId>)
        ensures
            libfunc == self.match_enum(ty),
    {
        if self.without_match_enum.contains_key(ty) {
            Err(DiagnosticAdded)
        } else {
            Ok(LibfuncId::MatchEnum { ty })
        }
    }
}

} // verus!
