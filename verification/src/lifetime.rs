//! Where the variables of a lowered function are used for the last time and where they are dropped.

use vstd::prelude::*;

use crate::lowering::{BlockId, StatementLocation, VariableId};
use crate::ordered_map::{Key, OrderedMap};

verus! {

/// Something that gets a Sierra variable.
#[derive(Clone, Copy, Debug, PartialEq, Eq, Structural)]
pub enum SierraGenVar {
    /// A variable of the lowered function.
    LoweringVar(VariableId),
    /// The local of a variable of the lowered function, before it is initialized.
    UninitializedLocal(VariableId),
}

/// A use of a variable: the place of a statement or a block end, and the number of the input.
#[derive(Clone, Copy, Debug, PartialEq, Eq)]
pub struct UseLocation {
    pub statement_location: StatementLocation,
    pub idx: usize,
}

/// A place where variables are dropped.
#[derive(Clone, Copy, Debug, PartialEq, Eq)]
pub enum DropLocation {
    /// Before the first statement of a block.
    BeginningOfBlock(BlockId),
    /// After a statement; with the number of statements, before the end of the block.
    PostStatement(StatementLocation),
}

impl Key for SierraGenVar {
    fn same(&self, other: &Self) -> (equal: bool) {
        *self == *other
    }
}

/// Tells whether the two places are the same.
fn same_location(left: StatementLocation, right: StatementLocation) -> (equal: bool)
    ensures
        equal == (left == right),
{
    left.0 == right.0 && left.1 == right.1
}

impl Key for UseLocation {
    fn same(&self, other: &Self) -> (equal: bool) {
        same_location(self.statement_location, other.statement_location) && self.idx == other.idx
    }
}

impl Key for DropLocation {
    fn same(&self, other: &Self) -> (equal: bool) {
        match (*self, *other) {
            (DropLocation::BeginningOfBlock(left), DropLocation::BeginningOfBlock(right)) => {
                left == right
            },
            (DropLocation::PostStatement(left), DropLocation::PostStatement(right)) => {
                same_location(left, right)
            },
            _ => false,
        }
    }
}

/// The variables that a table of drops has at a place.
pub open spec fn drops_listed(
    drops: OrderedMap<DropLocation, Vec<SierraGenVar>>,
    location: DropLocation,
) -> Seq<SierraGenVar> {
    if drops.map().contains_key(location) {
        drops.map()[location]@
    } else {
        Seq::empty()
    }
}

/// The lifetimes of the variables of a lowered function.
#[derive(Debug)]
pub struct VariableLifetimeResult {
    /// The uses after which the used variable is not used any more.
    pub last_use: OrderedMap<UseLocation, ()>,
    /// The variables to drop at each place.
    pub drops: OrderedMap<DropLocation, Vec<SierraGenVar>>,
}

impl VariableLifetimeResult {
    /// No use is a last one, and nothing is dropped.
    pub fn new() -> (lifetime: Self)
        ensures
            lifetime.last_use.wf(),
            lifetime.last_use.map() == Map::<UseLocation, ()>::empty(),
            lifetime.drops.wf(),
            lifetime.drops.map() == Map::<DropLocation, Vec<SierraGenVar>>::empty(),
    {
        VariableLifetimeResult { last_use: OrderedMap::new(), drops: OrderedMap::new() }
    }
}

} // verus!
