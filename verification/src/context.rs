//! The state of the generation of a function.

use vstd::prelude::*;

use crate::libfunc::{ConcreteTypeId, Maybe, SierraGenDb, TypeId};
use crate::lifetime;
use crate::lifetime::{DropLocation, SierraGenVar, UseLocation, VariableLifetimeResult};
use crate::lowering;
use crate::lowering::{BlockId, FlatBlock, FlatLowered, VariableId};
use crate::names;
use crate::names::Names;
use crate::ordered_map::OrderedMap;
use crate::pre_sierra::{LabelId, VarId};

verus! {

/// What the generation of a function reads.
#[derive(Clone, Copy)]
pub struct FunctionInput<'a> {
    pub db: &'a SierraGenDb,
    pub lowered: &'a FlatLowered,
    pub lifetime: &'a VariableLifetimeResult,
}

impl<'a> FunctionInput<'a> {
    /// The blocks and the drops mention only variables of the function.
    pub open spec fn wf(self) -> bool {
        &&& self.lowered.wf()
        &&& self.lifetime.drops.wf()
        &&& forall|location: DropLocation, i: int|
            0 <= i < self.drops_at(location).len() ==> self.is_var(
                #[trigger] self.drops_at(location)[i],
            )
    }

    /// The number of variables of the function.
    pub open spec fn variable_count(self) -> nat {
        self.lowered.variables@.len()
    }

    /// The variable is one of the function.
    pub open spec fn is_var(self, var: SierraGenVar) -> bool {
        match var {
            SierraGenVar::LoweringVar(id) => lowering::is_variable(id, self.variable_count()),
            SierraGenVar::UninitializedLocal(id) => lowering::is_variable(
                id,
                self.variable_count(),
            ),
        }
    }

    /// Each of the variables is one of the function.
    pub open spec fn are_vars(self, vars: Seq<SierraGenVar>) -> bool {
        forall|i: int| 0 <= i < vars.len() ==> self.is_var(#[trigger] vars[i])
    }

    /// The type of a variable.
    pub open spec fn var_type(self, var: VariableId) -> TypeId {
        self.lowered.variables@[var.0 as int].ty
    }

    /// The Sierra type of a variable.
    pub open spec fn sierra_type(self, var: SierraGenVar) -> Maybe<ConcreteTypeId> {
        match var {
            SierraGenVar::LoweringVar(id) => self.lowered.variables@[id.0 as int].sierra_type,
            SierraGenVar::UninitializedLocal(
                id,
            ) => self.lowered.variables@[id.0 as int].uninitialized_sierra_type,
        }
    }

    /// The Sierra type of a variable of the lowered function.
    pub open spec fn variable_type(self, var: VariableId) -> Maybe<ConcreteTypeId> {
        self.sierra_type(SierraGenVar::LoweringVar(var))
    }

    /// The use is the last one of its variable.
    pub open spec fn last_use(self, use_location: UseLocation) -> bool {
        self.lifetime.last_use.map().contains_key(use_location)
    }

    /// The variables to drop at a place.
    pub open spec fn drops_at(self, location: DropLocation) -> Seq<SierraGenVar> {
        lifetime::drops_listed(self.lifetime.drops, location)
    }
}

/// The state of the generation of a function.
pub struct ExprGeneratorContext<'a> {
    input: FunctionInput<'a>,
    variables: OrderedMap<SierraGenVar, VarId>,
    block_labels: OrderedMap<BlockId, LabelId>,
    next_variable: u64,
    next_label: u64,
}

impl<'a> ExprGeneratorContext<'a> {
    /// What the generation reads. It never changes.
    pub closed spec fn input(&self) -> FunctionInput<'a> {
        self.input
    }

    /// The names given so far.
    pub closed spec fn names(&self) -> Names {
        Names {
            variables: self.variables.map(),
            block_labels: self.block_labels.map(),
            next_variable: self.next_variable as nat,
            next_label: self.next_label as nat,
        }
    }

    /// The tables of the context hold no key twice.
    closed spec fn tables_wf(&self) -> bool {
        self.variables.wf() && self.block_labels.wf()
    }

    /// What is read is well formed, and so are the names given.
    pub closed spec fn wf(&self) -> bool {
        &&& self.input().wf()
        &&& self.names().wf()
        &&& self.tables_wf()
    }

    /// What is read is well formed, and so are the names given.
    pub proof fn lemma_wf(&self)
        requires
            self.wf(),
        ensures
            self.input().wf(),
            self.names().wf(),
            self.names().fits(),
    {
    }

    /// The state before anything was generated.
    pub fn new(
        db: &'a SierraGenDb,
        lowered: &'a FlatLowered,
        lifetime: &'a VariableLifetimeResult,
    ) -> (context: ExprGeneratorContext<'a>)
        requires
            (FunctionInput { db, lowered, lifetime }).wf(),
        ensures
            context.wf(),
            context.input() == (FunctionInput { db, lowered, lifetime }),
            context.names() == Names::initial(),
    {
        ExprGeneratorContext {
            input: FunctionInput { db, lowered, lifetime },
            variables: OrderedMap::new(),
            block_labels: OrderedMap::new(),
            next_variable: 0,
            next_label: 0,
        }
    }

    /// Returns a Sierra variable that was not given before.
    pub fn allocate_sierra_variable(&mut self) -> (var: VarId)
        requires
            old(self).wf(),
            old(self).names().with_fresh_variable().fits(),
        ensures
            final(self).wf(),
            final(self).input() == old(self).input(),
            var == old(self).names().fresh_variable(),
            final(self).names() == old(self).names().with_fresh_variable(),
    {
        let var = VarId(self.next_variable);
        self.next_variable = self.next_variable + 1;
        proof {
            names::lemma_with_fresh_variable(old(self).names());
            names::lemma_extends_wf(old(self).names(), self.names());
        }
        var
    }

    /// Returns the Sierra variable of a variable. Gives it one if it has none.
    pub fn get_sierra_variable(&mut self, var: SierraGenVar) -> (sierra_var: VarId)
        requires
            old(self).wf(),
            old(self).names().with_variable(var).fits(),
        ensures
            final(self).wf(),
            final(self).input() == old(self).input(),
            sierra_var == old(self).names().variable(var),
            final(self).names() == old(self).names().with_variable(var),
    {
        proof {
            names::lemma_with_variable(self.names(), var);
            names::lemma_extends_wf(self.names(), self.names().with_variable(var));
        }
        match self.variables.get(var) {
            Some(sierra_var) => *sierra_var,
            None => {
                let sierra_var = VarId(self.next_variable);
                self.next_variable = self.next_variable + 1;
                self.variables.insert(var, sierra_var);
                sierra_var
            },
        }
    }

    /// Returns the Sierra variables of variables. Gives one to each that has none.
    pub fn get_sierra_variables(&mut self, vars: &[VariableId]) -> (sierra_vars: Vec<VarId>)
        requires
            old(self).wf(),
            old(self).names().with_variables(vars@).fits(),
        ensures
            final(self).wf(),
            final(self).input() == old(self).input(),
            final(self).names() == old(self).names().with_variables(vars@),
            sierra_vars@ == final(self).names().lookup(vars@),
    {
        let ghost start = self.names();
        let mut sierra_vars: Vec<VarId> = Vec::new();
        let mut i: usize = 0;
        while i < vars.len()
            invariant
                i <= vars@.len(),
                self.wf(),
                self.input() == old(self).input(),
                start.with_variables(vars@).fits(),
                self.names() == start.with_variables(vars@.take(i as int)),
                sierra_vars@ == self.names().lookup(vars@.take(i as int)),
            decreases vars@.len() - i,
        {
            let ghost before = self.names();
            let ghost done = vars@.take(i as int);
            let ghost more = vars@.take(i + 1);
            proof {
                assert(more.drop_last() == done);
                assert(more + vars@.skip(i + 1) == vars@);
                names::lemma_with_variables_split(start, more, vars@.skip(i + 1));
                names::lemma_with_variables(start.with_variables(more), vars@.skip(i + 1));
                names::lemma_with_variables(start, done);
                names::lemma_with_variable(before, SierraGenVar::LoweringVar(vars@[i as int]));
            }
            sierra_vars.push(self.get_sierra_variable(SierraGenVar::LoweringVar(vars[i])));
            proof {
                names::lemma_lookup_extends(before, self.names(), done);
                assert forall|j: int| 0 <= j < done.len() implies #[trigger] self.names().lookup(
                    more,
                )[j] == before.lookup(done)[j] by {
                    assert(self.names().lookup(done)[j] == before.lookup(done)[j]);
                    assert(done[j] == more[j]);
                }
                assert(sierra_vars@ =~= self.names().lookup(more));
            }
            i = i + 1;
        }
        proof {
            assert(vars@.take(vars@.len() as int) == vars@);
        }
        sierra_vars
    }

    /// Returns the label of a block. Gives it one if it has none.
    pub fn block_label(&mut self, block_id: BlockId) -> (label: LabelId)
        requires
            old(self).wf(),
            old(self).names().with_block_label(block_id).fits(),
        ensures
            final(self).wf(),
            final(self).input() == old(self).input(),
            label == old(self).names().block_label(block_id),
            final(self).names() == old(self).names().with_block_label(block_id),
    {
        proof {
            names::lemma_with_block_label(self.names(), block_id);
            names::lemma_extends_wf(self.names(), self.names().with_block_label(block_id));
        }
        match self.block_labels.get(block_id) {
            Some(label) => *label,
            None => {
                let label = LabelId(self.next_label);
                self.next_label = self.next_label + 1;
                self.block_labels.insert(block_id, label);
                label
            },
        }
    }

    /// Returns a label that was not given before.
    pub fn new_label(&mut self) -> (label: LabelId)
        requires
            old(self).wf(),
            old(self).names().with_fresh_labels(1).fits(),
        ensures
            final(self).wf(),
            final(self).input() == old(self).input(),
            label == old(self).names().label_ahead(0),
            final(self).names() == old(self).names().with_fresh_labels(1),
    {
        let label = LabelId(self.next_label);
        self.next_label = self.next_label + 1;
        proof {
            names::lemma_with_fresh_labels(old(self).names(), 1);
            names::lemma_extends_wf(old(self).names(), self.names());
        }
        label
    }

    /// Returns the Sierra type of a variable.
    pub fn get_variable_sierra_type(&self, var: SierraGenVar) -> (ty: Maybe<ConcreteTypeId>)
        requires
            self.input().is_var(var),
        ensures
            ty == self.input().sierra_type(var),
    {
        match var {
            SierraGenVar::LoweringVar(id) => self.input.lowered.variables[id.0].sierra_type,
            SierraGenVar::UninitializedLocal(id) => {
                self.input.lowered.variables[id.0].uninitialized_sierra_type
            },
        }
    }

    /// Returns the type of a variable.
    pub fn get_var_type(&self, var: VariableId) -> (ty: TypeId)
        requires
            lowering::is_variable(var, self.input().variable_count()),
        ensures
            ty == self.input().var_type(var),
    {
        self.input.lowered.variables[var.0].ty
    }

    /// Returns a block of the function.
    pub fn get_lowered_block(&self, block_id: BlockId) -> (block: &'a FlatBlock)
        requires
            block_id.0 < self.input().lowered.blocks@.len(),
        ensures
            *block == self.input().lowered.blocks@[block_id.0 as int],
    {
        &self.input.lowered.blocks[block_id.0]
    }

    /// Tells whether the use is the last one of its variable.
    pub fn is_last_use(&self, use_location: &UseLocation) -> (last: bool)
        ensures
            last == self.input().last_use(*use_location),
    {
        self.input.lifetime.last_use.contains_key(*use_location)
    }

    /// Returns the variables to drop at each place.
    pub fn get_drops(&self) -> (drops: &'a OrderedMap<DropLocation, Vec<SierraGenVar>>)
        ensures
            *drops == self.input().lifetime.drops,
    {
        &self.input.lifetime.drops
    }

    /// Returns what is known of the types of the program.
    pub fn get_db(&self) -> (db: &'a SierraGenDb)
        ensures
            *db == *self.input().db,
    {
        self.input.db
    }
}

} // verus!
