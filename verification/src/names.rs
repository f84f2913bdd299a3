//! The names that the generated code gives: which Sierra variable stands for which lowered
//! variable, which label stands for which block, and which of both were not given yet.

use vstd::prelude::*;

use crate::lifetime::SierraGenVar;
use crate::lowering::{BlockId, VariableId};
use crate::pre_sierra::{LabelId, VarId};

verus! {

/// The names given so far.
pub struct Names {
    /// The Sierra variable of each variable that has one.
    pub variables: Map<SierraGenVar, VarId>,
    /// The label of each block that has one.
    pub block_labels: Map<BlockId, LabelId>,
    /// The number of Sierra variables given, which is the number of the next one.
    pub next_variable: nat,
    /// The number of labels given, which is the number of the next one.
    pub next_label: nat,
}

impl Names {
    /// No name was given.
    pub open spec fn initial() -> Names {
        Names {
            variables: Map::empty(),
            block_labels: Map::empty(),
            next_variable: 0,
            next_label: 0,
        }
    }

    /// The counts of names are machine integers.
    pub open spec fn fits(self) -> bool {
        self.next_variable <= u64::MAX && self.next_label <= u64::MAX
    }

    /// Different variables have different Sierra variables, different blocks have different
    /// labels, and no name is still to be given.
    pub open spec fn wf(self) -> bool {
        &&& forall|v: SierraGenVar| #[trigger]
            self.variables.contains_key(v) ==> self.variables[v].0 < self.next_variable
        &&& forall|v: SierraGenVar, w: SierraGenVar|
            self.variables.contains_key(v) && self.variables.contains_key(w) && v != w
                ==> #[trigger] self.variables[v] != #[trigger] self.variables[w]
        &&& forall|b: BlockId| #[trigger]
            self.block_labels.contains_key(b) ==> self.block_labels[b].0 < self.next_label
        &&& forall|b: BlockId, c: BlockId|
            self.block_labels.contains_key(b) && self.block_labels.contains_key(c) && b != c
                ==> #[trigger] self.block_labels[b] != #[trigger] self.block_labels[c]
    }

    /// The Sierra variable that comes next.
    pub open spec fn fresh_variable(self) -> VarId {
        VarId(self.next_variable as u64)
    }

    /// The names after a Sierra variable was given to nothing in particular.
    pub open spec fn with_fresh_variable(self) -> Names {
        Names { next_variable: self.next_variable + 1, ..self }
    }

    /// The Sierra variable of a variable: the one it has, or else the next one.
    pub open spec fn variable(self, var: SierraGenVar) -> VarId {
        if self.variables.contains_key(var) {
            self.variables[var]
        } else {
            self.fresh_variable()
        }
    }

    /// The names after the variable got a Sierra variable, unless it had one.
    pub open spec fn with_variable(self, var: SierraGenVar) -> Names {
        if self.variables.contains_key(var) {
            self
        } else {
            Names {
                variables: self.variables.insert(var, self.fresh_variable()),
                ..self.with_fresh_variable()
            }
        }
    }

    /// The names after each of the variables, in this order, got a Sierra variable, unless it
    /// had one.
    pub open spec fn with_variables(self, vars: Seq<VariableId>) -> Names
        decreases vars.len(),
    {
        if vars.len() == 0 {
            self
        } else {
            self.with_variables(vars.drop_last()).with_variable(
                SierraGenVar::LoweringVar(vars.last()),
            )
        }
    }

    /// The Sierra variables that the variables have.
    pub open spec fn lookup(self, vars: Seq<VariableId>) -> Seq<VarId> {
        Seq::new(vars.len(), |i: int| self.variables[SierraGenVar::LoweringVar(vars[i])])
    }

    /// The label that comes in `ahead` labels.
    pub open spec fn label_ahead(self, ahead: nat) -> LabelId {
        LabelId((self.next_label + ahead) as u64)
    }

    /// The names after that many labels were given to nothing in particular.
    pub open spec fn with_fresh_labels(self, count: nat) -> Names {
        Names { next_label: self.next_label + count, ..self }
    }

    /// The label of a block: the one it has, or else the next one.
    pub open spec fn block_label(self, block: BlockId) -> LabelId {
        if self.block_labels.contains_key(block) {
            self.block_labels[block]
        } else {
            self.label_ahead(0)
        }
    }

    /// The names after the block got a label, unless it had one.
    pub open spec fn with_block_label(self, block: BlockId) -> Names {
        if self.block_labels.contains_key(block) {
            self
        } else {
            Names {
                block_labels: self.block_labels.insert(block, self.label_ahead(0)),
                ..self.with_fresh_labels(1)
            }
        }
    }

    /// What had a name in the earlier names keeps it, what got one since then got a new one, and
    /// different things still have different names.
    #[verifier::opaque]
    pub open spec fn keeps(self, earlier: Names) -> bool {
        &&& forall|v: SierraGenVar| #[trigger]
            earlier.variables.contains_key(v) ==> self.variables.contains_key(v)
                && self.variables[v] == earlier.variables[v]
        &&& forall|b: BlockId| #[trigger]
            earlier.block_labels.contains_key(b) ==> self.block_labels.contains_key(b)
                && self.block_labels[b] == earlier.block_labels[b]
        &&& self.fits() ==> {
            &&& forall|v: SierraGenVar| #[trigger]
                self.variables.contains_key(v) && !earlier.variables.contains_key(v)
                    ==> earlier.next_variable <= self.variables[v].0 < self.next_variable
            &&& forall|b: BlockId| #[trigger]
                self.block_labels.contains_key(b) && !earlier.block_labels.contains_key(b)
                    ==> earlier.next_label <= self.block_labels[b].0 < self.next_label
            &&& earlier.wf() ==> self.wf()
        }
    }

    /// These names came from the earlier ones by giving more.
    pub open spec fn extends(self, earlier: Names) -> bool {
        &&& earlier.next_variable <= self.next_variable
        &&& earlier.next_label <= self.next_label
        &&& self.keeps(earlier)
    }
}

/// Names extend those which the names that they extend extend.
pub proof fn lemma_extends_transitive(a: Names, b: Names, c: Names)
    requires
        b.extends(a),
        c.extends(b),
    ensures
        c.extends(a),
{
    reveal(Names::keeps);
    if c.fits() {
        assert forall|v: SierraGenVar| #[trigger]
            c.variables.contains_key(v) && !a.variables.contains_key(v) implies a.next_variable
            <= c.variables[v].0 < c.next_variable by {
            if b.variables.contains_key(v) {
                assert(c.variables[v] == b.variables[v]);
            }
        }
        assert forall|k: BlockId| #[trigger]
            c.block_labels.contains_key(k) && !a.block_labels.contains_key(k) implies a.next_label
            <= c.block_labels[k].0 < c.next_label by {
            if b.block_labels.contains_key(k) {
                assert(c.block_labels[k] == b.block_labels[k]);
            }
        }
    }
}

/// Names extend themselves.
pub broadcast proof fn lemma_extends_reflexive(names: Names)
    ensures
        #[trigger] names.extends(names),
{
    reveal(Names::keeps);
}

/// What had a Sierra variable keeps it.
pub proof fn lemma_extends_variable(earlier: Names, later: Names, var: SierraGenVar)
    requires
        later.extends(earlier),
        earlier.variables.contains_key(var),
    ensures
        later.variables.contains_key(var),
        later.variables[var] == earlier.variables[var],
{
    reveal(Names::keeps);
}

/// Names that extend well-formed ones are well formed.
pub proof fn lemma_extends_wf(earlier: Names, later: Names)
    requires
        later.extends(earlier),
        earlier.wf(),
        later.fits(),
    ensures
        later.wf(),
{
    reveal(Names::keeps);
}

/// Giving one Sierra variable to nothing in particular extends the names.
pub proof fn lemma_with_fresh_variable(names: Names)
    ensures
        names.with_fresh_variable().extends(names),
{
    reveal(Names::keeps);
}

/// Giving labels to nothing in particular extends the names.
pub proof fn lemma_with_fresh_labels(names: Names, count: nat)
    ensures
        names.with_fresh_labels(count).extends(names),
{
    reveal(Names::keeps);
}

/// Giving a variable its Sierra variable extends the names, and the variable has it then.
pub proof fn lemma_with_variable(names: Names, var: SierraGenVar)
    ensures
        names.with_variable(var).extends(names),
        names.with_variable(var).variables.contains_key(var),
        names.with_variable(var).variables[var] == names.variable(var),
{
    reveal(Names::keeps);
}

/// Giving a block its label extends the names, and the block has it then.
pub proof fn lemma_with_block_label(names: Names, block: BlockId)
    ensures
        names.with_block_label(block).extends(names),
        names.with_block_label(block).block_labels.contains_key(block),
        names.with_block_label(block).block_labels[block] == names.block_label(block),
{
    reveal(Names::keeps);
}

/// Giving variables their Sierra variables extends the names, and all of them have one then.
pub proof fn lemma_with_variables(names: Names, vars: Seq<VariableId>)
    ensures
        names.with_variables(vars).extends(names),
        names.with_variables(vars).next_label == names.next_label,
        names.with_variables(vars).block_labels == names.block_labels,
        forall|i: int|
            0 <= i < vars.len() ==> names.with_variables(vars).variables.contains_key(
                SierraGenVar::LoweringVar(#[trigger] vars[i]),
            ),
    decreases vars.len(),
{
    reveal(Names::keeps);
    if vars.len() > 0 {
        let before = names.with_variables(vars.drop_last());
        lemma_with_variables(names, vars.drop_last());
        lemma_with_variable(before, SierraGenVar::LoweringVar(vars.last()));
        lemma_extends_transitive(names, before, names.with_variables(vars));
        assert forall|i: int| 0 <= i < vars.len() implies names.with_variables(
            vars,
        ).variables.contains_key(SierraGenVar::LoweringVar(#[trigger] vars[i])) by {
            if i < vars.len() - 1 {
                assert(vars.drop_last()[i] == vars[i]);
            }
        }
    }
}

/// Giving variables their Sierra variables can be done in two steps.
pub proof fn lemma_with_variables_split(names: Names, first: Seq<VariableId>, rest: Seq<VariableId>)
    ensures
        names.with_variables(first + rest) == names.with_variables(first).with_variables(rest),
    decreases rest.len(),
{
    if rest.len() == 0 {
        assert(first + rest == first);
    } else {
        assert((first + rest).drop_last() == first + rest.drop_last());
        lemma_with_variables_split(names, first, rest.drop_last());
    }
}

/// Variables keep their Sierra variables.
pub proof fn lemma_lookup_extends(earlier: Names, later: Names, vars: Seq<VariableId>)
    requires
        later.extends(earlier),
        forall|i: int|
            0 <= i < vars.len() ==> earlier.variables.contains_key(
                SierraGenVar::LoweringVar(#[trigger] vars[i]),
            ),
    ensures
        later.lookup(vars) == earlier.lookup(vars),
{
    reveal(Names::keeps);
    assert forall|i: int| 0 <= i < vars.len() implies #[trigger] later.lookup(vars)[i]
        == earlier.lookup(vars)[i] by {
        assert(earlier.variables.contains_key(SierraGenVar::LoweringVar(vars[i])));
    }
    assert(later.lookup(vars) =~= earlier.lookup(vars));
}

} // verus!
