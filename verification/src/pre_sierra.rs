//! Sierra statements before labels are resolved and pushes to the stack are made explicit.

use vstd::prelude::*;

use crate::libfunc::{ConcreteTypeId, LibfuncId};

verus! {

/// A variable of the generated code.
#[derive(Clone, Copy, Debug, PartialEq, Eq, Structural)]
pub struct VarId(pub u64);

/// A label of the generated code.
#[derive(Clone, Copy, Debug, PartialEq, Eq, Structural)]
pub struct LabelId(pub u64);

/// Where a branch goes.
#[derive(Clone, Copy, Debug, PartialEq, Eq, Structural)]
pub enum GenBranchTarget {
    /// To the next statement.
    Fallthrough,
    /// To a label.
    Statement(LabelId),
}

/// A branch of an invocation.
#[derive(Debug, PartialEq, Eq)]
pub struct GenBranchInfo {
    pub target: GenBranchTarget,
    /// The variables that the invocation defines on this branch.
    pub results: Vec<VarId>,
}

/// An invocation of a libfunc.
#[derive(Debug, PartialEq, Eq)]
pub struct GenInvocation {
    pub libfunc_id: LibfuncId,
    pub args: Vec<VarId>,
    pub branches: Vec<GenBranchInfo>,
}

/// A Sierra statement.
#[derive(Debug, PartialEq, Eq)]
pub enum GenStatement {
    Invocation(GenInvocation),
    Return(Vec<VarId>),
}

/// The place of a label.
#[derive(Clone, Copy, Debug, PartialEq, Eq, Structural)]
pub struct Label {
    pub id: LabelId,
}

/// A value to push on the top of the stack.
#[derive(Clone, Copy, Debug, PartialEq, Eq, Structural)]
pub struct PushValue {
    /// The variable that holds the value.
    pub var: VarId,
    /// The variable that holds the value once it is on the stack.
    pub var_on_stack: VarId,
    pub ty: ConcreteTypeId,
    /// Whether the value is copied, so that `var` stays usable.
    pub dup: bool,
}

/// A statement of the generated code.
#[derive(Debug, PartialEq, Eq)]
pub enum Statement {
    Sierra(GenStatement),
    Label(Label),
    /// Pushes the values, in this order.
    PushValues(Vec<PushValue>),
}

/// A branch, with its results as a sequence.
pub struct BranchView {
    pub target: GenBranchTarget,
    pub results: Seq<VarId>,
}

/// A statement, with its lists as sequences.
pub enum StatementView {
    Invocation { libfunc_id: LibfuncId, args: Seq<VarId>, branches: Seq<BranchView> },
    Return(Seq<VarId>),
    Label(LabelId),
    PushValues(Seq<PushValue>),
}

impl View for GenBranchInfo {
    type V = BranchView;

    open spec fn view(&self) -> BranchView {
        BranchView { target: self.target, results: self.results@ }
    }
}

/// The branches as a sequence.
pub open spec fn branch_views(branches: Seq<GenBranchInfo>) -> Seq<BranchView> {
    Seq::new(branches.len(), |i: int| branches[i]@)
}

impl View for Statement {
    type V = StatementView;

    open spec fn view(&self) -> StatementView {
        match self {
            Statement::Sierra(GenStatement::Invocation(invocation)) => StatementView::Invocation {
                libfunc_id: invocation.libfunc_id,
                args: invocation.args@,
                branches: branch_views(invocation.branches@),
            },
            Statement::Sierra(GenStatement::Return(vars)) => StatementView::Return(vars@),
            Statement::Label(label) => StatementView::Label(label.id),
            Statement::PushValues(values) => StatementView::PushValues(values@),
        }
    }
}

/// The code that a list of statements holds.
pub open spec fn code(statements: Seq<Statement>) -> Seq<StatementView> {
    Seq::new(statements.len(), |i: int| statements[i]@)
}

/// One more statement is one more piece of code.
pub proof fn lemma_code_push(statements: Seq<Statement>, statement: Statement)
    ensures
        code(statements.push(statement)) == code(statements).push(statement@),
{
    assert(code(statements.push(statement)) =~= code(statements).push(statement@));
}

/// The code of two lists, one after the other.
pub proof fn lemma_code_append(first: Seq<Statement>, second: Seq<Statement>)
    ensures
        code(first + second) == code(first) + code(second),
{
    assert(code(first + second) =~= code(first) + code(second));
}

/// An invocation of a libfunc that goes on with the next statement.
pub open spec fn simple(
    libfunc_id: LibfuncId,
    inputs: Seq<VarId>,
    outputs: Seq<VarId>,
) -> StatementView {
    StatementView::Invocation {
        libfunc_id,
        args: inputs,
        branches: seq![BranchView { target: GenBranchTarget::Fallthrough, results: outputs }],
    }
}

/// A jump to a label.
pub open spec fn jump(label: LabelId) -> StatementView {
    StatementView::Invocation {
        libfunc_id: LibfuncId::Jump,
        args: Seq::empty(),
        branches: seq![
            BranchView { target: GenBranchTarget::Statement(label), results: Seq::empty() },
        ],
    }
}

/// A list of no variable.
pub fn no_variable() -> (vars: Vec<VarId>)
    ensures
        vars@ == Seq::<VarId>::empty(),
{
    Vec::new()
}

/// A list of one variable.
pub fn one_variable(var: VarId) -> (vars: Vec<VarId>)
    ensures
        vars@ == seq![var],
{
    let mut vars: Vec<VarId> = Vec::new();
    vars.push(var);
    vars
}

/// A list of two variables.
pub fn two_variables(first: VarId, second: VarId) -> (vars: Vec<VarId>)
    ensures
        vars@ == seq![first, second],
{
    let mut vars: Vec<VarId> = Vec::new();
    vars.push(first);
    vars.push(second);
    vars
}

/// Makes an invocation of a libfunc that goes on with the next statement.
pub fn simple_statement(
    libfunc_id: LibfuncId,
    inputs: Vec<VarId>,
    outputs: Vec<VarId>,
) -> (statement: Statement)
    ensures
        statement@ == simple(libfunc_id, inputs@, outputs@),
{
    let mut branches: Vec<GenBranchInfo> = Vec::new();
    branches.push(GenBranchInfo { target: GenBranchTarget::Fallthrough, results: outputs });
    let statement = Statement::Sierra(
        GenStatement::Invocation(GenInvocation { libfunc_id, args: inputs, branches }),
    );
    assert(branch_views(branches@) == seq![
        BranchView { target: GenBranchTarget::Fallthrough, results: outputs@ },
    ]);
    statement
}

/// Makes a jump to a label.
pub fn jump_statement(label: LabelId) -> (statement: Statement)
    ensures
        statement@ == jump(label),
{
    let mut branches: Vec<GenBranchInfo> = Vec::new();
    branches.push(
        GenBranchInfo { target: GenBranchTarget::Statement(label), results: Vec::new() },
    );
    let statement = Statement::Sierra(
        GenStatement::Invocation(
            GenInvocation { libfunc_id: LibfuncId::Jump, args: Vec::new(), branches },
        ),
    );
    assert(branch_views(branches@) == seq![
        BranchView { target: GenBranchTarget::Statement(label), results: Seq::empty() },
    ]);
    statement
}

/// Makes a return from the function.
pub fn return_statement(vars: Vec<VarId>) -> (statement: Statement)
    ensures
        statement@ == StatementView::Return(vars@),
{
    Statement::Sierra(GenStatement::Return(vars))
}

/// Makes the place of a label.
pub fn label_statement(id: LabelId) -> (statement: Statement)
    ensures
        statement@ == StatementView::Label(id),
{
    Statement::Label(Label { id })
}

} // verus!
