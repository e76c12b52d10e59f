//! The control-flow-graph IR: functions of blocks with parameters,
//! instructions and terminators.
use vstd::prelude::*;

use crate::sig::{copy_types, Signature};
use crate::types::{Op, Type, Value};

verus! {

/// Identifier of a block or of a value.
pub type Id = u32;

/// A typed value parameter of a function or a block.
#[derive(Clone, Copy, Debug, PartialEq, Eq, Structural)]
pub struct Param {
    pub id: Id,
    pub ty: Type,
}

/// The computation of an instruction.
#[derive(Clone, Debug, PartialEq, Eq)]
pub enum Expr {
    Call { function: String, args: Vec<Id> },
    Const { value: Value },
    Apply { op: Op, args: Vec<Id> },
}

/// An instruction defines the value `id` of type `ty`.
#[derive(Clone, Debug, PartialEq, Eq)]
pub struct Instruction {
    pub id: Id,
    pub ty: Type,
    pub expr: Expr,
}

/// A control transfer to `block`, binding its parameters to `args`.
#[derive(Clone, Debug, PartialEq, Eq)]
pub struct Edge {
    pub block: Id,
    pub args: Vec<Id>,
}

/// How a block ends.
#[derive(Clone, Debug, PartialEq, Eq)]
pub enum Terminator {
    Return { value: Id },
    Jump { edge: Edge },
    Branch { condition: Id, if_true: Edge, if_false: Edge },
}

/// A basic block.
#[derive(Clone, Debug, PartialEq, Eq)]
pub struct Block {
    pub id: Id,
    pub parameters: Vec<Param>,
    pub instructions: Vec<Instruction>,
    pub terminator: Terminator,
}

/// A function: parameters, return type, entry block and blocks. Callees
/// are the signatures of the functions it calls, sorted by name.
#[derive(Clone, Debug, PartialEq, Eq)]
pub struct Function {
    pub callees: Vec<(String, Signature)>,
    pub schema_version: u32,
    pub parameters: Vec<Param>,
    pub return_type: Type,
    pub entry: Id,
    pub blocks: Vec<Block>,
}

// Mathematical models of the IR.
pub enum ExprM {
    Call { function: Seq<char>, args: Seq<Id> },
    Const { value: Value },
    Apply { op: Op, args: Seq<Id> },
}

pub struct InstructionM {
    pub id: Id,
    pub ty: Type,
    pub expr: ExprM,
}

pub struct EdgeM {
    pub block: Id,
    pub args: Seq<Id>,
}

pub enum TerminatorM {
    Return { value: Id },
    Jump { edge: EdgeM },
    Branch { condition: Id, if_true: EdgeM, if_false: EdgeM },
}

pub struct BlockM {
    pub id: Id,
    pub parameters: Seq<Param>,
    pub instructions: Seq<InstructionM>,
    pub terminator: TerminatorM,
}

pub struct FunctionM {
    pub callees: Seq<(Seq<char>, (Seq<Type>, Type))>,
    pub schema_version: u32,
    pub parameters: Seq<Param>,
    pub return_type: Type,
    pub entry: Id,
    pub blocks: Seq<BlockM>,
}

impl View for Expr {
    type V = ExprM;

    open spec fn view(&self) -> ExprM {
        match self {
            Expr::Call { function, args } => ExprM::Call { function: function@, args: args@ },
            Expr::Const { value } => ExprM::Const { value: *value },
            Expr::Apply { op, args } => ExprM::Apply { op: *op, args: args@ },
        }
    }
}

impl View for Instruction {
    type V = InstructionM;

    open spec fn view(&self) -> InstructionM {
        InstructionM { id: self.id, ty: self.ty, expr: self.expr@ }
    }
}

impl View for Edge {
    type V = EdgeM;

    open spec fn view(&self) -> EdgeM {
        EdgeM { block: self.block, args: self.args@ }
    }
}

impl View for Terminator {
    type V = TerminatorM;

    open spec fn view(&self) -> TerminatorM {
        match self {
            Terminator::Return { value } => TerminatorM::Return { value: *value },
            Terminator::Jump { edge } => TerminatorM::Jump { edge: edge@ },
            Terminator::Branch { condition, if_true, if_false } => TerminatorM::Branch {
                condition: *condition,
                if_true: if_true@,
                if_false: if_false@,
            },
        }
    }
}

impl View for Block {
    type V = BlockM;

    open spec fn view(&self) -> BlockM {
        BlockM {
            id: self.id,
            parameters: self.parameters@,
            instructions: self.instructions@.map_values(|i: Instruction| i@),
            terminator: self.terminator@,
        }
    }
}

pub open spec fn callee_view(c: (String, Signature)) -> (Seq<char>, (Seq<Type>, Type)) {
    (c.0@, c.1.view_pair())
}

impl View for Function {
    type V = FunctionM;

    open spec fn view(&self) -> FunctionM {
        FunctionM {
            callees: self.callees@.map_values(|c: (String, Signature)| callee_view(c)),
            schema_version: self.schema_version,
            parameters: self.parameters@,
            return_type: self.return_type,
            entry: self.entry,
            blocks: self.blocks@.map_values(|b: Block| b@),
        }
    }
}

impl TerminatorM {
    /// The outgoing edges, in order.
    pub open spec fn edges(self) -> Seq<EdgeM> {
        match self {
            TerminatorM::Return { .. } => seq![],
            TerminatorM::Jump { edge } => seq![edge],
            TerminatorM::Branch { if_true, if_false, .. } => seq![if_true, if_false],
        }
    }
}

impl FunctionM {
    /// The argument types of the function.
    pub open spec fn arg_types(self) -> Seq<Type> {
        self.parameters.map_values(|p: Param| p.ty)
    }
}

/// A copy of a list of identifiers.
pub fn copy_ids(a: &[Id]) -> (r: Vec<Id>)
    ensures
        r@ == a@,
{
    let mut out: Vec<Id> = Vec::new();
    let mut i: usize = 0;
    while i < a.len()
        invariant
            0 <= i <= a@.len(),
            out@ == a@.subrange(0, i as int),
        decreases a@.len() - i,
    {
        out.push(a[i]);
        i += 1;
        assert(a@.subrange(0, i as int) == a@.subrange(0, i - 1 as int).push(a@[i - 1]));
    }
    assert(a@.subrange(0, a@.len() as int) == a@);
    out
}

/// A copy of a list of parameters.
pub fn copy_params(a: &[Param]) -> (r: Vec<Param>)
    ensures
        r@ == a@,
{
    let mut out: Vec<Param> = Vec::new();
    let mut i: usize = 0;
    while i < a.len()
        invariant
            0 <= i <= a@.len(),
            out@ == a@.subrange(0, i as int),
        decreases a@.len() - i,
    {
        out.push(a[i]);
        i += 1;
        assert(a@.subrange(0, i as int) == a@.subrange(0, i - 1 as int).push(a@[i - 1]));
    }
    assert(a@.subrange(0, a@.len() as int) == a@);
    out
}

impl Expr {
    /// A copy of the expression.
    pub fn copy(&self) -> (r: Expr)
        ensures
            r@ == self@,
    {
        match self {
            Expr::Call { function, args } => Expr::Call {
                function: function.clone(),
                args: copy_ids(args),
            },
            Expr::Const { value } => Expr::Const { value: *value },
            Expr::Apply { op, args } => Expr::Apply { op: *op, args: copy_ids(args) },
        }
    }
}

impl Instruction {
    /// A copy of the instruction.
    pub fn copy(&self) -> (r: Instruction)
        ensures
            r@ == self@,
    {
        Instruction { id: self.id, ty: self.ty, expr: self.expr.copy() }
    }
}

impl Edge {
    /// A copy of the edge.
    pub fn copy(&self) -> (r: Edge)
        ensures
            r@ == self@,
    {
        Edge { block: self.block, args: copy_ids(&self.args) }
    }
}

impl Terminator {
    /// A copy of the terminator.
    pub fn copy(&self) -> (r: Terminator)
        ensures
            r@ == self@,
    {
        match self {
            Terminator::Return { value } => Terminator::Return { value: *value },
            Terminator::Jump { edge } => Terminator::Jump { edge: edge.copy() },
            Terminator::Branch { condition, if_true, if_false } => Terminator::Branch {
                condition: *condition,
                if_true: if_true.copy(),
                if_false: if_false.copy(),
            },
        }
    }

    /// The outgoing edges, in order: none for a return, the target of a
    /// jump, the true then the false target of a branch.
    pub fn edges(&self) -> (r: Vec<&Edge>)
        ensures
            r@.map_values(|e: &Edge| e@) == self@.edges(),
    {
        let r = match self {
            Terminator::Return { .. } => Vec::new(),
            Terminator::Jump { edge } => vec![edge],
            Terminator::Branch { if_true, if_false, .. } => vec![if_true, if_false],
        };
        assert(r@.map_values(|e: &Edge| e@) =~= self@.edges());
        r
    }
}

/// A copy of a list of instructions.
pub fn copy_instructions(a: &[Instruction]) -> (r: Vec<Instruction>)
    ensures
        r@.map_values(|i: Instruction| i@) == a@.map_values(|i: Instruction| i@),
{
    let mut out: Vec<Instruction> = Vec::new();
    let mut i: usize = 0;
    while i < a.len()
        invariant
            0 <= i <= a@.len(),
            out@.len() == i,
            forall|j: int| 0 <= j < i ==> out@[j]@ == a@[j]@,
        decreases a@.len() - i,
    {
        out.push(a[i].copy());
        i += 1;
    }
    assert(out@.map_values(|x: Instruction| x@) =~= a@.map_values(|x: Instruction| x@));
    out
}

impl Block {
    /// A copy of the block.
    pub fn copy(&self) -> (r: Block)
        ensures
            r@ == self@,
    {
        Block {
            id: self.id,
            parameters: copy_params(&self.parameters),
            instructions: copy_instructions(&self.instructions),
            terminator: self.terminator.copy(),
        }
    }
}

/// A copy of a list of callee signatures.
pub fn copy_callees(a: &[(String, Signature)]) -> (r: Vec<(String, Signature)>)
    ensures
        r@.map_values(|c: (String, Signature)| callee_view(c)) == a@.map_values(
            |c: (String, Signature)| callee_view(c),
        ),
{
    let mut out: Vec<(String, Signature)> = Vec::new();
    let mut i: usize = 0;
    while i < a.len()
        invariant
            0 <= i <= a@.len(),
            out@.len() == i,
            forall|j: int| 0 <= j < i ==> callee_view(out@[j]) == callee_view(a@[j]),
        decreases a@.len() - i,
    {
        let (name, sg) = &a[i];
        out.push((name.clone(), sg.copy()));
        i += 1;
    }
    assert(out@.map_values(|x: (String, Signature)| callee_view(x)) =~= a@.map_values(|x: (String, Signature)| callee_view(x)));
    out
}

/// A copy of a list of blocks.
pub fn copy_blocks(a: &[Block]) -> (r: Vec<Block>)
    ensures
        r@.map_values(|b: Block| b@) == a@.map_values(|b: Block| b@),
{
    let mut out: Vec<Block> = Vec::new();
    let mut i: usize = 0;
    while i < a.len()
        invariant
            0 <= i <= a@.len(),
            out@.len() == i,
            forall|j: int| 0 <= j < i ==> out@[j]@ == a@[j]@,
        decreases a@.len() - i,
    {
        out.push(a[i].copy());
        i += 1;
    }
    assert(out@.map_values(|x: Block| x@) =~= a@.map_values(|x: Block| x@));
    out
}

impl Function {
    /// A copy of the function.
    pub fn copy(&self) -> (r: Function)
        ensures
            r@ == self@,
    {
        Function {
            callees: copy_callees(&self.callees),
            schema_version: self.schema_version,
            parameters: copy_params(&self.parameters),
            return_type: self.return_type,
            entry: self.entry,
            blocks: copy_blocks(&self.blocks),
        }
    }

    /// The function's signature: its parameter types and return type.
    pub fn signature(&self) -> (r: Signature)
        ensures
            r.arguments@ == self@.arg_types(),
            r.return_type == self.return_type,
    {
        let mut args: Vec<Type> = Vec::new();
        let mut i: usize = 0;
        while i < self.parameters.len()
            invariant
                0 <= i <= self.parameters@.len(),
                args@ == self@.arg_types().subrange(0, i as int),
            decreases self.parameters@.len() - i,
        {
            args.push(self.parameters[i].ty);
            i += 1;
            assert(args@ =~= self@.arg_types().subrange(0, i as int));
        }
        assert(args@ =~= self@.arg_types());
        Signature { arguments: args, return_type: self.return_type }
    }
}


/// Equal identifier lists.
pub fn same_ids(a: &Vec<Id>, b: &Vec<Id>) -> (r: bool)
    ensures
        r == (a@ == b@),
{
    if a.len() != b.len() {
        return false;
    }
    let mut i: usize = 0;
    while i < a.len()
        invariant
            0 <= i <= a@.len(),
            a@.len() == b@.len(),
            forall|j: int| 0 <= j < i ==> a@[j] == b@[j],
        decreases a@.len() - i,
    {
        if a[i] != b[i] {
            return false;
        }
        i += 1;
    }
    assert(a@ =~= b@);
    true
}

/// Equal strings, by their characters.
fn same_text(a: &String, b: &String) -> (r: bool)
    ensures
        r == (a@ == b@),
{
    let x = crate::text::chars_of(a.as_str());
    let y = crate::text::chars_of(b.as_str());
    crate::text::chars_eq(&x, &y)
}

/// Equal expressions.
pub fn same_expr(a: &Expr, b: &Expr) -> (r: bool)
    ensures
        r == (a@ == b@),
{
    match (a, b) {
        (Expr::Call { function: f, args: x }, Expr::Call { function: g, args: y }) => same_text(f, g)
            && same_ids(x, y),
        (Expr::Const { value: v }, Expr::Const { value: w }) => *v == *w,
        (Expr::Apply { op: o, args: x }, Expr::Apply { op: p, args: y }) => *o == *p && same_ids(x, y),
        _ => false,
    }
}

/// Equal edges.
fn same_edge(a: &Edge, b: &Edge) -> (r: bool)
    ensures
        r == (a@ == b@),
{
    a.block == b.block && same_ids(&a.args, &b.args)
}

/// Equal terminators.
fn same_terminator(a: &Terminator, b: &Terminator) -> (r: bool)
    ensures
        r == (a@ == b@),
{
    match (a, b) {
        (Terminator::Return { value: v }, Terminator::Return { value: w }) => *v == *w,
        (Terminator::Jump { edge: e }, Terminator::Jump { edge: f }) => same_edge(e, f),
        (
            Terminator::Branch { condition: c, if_true: t, if_false: e },
            Terminator::Branch { condition: d, if_true: u, if_false: f },
        ) => *c == *d && same_edge(t, u) && same_edge(e, f),
        _ => false,
    }
}

/// Equal parameter lists.
fn same_params(a: &Vec<Param>, b: &Vec<Param>) -> (r: bool)
    ensures
        r == (a@ == b@),
{
    if a.len() != b.len() {
        return false;
    }
    let mut i: usize = 0;
    while i < a.len()
        invariant
            0 <= i <= a@.len(),
            a@.len() == b@.len(),
            forall|j: int| 0 <= j < i ==> a@[j] == b@[j],
        decreases a@.len() - i,
    {
        if a[i].id != b[i].id || a[i].ty != b[i].ty {
            return false;
        }
        i += 1;
    }
    assert(a@ =~= b@);
    true
}

/// Equal blocks.
fn same_block(a: &Block, b: &Block) -> (r: bool)
    ensures
        r == (a@ == b@),
{
    if a.id != b.id || !same_params(&a.parameters, &b.parameters) || !same_terminator(
        &a.terminator,
        &b.terminator,
    ) {
        return false;
    }
    if a.instructions.len() != b.instructions.len() {
        assert(a@.instructions.len() != b@.instructions.len());
        return false;
    }
    let mut i: usize = 0;
    while i < a.instructions.len()
        invariant
            0 <= i <= a.instructions@.len(),
            a.instructions@.len() == b.instructions@.len(),
            forall|j: int| 0 <= j < i ==> a.instructions@[j]@ == b.instructions@[j]@,
        decreases a.instructions@.len() - i,
    {
        let x = &a.instructions[i];
        let y = &b.instructions[i];
        if x.id != y.id || x.ty != y.ty || !same_expr(&x.expr, &y.expr) {
            assert(a@.instructions[i as int] != b@.instructions[i as int]);
            return false;
        }
        i += 1;
    }
    assert(a@.instructions =~= b@.instructions);
    true
}

/// Equal functions, by their models.
pub fn same_function(a: &Function, b: &Function) -> (r: bool)
    ensures
        r == (a@ == b@),
{
    if a.schema_version != b.schema_version || a.return_type != b.return_type || a.entry != b.entry
        || !same_params(&a.parameters, &b.parameters) {
        return false;
    }
    if a.blocks.len() != b.blocks.len() {
        assert(a@.blocks.len() != b@.blocks.len());
        return false;
    }
    if a.callees.len() != b.callees.len() {
        assert(a@.callees.len() != b@.callees.len());
        return false;
    }
    let mut i: usize = 0;
    while i < a.blocks.len()
        invariant
            0 <= i <= a.blocks@.len(),
            a.blocks@.len() == b.blocks@.len(),
            forall|j: int| 0 <= j < i ==> a.blocks@[j]@ == b.blocks@[j]@,
        decreases a.blocks@.len() - i,
    {
        if !same_block(&a.blocks[i], &b.blocks[i]) {
            assert(a@.blocks[i as int] != b@.blocks[i as int]);
            return false;
        }
        i += 1;
    }
    let mut c: usize = 0;
    while c < a.callees.len()
        invariant
            0 <= c <= a.callees@.len(),
            a.callees@.len() == b.callees@.len(),
            forall|j: int| 0 <= j < c ==> callee_view(a.callees@[j]) == callee_view(b.callees@[j]),
        decreases a.callees@.len() - c,
    {
        if !same_text(&a.callees[c].0, &b.callees[c].0) || !a.callees[c].1.same(&b.callees[c].1) {
            assert(a@.callees[c as int] != b@.callees[c as int]);
            return false;
        }
        c += 1;
    }
    assert(a@.blocks =~= b@.blocks);
    assert(a@.callees =~= b@.callees);
    true
}

} // verus!
