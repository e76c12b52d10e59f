//! Reference semantics of the IR and the register-machine interpreter.
use vstd::prelude::*;

use crate::ir::{BlockM, EdgeM, Expr, ExprM, Function, FunctionM, Id, InstructionM, Param, Terminator, TerminatorM};
use crate::types::{spec_eval, Type, Value};

verus! {

/// How a run ends. The messages of the executable outcome are not part
/// of the model.
pub enum RunOutcome {
    Completed(Value),
    Timeout,
    Trap,
    Invalid,
}

/// The end of an execution: its outcome and the steps it took.
#[derive(Clone, Debug, PartialEq, Eq)]
pub enum Outcome {
    Completed(Value),
    Timeout(String),
    Invalid(String),
    Trap(String),
}

#[derive(Clone, Debug, PartialEq, Eq)]
pub struct Execution {
    pub outcome: Outcome,
    pub steps: u64,
}

/// The model of an outcome: its kind, with the value or the message.
pub enum OutcomeM {
    Completed(Value),
    Timeout(Seq<char>),
    Invalid(Seq<char>),
    Trap(Seq<char>),
}

/// The model of an execution.
pub struct ExecutionM {
    pub outcome: OutcomeM,
    pub steps: u64,
}

impl View for Outcome {
    type V = OutcomeM;

    open spec fn view(&self) -> OutcomeM {
        match self {
            Outcome::Completed(v) => OutcomeM::Completed(*v),
            Outcome::Timeout(m) => OutcomeM::Timeout(m@),
            Outcome::Invalid(m) => OutcomeM::Invalid(m@),
            Outcome::Trap(m) => OutcomeM::Trap(m@),
        }
    }
}

impl View for Execution {
    type V = ExecutionM;

    open spec fn view(&self) -> ExecutionM {
        ExecutionM { outcome: self.outcome@, steps: self.steps }
    }
}

/// Equal outcomes: the same kind with the same value or message.
pub fn same_outcome(a: &Outcome, b: &Outcome) -> (r: bool)
    ensures
        r == (a@ == b@),
{
    match (a, b) {
        (Outcome::Completed(x), Outcome::Completed(y)) => x.ty == y.ty && x.bits == y.bits,
        (Outcome::Timeout(x), Outcome::Timeout(y)) => same_message(x, y),
        (Outcome::Invalid(x), Outcome::Invalid(y)) => same_message(x, y),
        (Outcome::Trap(x), Outcome::Trap(y)) => same_message(x, y),
        _ => false,
    }
}

/// Equal executions: the same outcome after the same number of steps.
pub fn same_execution(a: &Execution, b: &Execution) -> (r: bool)
    ensures
        r == (a@ == b@),
{
    a.steps == b.steps && same_outcome(&a.outcome, &b.outcome)
}

fn same_message(a: &String, b: &String) -> (r: bool)
    ensures
        r == (a@ == b@),
{
    let x = crate::text::chars_of(a.as_str());
    let y = crate::text::chars_of(b.as_str());
    crate::text::chars_eq(&x, &y)
}

impl Outcome {
    pub open spec fn kind(self) -> RunOutcome {
        match self {
            Outcome::Completed(v) => RunOutcome::Completed(v),
            Outcome::Timeout(_) => RunOutcome::Timeout,
            Outcome::Invalid(_) => RunOutcome::Invalid,
            Outcome::Trap(_) => RunOutcome::Trap,
        }
    }
}

impl Execution {
    /// The execution as a model outcome and step count.
    pub open spec fn run_view(self) -> (RunOutcome, nat) {
        (self.outcome.kind(), self.steps as nat)
    }
}

/// Number of values defined by a sequence of blocks.
pub open spec fn block_values(bs: Seq<BlockM>) -> nat
    decreases bs.len(),
{
    if bs.len() == 0 {
        0
    } else {
        block_values(bs.drop_last()) + bs.last().parameters.len() + bs.last().instructions.len()
    }
}

/// The values of the first blocks are no more than those of all.
pub proof fn lemma_block_values_prefix(bs: Seq<BlockM>, k: int)
    requires
        0 <= k <= bs.len(),
    ensures
        block_values(bs.subrange(0, k)) <= block_values(bs),
    decreases bs.len(),
{
    if k < bs.len() {
        assert(bs.drop_last().subrange(0, k) =~= bs.subrange(0, k));
        lemma_block_values_prefix(bs.drop_last(), k);
    } else {
        assert(bs.subrange(0, k) =~= bs);
    }
}

/// Number of values (registers) of a function.
pub open spec fn reg_count(f: FunctionM) -> nat {
    f.parameters.len() + block_values(f.blocks)
}

pub open spec fn ids_below(ids: Seq<Id>, n: nat) -> bool {
    forall|i: int| 0 <= i < ids.len() ==> (#[trigger] ids[i]) < n
}

pub open spec fn params_below(ps: Seq<Param>, n: nat) -> bool {
    forall|i: int| 0 <= i < ps.len() ==> (#[trigger] ps[i]).id < n
}

pub open spec fn edge_dense(e: EdgeM, blocks: Seq<BlockM>, n: nat) -> bool {
    &&& e.block < blocks.len()
    &&& e.args.len() == blocks[e.block as int].parameters.len()
    &&& ids_below(e.args, n)
}

pub open spec fn inst_dense(x: InstructionM, n: nat, calls: bool) -> bool {
    &&& x.id < n
    &&& match x.expr {
        ExprM::Const { .. } => true,
        ExprM::Apply { op, args } => args.len() == op.spec_arity() && ids_below(args, n),
        ExprM::Call { args, .. } => calls && args.len() <= 4 && ids_below(args, n),
    }
}

pub open spec fn term_dense(t: TerminatorM, blocks: Seq<BlockM>, n: nat) -> bool {
    match t {
        TerminatorM::Return { value } => value < n,
        TerminatorM::Jump { edge } => edge_dense(edge, blocks, n),
        TerminatorM::Branch { condition, if_true, if_false } => condition < n && edge_dense(
            if_true,
            blocks,
            n,
        ) && edge_dense(if_false, blocks, n),
    }
}

pub open spec fn block_dense(b: BlockM, blocks: Seq<BlockM>, n: nat, calls: bool) -> bool {
    &&& params_below(b.parameters, n)
    &&& forall|i: int|
        0 <= i < b.instructions.len() ==> inst_dense(#[trigger] b.instructions[i], n, calls)
    &&& term_dense(b.terminator, blocks, n)
}

/// Every identifier of the function indexes its register file and every
/// edge targets a block by position with matching argument count; with
/// `calls` false there are no calls.
pub open spec fn dense(f: FunctionM, calls: bool) -> bool {
    let n = reg_count(f);
    &&& f.entry < f.blocks.len()
    &&& params_below(f.parameters, n)
    &&& forall|b: int|
        0 <= b < f.blocks.len() ==> block_dense(#[trigger] f.blocks[b], f.blocks, n, calls)
}

/// The values of the registers `ids`.
pub open spec fn read(regs: Seq<Value>, ids: Seq<Id>) -> Seq<Value> {
    ids.map_values(|a: Id| regs[a as int])
}

/// Assigns `vals[i]` to the register of `params[i]`, in order.
pub open spec fn bind(regs: Seq<Value>, params: Seq<Param>, vals: Seq<Value>) -> Seq<Value>
    decreases params.len(),
{
    if params.len() == 0 {
        regs
    } else {
        bind(regs, params.drop_last(), vals.subrange(0, params.len() - 1)).update(
            params.last().id as int,
            vals[params.len() - 1],
        )
    }
}

/// The run of a function from instruction `i` of block `b`, with the
/// given registers, after `steps` steps of a budget of `budget` steps.
/// Each instruction and each terminator takes one step.
pub open spec fn run(
    f: FunctionM,
    b: int,
    i: int,
    regs: Seq<Value>,
    steps: nat,
    budget: nat,
) -> (RunOutcome, nat)
    decreases budget - steps,
{
    if steps >= budget {
        (RunOutcome::Timeout, steps)
    } else {
        let blk = f.blocks[b];
        if 0 <= i < blk.instructions.len() {
            let x = blk.instructions[i];
            match x.expr {
                ExprM::Const { value } => run(
                    f,
                    b,
                    i + 1,
                    regs.update(x.id as int, value),
                    steps + 1,
                    budget,
                ),
                ExprM::Apply { op, args } => match spec_eval(op, read(regs, args)) {
                    None => (RunOutcome::Trap, steps + 1),
                    Some(v) => run(f, b, i + 1, regs.update(x.id as int, v), steps + 1, budget),
                },
                ExprM::Call { .. } => (RunOutcome::Invalid, steps),
            }
        } else {
            match blk.terminator {
                TerminatorM::Return { value } => (
                    RunOutcome::Completed(regs[value as int]),
                    steps + 1,
                ),
                TerminatorM::Jump { edge } => run(
                    f,
                    edge.block as int,
                    0,
                    bind(regs, f.blocks[edge.block as int].parameters, read(regs, edge.args)),
                    steps + 1,
                    budget,
                ),
                TerminatorM::Branch { condition, if_true, if_false } => {
                    let e = if regs[condition as int].bits != 0 {
                        if_true
                    } else {
                        if_false
                    };
                    run(
                        f,
                        e.block as int,
                        0,
                        bind(regs, f.blocks[e.block as int].parameters, read(regs, e.args)),
                        steps + 1,
                        budget,
                    )
                },
            }
        }
    }
}

/// A run that starts within its budget ends within it, and a run that
/// times out has used exactly the budget.
pub proof fn lemma_run_budget(f: FunctionM, b: int, i: int, regs: Seq<Value>, steps: nat, budget: nat)
    requires
        steps <= budget,
    ensures
        run(f, b, i, regs, steps, budget).1 <= budget,
        run(f, b, i, regs, steps, budget).0 is Timeout ==> run(f, b, i, regs, steps, budget).1 == budget,
    decreases budget - steps,
{
    if steps < budget {
        let blk = f.blocks[b];
        if 0 <= i < blk.instructions.len() {
            let x = blk.instructions[i];
            match x.expr {
                ExprM::Const { value } => {
                    lemma_run_budget(f, b, i + 1, regs.update(x.id as int, value), steps + 1, budget);
                },
                ExprM::Apply { op, args } => {
                    if let Some(v) = spec_eval(op, read(regs, args)) {
                        lemma_run_budget(f, b, i + 1, regs.update(x.id as int, v), steps + 1, budget);
                    }
                },
                ExprM::Call { .. } => {},
            }
        } else {
            match blk.terminator {
                TerminatorM::Return { .. } => {},
                TerminatorM::Jump { edge } => {
                    lemma_run_budget(
                        f,
                        edge.block as int,
                        0,
                        bind(regs, f.blocks[edge.block as int].parameters, read(regs, edge.args)),
                        steps + 1,
                        budget,
                    );
                },
                TerminatorM::Branch { condition, if_true, if_false } => {
                    let e = if regs[condition as int].bits != 0 {
                        if_true
                    } else {
                        if_false
                    };
                    lemma_run_budget(
                        f,
                        e.block as int,
                        0,
                        bind(regs, f.blocks[e.block as int].parameters, read(regs, e.args)),
                        steps + 1,
                        budget,
                    );
                },
            }
        }
    }
}

/// An execution takes at most its step budget, and one that times out
/// takes exactly the budget.
pub proof fn law_execute_within_budget(f: FunctionM, args: Seq<Value>, budget: nat)
    ensures
        spec_execute(f, args, budget).1 <= budget,
        spec_execute(f, args, budget).0 is Timeout ==> spec_execute(f, args, budget).1 == budget,
{
    if args_ok(f.parameters, args) {
        lemma_run_budget(f, f.entry as int, 0, bind(init_regs(reg_count(f)), f.parameters, args), 0, budget);
    }
}

/// The arguments match the parameters in count, type and width.
pub open spec fn args_ok(params: Seq<Param>, args: Seq<Value>) -> bool {
    &&& args.len() == params.len()
    &&& forall|i: int|
        0 <= i < args.len() ==> (#[trigger] args[i]).ty == params[i].ty && args[i].bits
            <= args[i].ty.spec_mask()
}

/// `n` registers holding `false`.
pub open spec fn init_regs(n: nat) -> Seq<Value> {
    Seq::new(n, |i: int| Value { ty: Type::Bool, bits: 0 })
}

/// The execution of a dense function on arguments with a step budget.
pub open spec fn spec_execute(f: FunctionM, args: Seq<Value>, budget: nat) -> (RunOutcome, nat) {
    if !args_ok(f.parameters, args) {
        (RunOutcome::Invalid, 0)
    } else {
        run(f, f.entry as int, 0, bind(init_regs(reg_count(f)), f.parameters, args), 0, budget)
    }
}

/// Assigns `vals[i]` to the register of `params[i]`, in order.
pub(crate) fn bind_from(values: &mut Vec<Value>, params: &[Param], vals: &[Value])
    requires
        vals@.len() >= params@.len(),
        params_below(params@, old(values)@.len()),
    ensures
        final(values)@ == bind(old(values)@, params@, vals@.subrange(0, params@.len() as int)),
        final(values)@.len() == old(values)@.len(),
{
    let mut j: usize = 0;
    while j < params.len()
        invariant
            0 <= j <= params@.len(),
            vals@.len() >= params@.len(),
            params_below(params@, old(values)@.len()),
            values@.len() == old(values)@.len(),
            values@ == bind(old(values)@, params@.subrange(0, j as int), vals@.subrange(0, j as int)),
        decreases params@.len() - j,
    {
        let p = params[j];
        assert(params@[j as int].id < old(values)@.len());
        values.set(p.id as usize, vals[j]);
        j += 1;
        proof {
            let ps = params@.subrange(0, j as int);
            let vs = vals@.subrange(0, j as int);
            assert(ps.drop_last() =~= params@.subrange(0, j - 1 as int));
            assert(vs.subrange(0, ps.len() - 1) =~= vals@.subrange(0, j - 1 as int));
            assert(ps.last() == p);
        }
    }
    assert(params@.subrange(0, params@.len() as int) =~= params@);
}


/// Copies the edge's arguments, then binds the target block's
/// parameters to them.
pub(crate) fn transfer(
    values: &mut Vec<Value>,
    edge_values: &mut Vec<Value>,
    function: &Function,
    edge: &crate::ir::Edge,
    Ghost(calls): Ghost<bool>,
)
    requires
        dense(function@, calls),
        old(values)@.len() == reg_count(function@),
        edge_dense(edge@, function@.blocks, reg_count(function@)),
        forall|b: int|
            0 <= b < function@.blocks.len() ==> (#[trigger] function@.blocks[b]).parameters.len()
                <= old(edge_values)@.len(),
    ensures
        final(values)@ == bind(
            old(values)@,
            function@.blocks[edge@.block as int].parameters,
            read(old(values)@, edge@.args),
        ),
        final(values)@.len() == old(values)@.len(),
        final(edge_values)@.len() == old(edge_values)@.len(),
{
    let ghost regs = values@;
    let ghost em = edge@;
    let cnt = edge.args.len();
    assert(function@.blocks[em.block as int].parameters.len() <= edge_values@.len());
    let mut j: usize = 0;
    while j < cnt
        invariant
            0 <= j <= cnt,
            cnt == em.args.len(),
            em == edge@,
            values@ == regs,
            regs.len() == reg_count(function@),
            ids_below(em.args, reg_count(function@)),
            cnt <= edge_values@.len(),
            edge_values@.len() == old(edge_values)@.len(),
            edge_values@.subrange(0, j as int) == read(regs, em.args).subrange(0, j as int),
        decreases cnt - j,
    {
        let id = edge.args[j];
        edge_values.set(j, values[id as usize]);
        j += 1;
        assert(edge_values@.subrange(0, j as int) =~= read(regs, em.args).subrange(0, j as int));
    }
    let target = edge.block as usize;
    let ps = &function.blocks[target].parameters;
    assert(block_dense(function@.blocks[target as int], function@.blocks, reg_count(function@), calls));
    bind_from(values, ps, edge_values);
    assert(edge_values@.subrange(0, cnt as int) =~= read(regs, em.args));
}

/// Executes one call-free instruction on the register file.
pub(crate) fn step_instruction(values: &mut Vec<Value>, x: &crate::ir::Instruction) -> (r: Result<(), String>)
    requires
        inst_dense(x@, old(values)@.len(), false),
    ensures
        final(values)@.len() == old(values)@.len(),
        match x@.expr {
            ExprM::Const { value } => r is Ok && final(values)@ == old(values)@.update(x.id as int, value),
            ExprM::Apply { op, args } => match spec_eval(op, read(old(values)@, args)) {
                None => r is Err,
                Some(v) => r is Ok && final(values)@ == old(values)@.update(x.id as int, v),
            },
            ExprM::Call { .. } => false,
        },
{
    let ghost regs = values@;
    match &x.expr {
        Expr::Call { .. } => {
            assert(false);
            Err("unsupported call".to_owned())
        },
        Expr::Const { value } => {
            values.set(x.id as usize, *value);
            Ok(())
        },
        Expr::Apply { op, args: ids } => {
            let cnt = ids.len();
            let zero = zero_value();
            let x0 = values[ids[0] as usize];
            let x1 = if cnt > 1 { values[ids[1] as usize] } else { zero };
            let x2 = if cnt > 2 { values[ids[2] as usize] } else { zero };
            assert(seq![x0, x1, x2].subrange(0, cnt as int) =~= read(regs, ids@));
            match op.apply(cnt, x0, x1, x2) {
                Ok(v) => {
                    values.set(x.id as usize, v);
                    Ok(())
                },
                Err(e) => Err(e),
            }
        },
    }
}

/// The zero register value.
pub(crate) fn zero_value() -> (r: Value)
    ensures
        r == (Value { ty: Type::Bool, bits: 0 }),
{
    Value { ty: Type::Bool, bits: 0 }
}

/// Reusable register file over a validated, normalized, call-free
/// function.
pub struct Evaluator {
    function: Function,
    values: Vec<Value>,
    edge_values: Vec<Value>,
}

impl Evaluator {
    /// The register file fits the function.
    pub closed spec fn wf(self) -> bool {
        &&& dense(self.function@, false)
        &&& self.values@.len() == reg_count(self.function@)
        &&& forall|b: int|
            0 <= b < self.function@.blocks.len() ==> (#[trigger] self.function@.blocks[b]).parameters.len()
                <= self.edge_values@.len()
    }

    /// The function the evaluator runs.
    pub closed spec fn model(self) -> FunctionM {
        self.function@
    }

    /// Number of registers of a function, when it fits in memory.
    pub(crate) fn count_registers(function: &Function) -> (r: Option<usize>)
        ensures
            r matches Some(n) ==> n == reg_count(function@),
            r is Some <==> reg_count(function@) <= usize::MAX,
    {
        let mut total: usize = function.parameters.len();
        let mut k: usize = 0;
        while k < function.blocks.len()
            invariant
                0 <= k <= function.blocks@.len(),
                total == function.parameters@.len() + block_values(function@.blocks.subrange(0, k as int)),
            decreases function.blocks@.len() - k,
        {
            let b = &function.blocks[k];
            let add = b.parameters.len();
            proof {
                let bs = function@.blocks.subrange(0, k + 1);
                assert(bs.drop_last() =~= function@.blocks.subrange(0, k as int));
                assert(bs.last() == function.blocks@[k as int]@);
                lemma_block_values_prefix(function@.blocks, k + 1);
            }
            if total > usize::MAX - add {
                return None;
            }
            let t1 = total + add;
            let add2 = b.instructions.len();
            if t1 > usize::MAX - add2 {
                return None;
            }
            total = t1 + add2;
            k += 1;
            proof {
                let bs = function@.blocks.subrange(0, k as int);
                assert(bs.drop_last() =~= function@.blocks.subrange(0, k - 1 as int));
                assert(bs.last() == function.blocks@[k - 1]@);
            }
        }
        assert(function@.blocks.subrange(0, function@.blocks.len() as int) =~= function@.blocks);
        Some(total)
    }

    /// Largest number of block parameters.
    pub(crate) fn max_block_params(function: &Function) -> (r: usize)
        ensures
            forall|b: int|
                0 <= b < function@.blocks.len() ==> (#[trigger] function@.blocks[b]).parameters.len() <= r,
    {
        let mut m: usize = 0;
        let mut k: usize = 0;
        while k < function.blocks.len()
            invariant
                0 <= k <= function.blocks@.len(),
                forall|b: int| 0 <= b < k ==> (#[trigger] function@.blocks[b]).parameters.len() <= m,
            decreases function.blocks@.len() - k,
        {
            if function.blocks[k].parameters.len() > m {
                m = function.blocks[k].parameters.len();
            }
            k += 1;
        }
        m
    }

    /// An evaluator for a dense call-free function.
    pub(crate) fn from_dense(function: Function) -> (r: Option<Evaluator>)
        requires
            dense(function@, false),
        ensures
            r matches Some(e) ==> e.model() == function@ && e.wf(),
            r is Some <==> reg_count(function@) <= usize::MAX,
    {
        let count = match Evaluator::count_registers(&function) {
            Some(n) => n,
            None => return None,
        };
        let max_edge = Evaluator::max_block_params(&function);
        let mut values: Vec<Value> = Vec::new();
        let mut k: usize = 0;
        while k < count
            invariant
                0 <= k <= count,
                values@.len() == k,
            decreases count - k,
        {
            values.push(zero_value());
            k += 1;
        }
        let mut edge_values: Vec<Value> = Vec::new();
        let mut k: usize = 0;
        while k < max_edge
            invariant
                0 <= k <= max_edge,
                edge_values@.len() == k,
            decreases max_edge - k,
        {
            edge_values.push(zero_value());
            k += 1;
        }
        Some(Evaluator { function, values, edge_values })
    }

    /// Runs the function on `args` for at most `budget` steps. Each
    /// instruction and each terminator takes one step.
    pub fn execute(&mut self, args: &[Value], budget: u64) -> (r: Execution)
        requires
            old(self).wf(),
        ensures
            r.run_view() == spec_execute(old(self).model(), args@, budget as nat),
            final(self).model() == old(self).model(),
            final(self).wf(),
            r.outcome matches Outcome::Timeout(m) ==> m@ == "step budget exhausted"@,
    {
        let ghost f = self.function@;
        if args.len() != self.function.parameters.len() {
            return Execution {
                outcome: Outcome::Invalid("argument count, type, or width mismatch".to_owned()),
                steps: 0,
            };
        }
        let mut a: usize = 0;
        while a < args.len()
            invariant
                0 <= a <= args@.len(),
                args@.len() == f.parameters.len(),
                f == self.function@,
                self.wf(),
                forall|j: int|
                    0 <= j < a ==> (#[trigger] args@[j]).ty == f.parameters[j].ty && args@[j].bits
                        <= args@[j].ty.spec_mask(),
            decreases args@.len() - a,
        {
            let v = args[a];
            if v.ty != self.function.parameters[a].ty || v.bits > v.ty.mask() {
                return Execution {
                    outcome: Outcome::Invalid("argument count, type, or width mismatch".to_owned()),
                    steps: 0,
                };
            }
            a += 1;
        }
        let n = self.values.len();
        let mut k: usize = 0;
        while k < n
            invariant
                0 <= k <= n,
                n == self.values@.len(),
                n == reg_count(f),
                f == self.function@,
                dense(f, false),
                forall|b: int|
                    0 <= b < f.blocks.len() ==> (#[trigger] f.blocks[b]).parameters.len()
                        <= self.edge_values@.len(),
                forall|j: int| 0 <= j < k ==> self.values@[j] == (Value { ty: Type::Bool, bits: 0 }),
            decreases n - k,
        {
            self.values.set(k, zero_value());
            k += 1;
        }
        assert(self.values@ =~= init_regs(reg_count(f)));
        bind_from(&mut self.values, &self.function.parameters, args);
        assert(args@.subrange(0, args@.len() as int) =~= args@);
        let ghost total = spec_execute(f, args@, budget as nat);
        let mut steps: u64 = 0;
        let mut block: usize = self.function.entry as usize;
        let mut i: usize = 0;
        loop
            invariant
                f == self.function@,
                f == old(self).function@,
                total == spec_execute(f, args@, budget as nat),
                dense(f, false),
                self.values@.len() == reg_count(f),
                forall|b: int|
                    0 <= b < f.blocks.len() ==> (#[trigger] f.blocks[b]).parameters.len()
                        <= self.edge_values@.len(),
                block < f.blocks.len(),
                i <= f.blocks[block as int].instructions.len(),
                steps <= budget,
                total == run(f, block as int, i as int, self.values@, steps as nat, budget as nat),
            decreases budget - steps,
        {
            let ghost regs = self.values@;
            let ghost bm = f.blocks[block as int];
            assert(block_dense(bm, f.blocks, reg_count(f), false));
            if steps == budget {
                assert(run(f, block as int, i as int, self.values@, steps as nat, budget as nat) == (RunOutcome::Timeout, steps as nat));
                assert(total == (RunOutcome::Timeout, steps as nat));
                let r = Execution {
                    outcome: Outcome::Timeout("step budget exhausted".to_owned()),
                    steps,
                };
                assert(r.run_view() == total);
                return r;
            }
            steps += 1;
            if i < self.function.blocks[block].instructions.len() {
                let x = &self.function.blocks[block].instructions[i];
                assert(x@ == bm.instructions[i as int]);
                assert(inst_dense(bm.instructions[i as int], reg_count(f), false));
                match step_instruction(&mut self.values, x) {
                    Ok(()) => {},
                    Err(e) => {
                        return Execution { outcome: Outcome::Trap(e), steps };
                    },
                }
                i += 1;
            } else {
                let edge = match &self.function.blocks[block].terminator {
                    Terminator::Return { value } => {
                        return Execution {
                            outcome: Outcome::Completed(self.values[*value as usize]),
                            steps,
                        };
                    },
                    Terminator::Jump { edge } => edge,
                    Terminator::Branch { condition, if_true, if_false } => {
                        if self.values[*condition as usize].bits != 0 {
                            if_true
                        } else {
                            if_false
                        }
                    },
                };
                let target = edge.block as usize;
                proof {
                    assert(edge_dense(edge@, f.blocks, reg_count(f)));
                }
                transfer(&mut self.values, &mut self.edge_values, &self.function, edge, Ghost(false));
                block = target;
                i = 0;
            }
        }
    }
}

/// Runs an evaluator-checked function once.
pub fn execute_dense(function: Function, args: &[Value], budget: u64) -> (r: Execution)
    requires
        dense(function@, false),
    ensures
        r.outcome is Invalid || r.run_view() == spec_execute(function@, args@, budget as nat),
{
    match Evaluator::from_dense(function) {
        Some(mut e) => e.execute(args, budget),
        None => Execution { outcome: Outcome::Invalid("function too large".to_owned()), steps: 0 },
    }
}

} // verus!
