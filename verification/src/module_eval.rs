//! Evaluation of modules: a stack of frames, one per active call, with
//! one step budget shared by all of them and a bound on the call depth.
use vstd::prelude::*;

use crate::eval::{
    bind, bind_from, block_dense, dense, init_regs, inst_dense, read, reg_count, step_instruction,
    transfer, zero_value, edge_dense, Evaluator, Execution, Outcome,
};
use crate::ir::{Expr, ExprM, Function, FunctionM, Id, Terminator, TerminatorM};
use crate::module::{find_function, module_ok, Module};
use crate::normalize::normal_form;
use crate::text::{chars_eq, chars_of};
use crate::types::{spec_eval, Type, Value};
use crate::sig::sig_valid;

verus! {

/// How a module run ends.
pub enum ModuleOutcome {
    Completed(Value),
    StepTimeout,
    DepthTimeout,
    Trap,
    Invalid,
}

/// An active call: where it is, its registers, and the register of its
/// caller that receives its result.
pub struct FrameM {
    pub function: int,
    pub block: int,
    pub instr: int,
    pub regs: Seq<Value>,
    pub return_to: Id,
}

/// The first position of `n` in `names` from `k` on, or -1.
pub open spec fn lookup_from(names: Seq<Seq<char>>, n: Seq<char>, k: int) -> int
    decreases names.len() - k,
{
    if k < 0 || k >= names.len() {
        -1
    } else if names[k] == n {
        k
    } else {
        lookup_from(names, n, k + 1)
    }
}

/// The frame of a call of function `j` with arguments `args`.
pub open spec fn call_frame(fs: Seq<FunctionM>, j: int, args: Seq<Value>, ret: Id) -> FrameM {
    FrameM {
        function: j,
        block: fs[j].entry as int,
        instr: 0,
        regs: bind(init_regs(reg_count(fs[j])), fs[j].parameters, args),
        return_to: ret,
    }
}

/// The frame moved to instruction `instr + 1` with registers `regs`.
pub open spec fn advance(fr: FrameM, regs: Seq<Value>) -> FrameM {
    FrameM { function: fr.function, block: fr.block, instr: fr.instr + 1, regs, return_to: fr.return_to }
}

/// The frame moved along an edge of its function.
pub open spec fn follow(f: FunctionM, fr: FrameM, e: crate::ir::EdgeM) -> FrameM {
    FrameM {
        function: fr.function,
        block: e.block as int,
        instr: 0,
        regs: bind(fr.regs, f.blocks[e.block as int].parameters, read(fr.regs, e.args)),
        return_to: fr.return_to,
    }
}

/// The run of a module from a stack of frames. Each instruction, call and
/// terminator takes one step; a call that would make the stack deeper
/// than `depth` frames ends the run.
pub open spec fn mrun(
    fs: Seq<FunctionM>,
    names: Seq<Seq<char>>,
    frames: Seq<FrameM>,
    steps: nat,
    budget: nat,
    depth: nat,
) -> (ModuleOutcome, nat)
    decreases budget - steps, 2nat,
{
    if steps >= budget {
        (ModuleOutcome::StepTimeout, steps)
    } else if frames.len() == 0 {
        (ModuleOutcome::Invalid, steps)
    } else {
        let fr = frames[frames.len() - 1];
        if 0 <= fr.instr < fs[fr.function].blocks[fr.block].instructions.len() {
            instr_step(fs, names, frames, steps, budget, depth)
        } else {
            term_step(fs, names, frames, steps, budget, depth)
        }
    }
}

/// The run after the instruction the top frame is at.
pub open spec fn instr_step(
    fs: Seq<FunctionM>,
    names: Seq<Seq<char>>,
    frames: Seq<FrameM>,
    steps: nat,
    budget: nat,
    depth: nat,
) -> (ModuleOutcome, nat)
    decreases budget - steps, 1nat,
{
    if steps >= budget || frames.len() == 0 {
        (ModuleOutcome::Invalid, steps)
    } else {
        let top = frames.len() - 1;
        let fr = frames[top];
        let x = fs[fr.function].blocks[fr.block].instructions[fr.instr];
        match x.expr {
            ExprM::Const { value } => mrun(
                fs,
                names,
                frames.update(top, advance(fr, fr.regs.update(x.id as int, value))),
                steps + 1,
                budget,
                depth,
            ),
            ExprM::Apply { op, args } => match spec_eval(op, read(fr.regs, args)) {
                None => (ModuleOutcome::Trap, steps + 1),
                Some(v) => mrun(
                    fs,
                    names,
                    frames.update(top, advance(fr, fr.regs.update(x.id as int, v))),
                    steps + 1,
                    budget,
                    depth,
                ),
            },
            ExprM::Call { function, args } => call_step(fs, names, frames, steps, budget, depth),
        }
    }
}

/// The run after the call the top frame is at.
pub open spec fn call_step(
    fs: Seq<FunctionM>,
    names: Seq<Seq<char>>,
    frames: Seq<FrameM>,
    steps: nat,
    budget: nat,
    depth: nat,
) -> (ModuleOutcome, nat)
    decreases budget - steps, 0nat,
{
    if steps >= budget || frames.len() == 0 {
        (ModuleOutcome::Invalid, steps)
    } else {
        let top = frames.len() - 1;
        let fr = frames[top];
        let x = fs[fr.function].blocks[fr.block].instructions[fr.instr];
        match x.expr {
            ExprM::Call { function, args } => {
                let j = lookup_from(names, function, 0);
                if frames.len() >= depth {
                    (ModuleOutcome::DepthTimeout, steps + 1)
                } else if j < 0 || fs[j].parameters.len() != args.len() {
                    (ModuleOutcome::Invalid, steps + 1)
                } else {
                    mrun(
                        fs,
                        names,
                        frames.update(top, advance(fr, fr.regs)).push(
                            call_frame(fs, j, read(fr.regs, args), x.id),
                        ),
                        steps + 1,
                        budget,
                        depth,
                    )
                }
            },
            _ => (ModuleOutcome::Invalid, steps),
        }
    }
}

/// The run after the terminator of the top frame's block.
pub open spec fn term_step(
    fs: Seq<FunctionM>,
    names: Seq<Seq<char>>,
    frames: Seq<FrameM>,
    steps: nat,
    budget: nat,
    depth: nat,
) -> (ModuleOutcome, nat)
    decreases budget - steps, 1nat,
{
    if steps >= budget || frames.len() == 0 {
        (ModuleOutcome::Invalid, steps)
    } else {
        let top = frames.len() - 1;
        let fr = frames[top];
        let f = fs[fr.function];
        match f.blocks[fr.block].terminator {
            TerminatorM::Return { value } => {
                let result = fr.regs[value as int];
                if frames.len() == 1 {
                    (ModuleOutcome::Completed(result), steps + 1)
                } else {
                    let caller = frames[top - 1];
                    mrun(
                        fs,
                        names,
                        frames.drop_last().update(
                            top - 1,
                            FrameM {
                                function: caller.function,
                                block: caller.block,
                                instr: caller.instr,
                                regs: caller.regs.update(fr.return_to as int, result),
                                return_to: caller.return_to,
                            },
                        ),
                        steps + 1,
                        budget,
                        depth,
                    )
                }
            },
            TerminatorM::Jump { edge } => mrun(
                fs,
                names,
                frames.update(top, follow(f, fr, edge)),
                steps + 1,
                budget,
                depth,
            ),
            TerminatorM::Branch { condition, if_true, if_false } => {
                let e = if fr.regs[condition as int].bits != 0 {
                    if_true
                } else {
                    if_false
                };
                mrun(fs, names, frames.update(top, follow(f, fr, e)), steps + 1, budget, depth)
            },
        }
    }
}

/// The arguments fit the signature `(types, ret)`, which is itself
/// supported.
pub open spec fn transport_ok(types: Seq<Type>, ret: Type, args: Seq<Value>) -> bool {
    &&& sig_valid(types, ret)
    &&& args.len() == types.len()
    &&& forall|i: int|
        0 <= i < args.len() ==> (#[trigger] args[i]).ty == types[i] && args[i].bits
            <= args[i].ty.spec_mask()
}

/// The execution of a module on arguments, with a step budget and a call
/// depth budget (at most 1024).
pub open spec fn spec_module_execute(
    fs: Seq<FunctionM>,
    names: Seq<Seq<char>>,
    entry: int,
    args: Seq<Value>,
    budget: nat,
    depth: nat,
) -> (ModuleOutcome, nat) {
    let f = fs[entry];
    if !transport_ok(f.arg_types(), f.return_type, args) {
        (ModuleOutcome::Invalid, 0)
    } else if depth > 1024 {
        (ModuleOutcome::Invalid, 0)
    } else if depth == 0 {
        (ModuleOutcome::DepthTimeout, 0)
    } else {
        mrun(fs, names, seq![call_frame(fs, entry, args, 0)], 0, budget, depth)
    }
}

/// A module run that starts within its budget ends within it, and one
/// that runs out of steps has used exactly the budget.
pub proof fn lemma_mrun_budget(fs: Seq<FunctionM>, names: Seq<Seq<char>>, frames: Seq<FrameM>, steps: nat, budget: nat, depth: nat)
    requires
        steps <= budget,
    ensures
        mrun(fs, names, frames, steps, budget, depth).1 <= budget,
        mrun(fs, names, frames, steps, budget, depth).0 is StepTimeout ==> mrun(fs, names, frames, steps, budget, depth).1
            == budget,
    decreases budget - steps, 2nat,
{
    if steps < budget && frames.len() > 0 {
        let fr = frames[frames.len() - 1];
        if 0 <= fr.instr < fs[fr.function].blocks[fr.block].instructions.len() {
            lemma_instr_budget(fs, names, frames, steps, budget, depth);
        } else {
            lemma_term_budget(fs, names, frames, steps, budget, depth);
        }
    }
}

proof fn lemma_instr_budget(fs: Seq<FunctionM>, names: Seq<Seq<char>>, frames: Seq<FrameM>, steps: nat, budget: nat, depth: nat)
    requires
        steps <= budget,
    ensures
        instr_step(fs, names, frames, steps, budget, depth).1 <= budget,
        instr_step(fs, names, frames, steps, budget, depth).0 is StepTimeout ==> instr_step(fs, names, frames, steps, budget, depth).1
            == budget,
    decreases budget - steps, 1nat,
{
    if !(steps >= budget || frames.len() == 0) {
        let top = frames.len() - 1;
        let fr = frames[top];
        let x = fs[fr.function].blocks[fr.block].instructions[fr.instr];
        match x.expr {
            ExprM::Const { value } => {
                lemma_mrun_budget(fs, names, frames.update(top, advance(fr, fr.regs.update(x.id as int, value))), steps + 1, budget, depth);
            },
            ExprM::Apply { op, args } => {
                if let Some(v) = spec_eval(op, read(fr.regs, args)) {
                    lemma_mrun_budget(fs, names, frames.update(top, advance(fr, fr.regs.update(x.id as int, v))), steps + 1, budget, depth);
                }
            },
            ExprM::Call { .. } => {
                lemma_call_budget(fs, names, frames, steps, budget, depth);
            },
        }
    }
}

proof fn lemma_call_budget(fs: Seq<FunctionM>, names: Seq<Seq<char>>, frames: Seq<FrameM>, steps: nat, budget: nat, depth: nat)
    requires
        steps <= budget,
    ensures
        call_step(fs, names, frames, steps, budget, depth).1 <= budget,
        call_step(fs, names, frames, steps, budget, depth).0 is StepTimeout ==> call_step(fs, names, frames, steps, budget, depth).1
            == budget,
    decreases budget - steps, 0nat,
{
    if !(steps >= budget || frames.len() == 0) {
        let top = frames.len() - 1;
        let fr = frames[top];
        let x = fs[fr.function].blocks[fr.block].instructions[fr.instr];
        if let ExprM::Call { function, args } = x.expr {
            let j = lookup_from(names, function, 0);
            if !(frames.len() >= depth) && !(j < 0 || fs[j].parameters.len() != args.len()) {
                lemma_mrun_budget(
                    fs,
                    names,
                    frames.update(top, advance(fr, fr.regs)).push(call_frame(fs, j, read(fr.regs, args), x.id)),
                    steps + 1,
                    budget,
                    depth,
                );
            }
        }
    }
}

proof fn lemma_term_budget(fs: Seq<FunctionM>, names: Seq<Seq<char>>, frames: Seq<FrameM>, steps: nat, budget: nat, depth: nat)
    requires
        steps <= budget,
    ensures
        term_step(fs, names, frames, steps, budget, depth).1 <= budget,
        term_step(fs, names, frames, steps, budget, depth).0 is StepTimeout ==> term_step(fs, names, frames, steps, budget, depth).1
            == budget,
    decreases budget - steps, 1nat,
{
    if !(steps >= budget || frames.len() == 0) {
        let top = frames.len() - 1;
        let fr = frames[top];
        let f = fs[fr.function];
        match f.blocks[fr.block].terminator {
            TerminatorM::Return { value } => {
                let result = fr.regs[value as int];
                if frames.len() != 1 {
                    let caller = frames[top - 1];
                    lemma_mrun_budget(
                        fs,
                        names,
                        frames.drop_last().update(
                            top - 1,
                            FrameM {
                                function: caller.function,
                                block: caller.block,
                                instr: caller.instr,
                                regs: caller.regs.update(fr.return_to as int, result),
                                return_to: caller.return_to,
                            },
                        ),
                        steps + 1,
                        budget,
                        depth,
                    );
                }
            },
            TerminatorM::Jump { edge } => {
                lemma_mrun_budget(fs, names, frames.update(top, follow(f, fr, edge)), steps + 1, budget, depth);
            },
            TerminatorM::Branch { condition, if_true, if_false } => {
                let e = if fr.regs[condition as int].bits != 0 {
                    if_true
                } else {
                    if_false
                };
                lemma_mrun_budget(fs, names, frames.update(top, follow(f, fr, e)), steps + 1, budget, depth);
            },
        }
    }
}

/// A module execution takes at most its step budget, and one that runs
/// out of steps takes exactly the budget.
pub proof fn law_module_execute_within_budget(
    fs: Seq<FunctionM>,
    names: Seq<Seq<char>>,
    entry: int,
    args: Seq<Value>,
    budget: nat,
    depth: nat,
)
    ensures
        spec_module_execute(fs, names, entry, args, budget, depth).1 <= budget,
        spec_module_execute(fs, names, entry, args, budget, depth).0 is StepTimeout ==> spec_module_execute(
            fs,
            names,
            entry,
            args,
            budget,
            depth,
        ).1 == budget,
{
    let f = fs[entry];
    if transport_ok(f.arg_types(), f.return_type, args) && depth <= 1024 && depth != 0 {
        lemma_mrun_budget(fs, names, seq![call_frame(fs, entry, args, 0)], 0, budget, depth);
    }
}

/// An execution as a module outcome and step count.
pub open spec fn module_view(e: Execution) -> (ModuleOutcome, nat) {
    (
        match e.outcome {
            Outcome::Completed(v) => ModuleOutcome::Completed(v),
            Outcome::Timeout(m) => if m@ == "call depth budget exhausted"@ {
                ModuleOutcome::DepthTimeout
            } else {
                ModuleOutcome::StepTimeout
            },
            Outcome::Trap(_) => ModuleOutcome::Trap,
            Outcome::Invalid(_) => ModuleOutcome::Invalid,
        },
        e.steps as nat,
    )
}

/// The two timeout messages are different.
pub proof fn lemma_messages_differ()
    ensures
        "step budget exhausted"@ != "call depth budget exhausted"@,
{
    reveal_strlit("step budget exhausted");
    reveal_strlit("call depth budget exhausted");
    assert("step budget exhausted"@.len() == 21);
    assert("call depth budget exhausted"@.len() == 27);
}

/// A suspended caller.
struct Frame {
    function: usize,
    block: usize,
    instr: usize,
    values: Vec<Value>,
    return_to: Id,
}

impl Frame {
    spec fn model(&self) -> FrameM {
        FrameM {
            function: self.function as int,
            block: self.block as int,
            instr: self.instr as int,
            regs: self.values@,
            return_to: self.return_to,
        }
    }
}

/// The frame fits function `fs[function]`.
pub open spec fn frame_ok(fs: Seq<FunctionM>, fr: FrameM) -> bool {
    &&& 0 <= fr.function < fs.len()
    &&& 0 <= fr.block < fs[fr.function].blocks.len()
    &&& 0 <= fr.instr <= fs[fr.function].blocks[fr.block].instructions.len()
    &&& fr.regs.len() == reg_count(fs[fr.function])
}

/// Every frame fits its function and returns into a register of the
/// frame below it.
#[verifier::opaque]
pub open spec fn stack_ok(fs: Seq<FunctionM>, frames: Seq<FrameM>) -> bool {
    &&& forall|k: int| 0 <= k < frames.len() ==> frame_ok(fs, #[trigger] frames[k])
    &&& forall|k: int| 0 < k < frames.len() ==> (#[trigger] frames[k]).return_to < frames[k - 1].regs.len()
}

/// Replacing the running frame by one that fits keeps the stack sound.
pub proof fn lemma_stack_update(fs: Seq<FunctionM>, frames: Seq<FrameM>, next: FrameM)
    requires
        stack_ok(fs, frames),
        frames.len() > 0,
        frame_ok(fs, next),
        next.return_to == frames[frames.len() - 1].return_to,
    ensures
        stack_ok(fs, frames.update(frames.len() - 1, next)),
{
    reveal(stack_ok);
    let g = frames.update(frames.len() - 1, next);
    assert forall|k: int| 0 < k < g.len() implies (#[trigger] g[k]).return_to < g[k - 1].regs.len() by {
        if k == g.len() - 1 {
            assert(g[k] == next);
        }
    }
}

/// Suspending the running frame and starting a call keeps the stack
/// sound.
pub proof fn lemma_stack_push(fs: Seq<FunctionM>, frames: Seq<FrameM>, adv: FrameM, next: FrameM)
    requires
        stack_ok(fs, frames),
        frames.len() > 0,
        frame_ok(fs, adv),
        adv.return_to == frames[frames.len() - 1].return_to,
        frame_ok(fs, next),
        next.return_to < adv.regs.len(),
    ensures
        stack_ok(fs, frames.update(frames.len() - 1, adv).push(next)),
{
    reveal(stack_ok);
    let g = frames.update(frames.len() - 1, adv).push(next);
    assert forall|k: int| 0 <= k < g.len() implies frame_ok(fs, #[trigger] g[k]) by {
        if k < frames.len() - 1 {
            assert(g[k] == frames[k]);
        }
    }
    assert forall|k: int| 0 < k < g.len() implies (#[trigger] g[k]).return_to < g[k - 1].regs.len() by {
        if k < frames.len() - 1 {
            assert(g[k] == frames[k]);
            assert(g[k - 1] == frames[k - 1]);
        } else if k == frames.len() - 1 {
            assert(g[k] == adv);
        }
    }
}

/// Ending the running frame and resuming its caller with one register
/// changed keeps the stack sound.
pub proof fn lemma_stack_pop(fs: Seq<FunctionM>, frames: Seq<FrameM>, caller: FrameM)
    requires
        stack_ok(fs, frames),
        frames.len() > 1,
        frame_ok(fs, caller),
        caller.return_to == frames[frames.len() - 2].return_to,
    ensures
        stack_ok(fs, frames.drop_last().update(frames.len() - 2, caller)),
{
    reveal(stack_ok);
    let g = frames.drop_last().update(frames.len() - 2, caller);
    assert forall|k: int| 0 <= k < g.len() implies frame_ok(fs, #[trigger] g[k]) by {
        if k < frames.len() - 2 {
            assert(g[k] == frames[k]);
        }
    }
    assert forall|k: int| 0 < k < g.len() implies (#[trigger] g[k]).return_to < g[k - 1].regs.len() by {
        assert(g[k - 1] == frames[k - 1]);
        if k < frames.len() - 2 {
            assert(g[k] == frames[k]);
        }
    }
}

/// The facts about the two top frames that a return needs.
pub proof fn lemma_stack_top(fs: Seq<FunctionM>, frames: Seq<FrameM>)
    requires
        stack_ok(fs, frames),
        frames.len() > 0,
    ensures
        frame_ok(fs, frames[frames.len() - 1]),
        frames.len() > 1 ==> frame_ok(fs, frames[frames.len() - 2]) && frames[frames.len() - 1].return_to
            < frames[frames.len() - 2].regs.len(),
{
    reveal(stack_ok);
}

/// A prepared module: its normalized functions in name order, their
/// names, register counts, and the entry.
pub struct ModuleEvaluator {
    functions: Vec<Function>,
    names: Vec<String>,
    counts: Vec<usize>,
    edge_len: usize,
    entry: usize,
}

impl ModuleEvaluator {
    /// The functions.
    pub closed spec fn model(self) -> Seq<FunctionM> {
        self.functions@.map_values(|f: Function| f@)
    }

    /// The function names.
    pub closed spec fn names_model(self) -> Seq<Seq<char>> {
        self.names@.map_values(|s: String| s@)
    }

    /// The position of the entry function.
    pub closed spec fn entry_index(self) -> int {
        self.entry as int
    }

    /// The evaluator's tables fit its functions.
    pub closed spec fn wf(self) -> bool {
        &&& self.functions@.len() == self.names@.len()
        &&& self.functions@.len() == self.counts@.len()
        &&& self.entry < self.functions@.len()
        &&& forall|j: int|
            0 <= j < self.functions@.len() ==> dense((#[trigger] self.functions@[j])@, true)
                && self.counts@[j] == reg_count(self.functions@[j]@) && forall|b: int|
                0 <= b < self.functions@[j]@.blocks.len() ==> (
                #[trigger] self.functions@[j]@.blocks[b]).parameters.len() <= self.edge_len
    }

    /// Prepares a valid module: every function normalized, the entry
    /// located.
    pub fn new(module: &Module) -> (r: Result<ModuleEvaluator, String>)
        ensures
            r is Ok ==> module_ok(module@),
            r matches Ok(e) ==> e.wf() && e.model().len() == module@.functions.len()
                && e.names_model()[e.entry_index()] == module@.entry && forall|j: int|
                0 <= j < e.model().len() ==> (#[trigger] e.names_model()[j]) == module@.functions[j].0
                    && normal_form(module@.functions[j].1, e.model()[j]),
            crate::module::module_normalizable(module@) ==> r is Ok,
    {
        let m = module.normalized()?;
        let entry_name = chars_of(m.entry.as_str());
        let entry = match find_function(&m.functions, &entry_name) {
            Some(i) => i,
            None => {
                proof {
                    let j = choose|j: int| 0 <= j < module@.functions.len() && (#[trigger] module@.functions[j]).0 == module@.entry;
                    assert(m@.functions[j].0 == m@.entry);
                    assert(m@.functions[j] == crate::module::named_view(m.functions@[j]));
                }
                return Err("missing module entry".to_owned());
            },
        };
        let ghost mm = m@;
        let mut functions: Vec<Function> = Vec::new();
        let mut names: Vec<String> = Vec::new();
        let mut counts: Vec<usize> = Vec::new();
        let mut edge_len: usize = 0;
        let mut k: usize = 0;
        while k < m.functions.len()
            invariant
                0 <= k <= m.functions@.len(),
                mm == m@,
                entry < m.functions@.len(),
                m@.functions[entry as int].0 == m@.entry,
                functions@.len() == k,
                names@.len() == k,
                counts@.len() == k,
                forall|j: int|
                    0 <= j < k ==> (#[trigger] functions@[j])@ == m@.functions[j].1 && names@[j]@
                        == m@.functions[j].0 && counts@[j] == reg_count(functions@[j]@),
                forall|j: int, b: int|
                    0 <= j < k && 0 <= b < functions@[j]@.blocks.len() ==> (
                    #[trigger] functions@[j]@.blocks[b]).parameters.len() <= edge_len,
                forall|j: int| 0 <= j < m@.functions.len() ==> reg_count((#[trigger] m@.functions[j]).1) <= u32::MAX,
            decreases m.functions@.len() - k,
        {
            let f = &m.functions[k].1;
            assert(f@ == m@.functions[k as int].1);
            let count = match Evaluator::count_registers(f) {
                Some(n) => n,
                None => return Err("function too large".to_owned()),
            };
            let widest = Evaluator::max_block_params(f);
            if widest > edge_len {
                edge_len = widest;
            }
            functions.push(f.clone_function());
            names.push(m.functions[k].0.clone());
            counts.push(count);
            k += 1;
        }
        let e = ModuleEvaluator { functions, names, counts, edge_len, entry };
        proof {
            assert forall|j: int| 0 <= j < e.functions@.len() implies dense(
                (#[trigger] e.functions@[j])@,
                true,
            ) by {
                assert(normal_form(module@.functions[j].1, mm.functions[j].1));
            }
            assert(functions@[entry as int]@ == mm.functions[entry as int].1);
            assert(e.names_model()[entry as int] == mm.functions[entry as int].0);
            assert forall|j: int| 0 <= j < e.model().len() implies (#[trigger] e.names_model()[j])
                == module@.functions[j].0 && normal_form(module@.functions[j].1, e.model()[j]) by {
                assert(functions@[j]@ == mm.functions[j].1);
            }
        }
        Ok(e)
    }
}


/// Binding parameters that index the registers keeps their number.
pub proof fn lemma_bind_len(regs: Seq<Value>, params: Seq<crate::ir::Param>, vals: Seq<Value>)
    requires
        crate::eval::params_below(params, regs.len()),
    ensures
        bind(regs, params, vals).len() == regs.len(),
    decreases params.len(),
{
    if params.len() > 0 {
        lemma_bind_len(regs, params.drop_last(), vals.subrange(0, params.len() - 1));
        assert(params.last() == params[params.len() - 1]);
    }
}

/// The frames of a run: the suspended callers, then the running frame.
spec fn frames_of(stack: Seq<Frame>, cur: FrameM) -> Seq<FrameM> {
    stack.map_values(|f: Frame| f.model()).push(cur)
}

impl ModuleEvaluator {
    /// The position of the function called `name`.
    fn lookup(&self, name: &[char]) -> (r: Option<usize>)
        requires
            self.wf(),
        ensures
            r matches Some(j) ==> j < self.functions@.len() && j == lookup_from(
                self.names_model(),
                name@,
                0,
            ),
            r is None ==> lookup_from(self.names_model(), name@, 0) == -1,
    {
        let ghost names = self.names_model();
        let mut i: usize = 0;
        while i < self.names.len()
            invariant
                0 <= i <= self.names@.len(),
                self.wf(),
                names == self.names_model(),
                names.len() == self.names@.len(),
                lookup_from(names, name@, 0) == lookup_from(names, name@, i as int),
            decreases self.names@.len() - i,
        {
            let n = chars_of(self.names[i].as_str());
            assert(names[i as int] == self.names@[i as int]@);
            if chars_eq(&n, name) {
                return Some(i);
            }
            i += 1;
        }
        None
    }

    /// The registers of a fresh call of function `j` on `args`.
    fn call_values(&self, j: usize, args: &[Value]) -> (r: Vec<Value>)
        requires
            self.wf(),
            j < self.functions@.len(),
            args@.len() == self.model()[j as int].parameters.len(),
        ensures
            r@ == bind(
                init_regs(reg_count(self.model()[j as int])),
                self.model()[j as int].parameters,
                args@,
            ),
            r@.len() == reg_count(self.model()[j as int]),
    {
        let ghost f = self.functions@[j as int]@;
        assert(self.model()[j as int] == f);
        assert(dense(f, true));
        let n = self.counts[j];
        let mut values: Vec<Value> = Vec::new();
        let mut k: usize = 0;
        while k < n
            invariant
                0 <= k <= n,
                values@.len() == k,
                forall|i: int| 0 <= i < k ==> values@[i] == (Value { ty: Type::Bool, bits: 0 }),
            decreases n - k,
        {
            values.push(zero_value());
            k += 1;
        }
        assert(values@ =~= init_regs(reg_count(f)));
        bind_from(&mut values, &self.functions[j].parameters, args);
        assert(args@.subrange(0, args@.len() as int) =~= args@);
        proof {
            lemma_bind_len(init_regs(reg_count(f)), f.parameters, args@);
        }
        values
    }

    /// Runs the entry function on `args` with at most `budget` steps over
    /// all frames and at most `max_call_depth` frames. Each instruction,
    /// call and terminator takes one step.
    #[verifier::loop_isolation(false)]
    pub fn execute(&self, args: &[Value], budget: u64, max_call_depth: usize) -> (r: Execution)
        requires
            self.wf(),
        ensures
            module_view(r) == spec_module_execute(
                self.model(),
                self.names_model(),
                self.entry_index(),
                args@,
                budget as nat,
                max_call_depth as nat,
            ),
            r.outcome matches Outcome::Timeout(m) ==> m@ == "step budget exhausted"@ || m@
                == "call depth budget exhausted"@,
    {
        let ghost fs = self.model();
        let ghost names = self.names_model();
        let ghost total = spec_module_execute(
            fs,
            names,
            self.entry as int,
            args@,
            budget as nat,
            max_call_depth as nat,
        );
        let ghost ef = fs[self.entry as int];
        assert(ef == self.functions@[self.entry as int]@);
        let sig = self.functions[self.entry].signature();
        assert(sig.arguments@ =~= ef.parameters.map_values(|p: crate::ir::Param| p.ty));
        if sig.validate().is_err() || args.len() != sig.arguments.len() {
            return Execution { outcome: Outcome::Invalid("transport argument mismatch".to_owned()), steps: 0 };
        }
        let mut a: usize = 0;
        while a < args.len()
            invariant
                0 <= a <= args@.len(),
                args@.len() == sig.arguments@.len(),
                forall|i: int|
                    0 <= i < a ==> (#[trigger] args@[i]).ty == sig.arguments@[i] && args@[i].bits
                        <= args@[i].ty.spec_mask(),
            decreases args@.len() - a,
        {
            if args[a].ty != sig.arguments[a] || args[a].bits > args[a].ty.mask() {
                return Execution {
                    outcome: Outcome::Invalid("transport type/width mismatch".to_owned()),
                    steps: 0,
                };
            }
            a += 1;
        }
        if max_call_depth > 1024 {
            return Execution { outcome: Outcome::Invalid("max_call_depth exceeds 1024".to_owned()), steps: 0 };
        }
        if max_call_depth == 0 {
            return Execution {
                outcome: Outcome::Timeout("call depth budget exhausted".to_owned()),
                steps: 0,
            };
        }
        self.run(args, budget, max_call_depth)
    }

    /// The frame loop of `execute`, once the arguments and the depth
    /// budget have been checked.
    fn run(&self, args: &[Value], budget: u64, max_call_depth: usize) -> (r: Execution)
        requires
            self.wf(),
            0 < max_call_depth <= 1024,
            transport_ok(
                self.model()[self.entry_index()].arg_types(),
                self.model()[self.entry_index()].return_type,
                args@,
            ),
        ensures
            module_view(r) == spec_module_execute(
                self.model(),
                self.names_model(),
                self.entry_index(),
                args@,
                budget as nat,
                max_call_depth as nat,
            ),
            r.outcome matches Outcome::Timeout(m) ==> m@ == "step budget exhausted"@ || m@
                == "call depth budget exhausted"@,
    {
        let ghost fs = self.model();
        let ghost names = self.names_model();
        let ghost total = spec_module_execute(
            fs,
            names,
            self.entry as int,
            args@,
            budget as nat,
            max_call_depth as nat,
        );
        let ghost ef = fs[self.entry as int];
        assert(ef == self.functions@[self.entry as int]@);
        assert(args@.len() == ef.parameters.len());
        let mut edge_values: Vec<Value> = Vec::new();
        let mut k: usize = 0;
        while k < self.edge_len
            invariant
                0 <= k <= self.edge_len,
                edge_values@.len() == k,
            decreases self.edge_len - k,
        {
            edge_values.push(zero_value());
            k += 1;
        }
        let first = self.call_values(self.entry, args);
        let mut m = Machine {
            stack: Vec::new(),
            cur_f: self.entry,
            cur_b: self.functions[self.entry].entry as usize,
            cur_i: 0,
            cur_vals: first,
            cur_ret: 0,
        };
        proof {
            assert(dense(ef, true));
            assert(m.frames() =~= seq![call_frame(fs, self.entry as int, args@, 0)]);
            reveal(stack_ok);
            assert(frame_ok(fs, m.cur()));
            assert(stack_ok(fs, m.frames()));
        }
        let mut steps: u64 = 0;
        loop
            invariant
                self.wf(),
                fs == self.model(),
                names == self.names_model(),
                0 < max_call_depth <= 1024,
                total == spec_module_execute(
                    fs,
                    names,
                    self.entry as int,
                    args@,
                    budget as nat,
                    max_call_depth as nat,
                ),
                total == mrun(fs, names, m.frames(), steps as nat, budget as nat, max_call_depth as nat),
                stack_ok(fs, m.frames()),
                edge_values@.len() == self.edge_len,
                steps <= budget,
            decreases budget - steps,
        {
            if steps == budget {
                proof {
                    lemma_messages_differ();
                }
                return Execution {
                    outcome: Outcome::Timeout("step budget exhausted".to_owned()),
                    steps,
                };
            }
            match self.step(&mut m, &mut edge_values, steps, budget, max_call_depth) {
                Some(e) => {
                    return e;
                },
                None => {
                    steps += 1;
                },
            }
        }
    }

    /// One step of the running frame.
    fn step(
        &self,
        m: &mut Machine,
        edge_values: &mut Vec<Value>,
        steps: u64,
        budget: u64,
        max_call_depth: usize,
    ) -> (r: Option<Execution>)
        requires
            0 < max_call_depth <= 1024,
            self.wf(),
            stack_ok(self.model(), old(m).frames()),
            old(edge_values)@.len() == self.edge_len,
            steps < budget,
        ensures
            stack_ok(self.model(), final(m).frames()),
            final(edge_values)@.len() == self.edge_len,
            mrun(self.model(), self.names_model(), old(m).frames(), steps as nat, budget as nat, max_call_depth as nat)
                == match r {
                Some(e) => module_view(e),
                None => mrun(
                    self.model(),
                    self.names_model(),
                    final(m).frames(),
                    steps as nat + 1,
                    budget as nat,
                    max_call_depth as nat,
                ),
            },
            r matches Some(e) ==> (e.outcome matches Outcome::Timeout(msg) ==> msg@
                == "call depth budget exhausted"@),
    {
        let ghost fs = self.model();
        let ghost frames = old(m).frames();
        let ghost cur = old(m).cur();
        proof {
            self.lemma_top(m);
        }
        let ghost f = fs[m.cur_f as int];
        let ghost bm = f.blocks[m.cur_b as int];
        let function = &self.functions[m.cur_f];
        let block = &function.blocks[m.cur_b];
        if m.cur_i < block.instructions.len() {
            self.step_instruction_of(m, steps, budget, max_call_depth)
        } else {
            self.step_terminator(m, edge_values, steps, budget, max_call_depth)
        }
    }

    /// A step at an instruction of the running frame.
    #[verifier::rlimit(100)]
    #[verifier::spinoff_prover]
    fn step_instruction_of(&self, m: &mut Machine, steps: u64, budget: u64, max_call_depth: usize) -> (r:
        Option<Execution>)
        requires
            0 < max_call_depth <= 1024,
            self.wf(),
            stack_ok(self.model(), old(m).frames()),
            steps < budget,
            (old(m).cur_i as int) < self.model()[old(m).cur_f as int].blocks[old(m).cur_b as int].instructions.len(),
        ensures
            stack_ok(self.model(), final(m).frames()),
            instr_step(self.model(), self.names_model(), old(m).frames(), steps as nat, budget as nat, max_call_depth as nat)
                == match r {
                Some(e) => module_view(e),
                None => mrun(
                    self.model(),
                    self.names_model(),
                    final(m).frames(),
                    steps as nat + 1,
                    budget as nat,
                    max_call_depth as nat,
                ),
            },
            r matches Some(e) ==> (e.outcome matches Outcome::Timeout(msg) ==> msg@
                == "call depth budget exhausted"@),
    {
        let ghost fs = self.model();
        let ghost frames = old(m).frames();
        let ghost cur = old(m).cur();
        proof {
            self.lemma_top(m);
        }
        let ghost f = fs[m.cur_f as int];
        let ghost bm = f.blocks[m.cur_b as int];
        let function = &self.functions[m.cur_f];
        let block = &function.blocks[m.cur_b];
        let x = &block.instructions[m.cur_i];
        assert(x@ == bm.instructions[m.cur_i as int]);
        assert(inst_dense(x@, reg_count(f), true));
        let steps1 = steps + 1;
        match &x.expr {
            Expr::Call { .. } => self.step_call(m, steps, max_call_depth, Ghost(budget)),
            _ => {
                match step_instruction(&mut m.cur_vals, x) {
                    Ok(()) => {},
                    Err(e) => {
                        proof {
                            let now = FrameM {
                                function: cur.function,
                                block: cur.block,
                                instr: cur.instr,
                                regs: m.cur_vals@,
                                return_to: cur.return_to,
                            };
                            assert(m.cur() == now);
                            assert(m.frames() =~= frames.update(frames.len() - 1, m.cur()));
                            lemma_stack_update(fs, frames, m.cur());
                        }
                        return Some(Execution { outcome: Outcome::Trap(e), steps: steps1 });
                    },
                }
                let n_instr = block.instructions.len();
                assert(m.cur_i < n_instr);
                m.cur_i = m.cur_i + 1;
                proof {
                    assert(m.cur() == advance(cur, m.cur_vals@));
                    assert(m.frames() =~= frames.update(frames.len() - 1, m.cur()));
                    lemma_stack_update(fs, frames, m.cur());
                }
                None
            },
        }
    }

    /// A step at a call instruction of the running frame.
    #[verifier::rlimit(100)]
    #[verifier::spinoff_prover]
    fn step_call(&self, m: &mut Machine, steps: u64, max_call_depth: usize, Ghost(budget): Ghost<u64>) -> (r:
        Option<Execution>)
        requires
            0 < max_call_depth <= 1024,
            self.wf(),
            stack_ok(self.model(), old(m).frames()),
            steps < budget,
            (old(m).cur_i as int) < self.model()[old(m).cur_f as int].blocks[old(m).cur_b as int].instructions.len(),
            self.model()[old(m).cur_f as int].blocks[old(m).cur_b as int].instructions[old(m).cur_i as int].expr is Call,
        ensures
            stack_ok(self.model(), final(m).frames()),
            call_step(self.model(), self.names_model(), old(m).frames(), steps as nat, budget as nat, max_call_depth as nat)
                == match r {
                Some(e) => module_view(e),
                None => mrun(
                    self.model(),
                    self.names_model(),
                    final(m).frames(),
                    steps as nat + 1,
                    budget as nat,
                    max_call_depth as nat,
                ),
            },
            r matches Some(e) ==> (e.outcome matches Outcome::Timeout(msg) ==> msg@
                == "call depth budget exhausted"@),
    {
        let ghost fs = self.model();
        let ghost frames = old(m).frames();
        let ghost cur = old(m).cur();
        proof {
            self.lemma_top(m);
        }
        let ghost f = fs[m.cur_f as int];
        let ghost bm = f.blocks[m.cur_b as int];
        let function = &self.functions[m.cur_f];
        let block = &function.blocks[m.cur_b];
        let x = &block.instructions[m.cur_i];
        assert(x@ == bm.instructions[m.cur_i as int]);
        assert(inst_dense(x@, reg_count(f), true));
        let steps1 = steps + 1;
        let (callee, ids) = match &x.expr {
            Expr::Call { function: callee, args: ids } => (callee, ids),
            _ => {
                return Some(Execution { outcome: Outcome::Invalid("expected a call".to_owned()), steps: steps1 });
            },
        };
        if m.stack.len() >= max_call_depth - 1 {
            return Some(
                Execution {
                    outcome: Outcome::Timeout("call depth budget exhausted".to_owned()),
                    steps: steps1,
                },
            );
        }
        let name = chars_of(callee.as_str());
        let j = match self.lookup(&name) {
            Some(j) => j,
            None => {
                return Some(
                    Execution { outcome: Outcome::Invalid("missing callee".to_owned()), steps: steps1 },
                );
            },
        };
        assert(fs[j as int] == self.functions@[j as int]@);
        if self.functions[j].parameters.len() != ids.len() {
            return Some(
                Execution {
                    outcome: Outcome::Invalid("callee arity mismatch".to_owned()),
                    steps: steps1,
                },
            );
        }
        if m.cur_i >= block.instructions.len() {
            return Some(Execution { outcome: Outcome::Invalid("no instruction".to_owned()), steps: steps1 });
        }
        let argvals = read_values(&m.cur_vals, ids);
        let child = self.call_values(j, &argvals);
        m.push_call(j, self.functions[j].entry as usize, child, x.id);
        proof {
            assert(dense(fs[j as int], true));
            assert(m.cur() == call_frame(fs, j as int, read(cur.regs, ids@), x@.id));
            lemma_stack_push(fs, frames, advance(cur, cur.regs), m.cur());
        }
        None
    }

    /// A step at the terminator of the running block.
    fn step_terminator(
        &self,
        m: &mut Machine,
        edge_values: &mut Vec<Value>,
        steps: u64,
        budget: u64,
        max_call_depth: usize,
    ) -> (r: Option<Execution>)
        requires
            0 < max_call_depth <= 1024,
            self.wf(),
            stack_ok(self.model(), old(m).frames()),
            old(edge_values)@.len() == self.edge_len,
            steps < budget,
            (old(m).cur_i as int) >= self.model()[old(m).cur_f as int].blocks[old(m).cur_b as int].instructions.len(),
        ensures
            stack_ok(self.model(), final(m).frames()),
            final(edge_values)@.len() == self.edge_len,
            term_step(self.model(), self.names_model(), old(m).frames(), steps as nat, budget as nat, max_call_depth as nat)
                == match r {
                Some(e) => module_view(e),
                None => mrun(
                    self.model(),
                    self.names_model(),
                    final(m).frames(),
                    steps as nat + 1,
                    budget as nat,
                    max_call_depth as nat,
                ),
            },
            r matches Some(e) ==> !(e.outcome is Timeout),
    {
        let ghost fs = self.model();
        let ghost frames = old(m).frames();
        let ghost cur = old(m).cur();
        proof {
            self.lemma_top(m);
        }
        let ghost f = fs[m.cur_f as int];
        let ghost bm = f.blocks[m.cur_b as int];
        let function = &self.functions[m.cur_f];
        let block = &function.blocks[m.cur_b];
        let steps1 = steps + 1;
        let edge = match &block.terminator {
            Terminator::Return { value } => {
                let result = m.cur_vals[*value as usize];
                if m.stack.len() == 0 {
                    return Some(Execution { outcome: Outcome::Completed(result), steps: steps1 });
                }
                proof {
                    assert(frames.len() == m.stack@.len() + 1);
                    assert(frames[frames.len() - 2] == m.stack@[m.stack@.len() - 1].model());
                    lemma_stack_top(fs, frames);
                    assert(frames[frames.len() - 1] == cur);
                    assert(m.cur_ret < m.stack@[m.stack@.len() - 1].values@.len());
                }
                m.pop_return(result);
                proof {
                    let c = frames[frames.len() - 2];
                    let back = FrameM {
                        function: c.function,
                        block: c.block,
                        instr: c.instr,
                        regs: c.regs.update(cur.return_to as int, result),
                        return_to: c.return_to,
                    };
                    assert(m.frames()[m.frames().len() - 1] == m.cur());
                    assert(m.frames() == frames.drop_last().update(frames.len() - 2, back));
                    assert(m.cur() == back);
                    assert(frame_ok(fs, back));
                    lemma_stack_pop(fs, frames, m.cur());
                }
                return None;
            },
            Terminator::Jump { edge } => edge,
            Terminator::Branch { condition, if_true, if_false } => {
                if m.cur_vals[*condition as usize].bits != 0 {
                    if_true
                } else {
                    if_false
                }
            },
        };
        assert(edge_dense(edge@, f.blocks, reg_count(f)));
        transfer(&mut m.cur_vals, edge_values, function, edge, Ghost(true));
        m.cur_b = edge.block as usize;
        m.cur_i = 0;
        proof {
            assert(m.cur() == follow(f, cur, edge@));
            assert(m.frames() =~= frames.update(frames.len() - 1, m.cur()));
            lemma_stack_update(fs, frames, m.cur());
        }
        None
    }
}

/// The values of registers `ids`.
fn read_values(vals: &Vec<Value>, ids: &Vec<Id>) -> (r: Vec<Value>)
    requires
        crate::eval::ids_below(ids@, vals@.len()),
    ensures
        r@ == read(vals@, ids@),
{
    let mut out: Vec<Value> = Vec::new();
    let mut q: usize = 0;
    while q < ids.len()
        invariant
            0 <= q <= ids@.len(),
            crate::eval::ids_below(ids@, vals@.len()),
            out@ == read(vals@, ids@).subrange(0, q as int),
        decreases ids@.len() - q,
    {
        out.push(vals[ids[q] as usize]);
        q += 1;
        assert(out@ =~= read(vals@, ids@).subrange(0, q as int));
    }
    assert(out@ =~= read(vals@, ids@));
    out
}

impl ModuleEvaluator {
    /// What the running frame of a well-formed machine satisfies.
    proof fn lemma_top(&self, m: &Machine)
        requires
            self.wf(),
            stack_ok(self.model(), m.frames()),
        ensures
            m.frames()[m.frames().len() - 1] == m.cur(),
            m.frames().len() == m.stack@.len() + 1,
            frame_ok(self.model(), m.cur()),
            self.model()[m.cur_f as int] == self.functions@[m.cur_f as int]@,
            dense(self.model()[m.cur_f as int], true),
            block_dense(
                self.model()[m.cur_f as int].blocks[m.cur_b as int],
                self.model()[m.cur_f as int].blocks,
                reg_count(self.model()[m.cur_f as int]),
                true,
            ),
    {
        let frames = m.frames();
        assert(frames[frames.len() - 1] == m.cur());
        lemma_stack_top(self.model(), frames);
        let f = self.functions@[m.cur_f as int]@;
        assert(dense(f, true));
    }
}

/// The running state: suspended callers and the running frame.
struct Machine {
    stack: Vec<Frame>,
    cur_f: usize,
    cur_b: usize,
    cur_i: usize,
    cur_vals: Vec<Value>,
    cur_ret: Id,
}

impl Machine {
    spec fn cur(&self) -> FrameM {
        FrameM {
            function: self.cur_f as int,
            block: self.cur_b as int,
            instr: self.cur_i as int,
            regs: self.cur_vals@,
            return_to: self.cur_ret,
        }
    }

    spec fn frames(&self) -> Seq<FrameM> {
        frames_of(self.stack@, self.cur())
    }

    /// Suspends the running frame after its current instruction and
    /// starts a call.
    fn push_call(&mut self, j: usize, entry: usize, values: Vec<Value>, ret: Id)
        requires
            old(self).cur_i < usize::MAX,
        ensures
            final(self).stack@ == old(self).stack@.push(
                Frame {
                    function: old(self).cur_f,
                    block: old(self).cur_b,
                    instr: (old(self).cur_i + 1) as usize,
                    values: old(self).cur_vals,
                    return_to: old(self).cur_ret,
                },
            ),
            final(self).cur() == (FrameM {
                function: j as int,
                block: entry as int,
                instr: 0,
                regs: values@,
                return_to: ret,
            }),
            final(self).frames() == old(self).frames().update(
                old(self).frames().len() - 1,
                advance(old(self).cur(), old(self).cur().regs),
            ).push(final(self).cur()),
    {
        let mut vals = values;
        std::mem::swap(&mut vals, &mut self.cur_vals);
        let caller = Frame {
            function: self.cur_f,
            block: self.cur_b,
            instr: self.cur_i + 1,
            values: vals,
            return_to: self.cur_ret,
        };
        self.stack.push(caller);
        self.cur_f = j;
        self.cur_b = entry;
        self.cur_i = 0;
        self.cur_ret = ret;
        proof {
            let old_frames = old(self).frames();
            assert(self.frames() =~= old_frames.update(
                old_frames.len() - 1,
                advance(old(self).cur(), old(self).cur().regs),
            ).push(self.cur()));
        }
    }

    /// Ends the running frame and resumes its caller, which receives
    /// `result` in the register the call defines.
    fn pop_return(&mut self, result: Value)
        requires
            old(self).stack@.len() > 0,
            old(self).cur_ret < old(self).stack@[old(self).stack@.len() - 1].values@.len(),
        ensures
            final(self).frames() == old(self).frames().drop_last().update(
                old(self).frames().len() - 2,
                FrameM {
                    function: old(self).frames()[old(self).frames().len() - 2].function,
                    block: old(self).frames()[old(self).frames().len() - 2].block,
                    instr: old(self).frames()[old(self).frames().len() - 2].instr,
                    regs: old(self).frames()[old(self).frames().len() - 2].regs.update(
                        old(self).cur_ret as int,
                        result,
                    ),
                    return_to: old(self).frames()[old(self).frames().len() - 2].return_to,
                },
            ),
    {
        let ghost old_frames = self.frames();
        let caller = self.stack.pop().unwrap();
        let Frame { function: cf, block: cb, instr: ci, values: mut cv, return_to: cr } = caller;
        cv.set(self.cur_ret as usize, result);
        self.cur_f = cf;
        self.cur_b = cb;
        self.cur_i = ci;
        self.cur_vals = cv;
        self.cur_ret = cr;
        proof {
            assert(old_frames[old_frames.len() - 2] == caller.model());
            assert(self.frames() =~= old_frames.drop_last().update(
                old_frames.len() - 2,
                self.cur(),
            ));
        }
    }
}

/// `r` is the run of the prepared module `e` of `m`.
pub open spec fn runs_module_with(e: ModuleEvaluator, r: Execution, m: crate::module::ModuleM, args: Seq<Value>, budget: u64, max_call_depth: usize) -> bool {
    &&& e.wf()
    &&& module_view(r) == spec_module_execute(
        e.model(),
        e.names_model(),
        e.entry_index(),
        args,
        budget as nat,
        max_call_depth as nat,
    )
    &&& e.model().len() == m.functions.len()
    &&& forall|j: int|
        0 <= j < e.model().len() ==> (#[trigger] e.names_model()[j]) == m.functions[j].0 && normal_form(
            m.functions[j].1,
            e.model()[j],
        )
}

/// `r` is the run of some preparation of `m`: its normalized functions,
/// names and entry.
pub open spec fn runs_module(r: Execution, m: crate::module::ModuleM, args: Seq<Value>, budget: u64, max_call_depth: usize) -> bool {
    exists|e: ModuleEvaluator| #[trigger] runs_module_with(e, r, m, args, budget, max_call_depth)
}

/// Runs a module once; a module that cannot be prepared gives an
/// `Invalid` outcome after no step.
pub fn execute_module(module: &Module, args: &[Value], budget: u64, max_call_depth: usize) -> (r: Execution)
    ensures
        r.outcome is Invalid && r.steps == 0 || runs_module(r, module@, args@, budget, max_call_depth),
        crate::module::module_normalizable(module@) ==> runs_module(r, module@, args@, budget, max_call_depth),
        !crate::module::module_ok(module@) ==> r.outcome is Invalid && r.steps == 0,
{
    match ModuleEvaluator::new(module) {
        Ok(e) => {
            let r = e.execute(args, budget, max_call_depth);
            assert(runs_module_with(e, r, module@, args@, budget, max_call_depth));
            r
        },
        Err(msg) => Execution { outcome: Outcome::Invalid(msg), steps: 0 },
    }
}

impl Function {
    /// A copy of the function with the same model.
    pub fn clone_function(&self) -> (r: Function)
        ensures
            r@ == self@,
    {
        self.copy()
    }
}

} // verus!
