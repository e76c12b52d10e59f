//! Preparing functions for evaluation and running them once.
use vstd::prelude::*;

use crate::eval::{spec_execute, Evaluator, Execution, Outcome, RunOutcome};
use crate::ir::{Expr, Function, FunctionM};
use crate::normalize::{call_free, normal_form, normalizable};
use crate::types::Value;
use crate::validate::{shape_ok, wf};

verus! {

/// Some instruction of the function is a call.
pub fn has_call(f: &Function) -> (r: bool)
    ensures
        r == !call_free(f@),
{
    let mut b: usize = 0;
    while b < f.blocks.len()
        invariant
            0 <= b <= f.blocks@.len(),
            forall|bb: int, i: int|
                0 <= bb < b && 0 <= i < f@.blocks[bb].instructions.len() ==> !(
                #[trigger] f@.blocks[bb].instructions[i]).expr.is_call(),
        decreases f.blocks@.len() - b,
    {
        let xs = &f.blocks[b].instructions;
        let mut i: usize = 0;
        while i < xs.len()
            invariant
                0 <= i <= xs@.len(),
                b < f.blocks@.len(),
                xs@ == f.blocks@[b as int].instructions@,
                forall|bb: int, j: int|
                    0 <= bb < b && 0 <= j < f@.blocks[bb].instructions.len() ==> !(
                    #[trigger] f@.blocks[bb].instructions[j]).expr.is_call(),
                forall|j: int| 0 <= j < i ==> !(#[trigger] f@.blocks[b as int].instructions[j]).expr.is_call(),
            decreases xs@.len() - i,
        {
            assert(f@.blocks[b as int].instructions[i as int] == xs@[i as int]@);
            if let Expr::Call { .. } = &xs[i].expr {
                return true;
            }
            i += 1;
        }
        b += 1;
    }
    false
}

/// The exit status of a run: 0 when it completed, the input error status
/// when the function or its arguments were invalid, 5 for a trap or a
/// timeout.
pub fn run_exit_code(outcome: &Outcome) -> (r: i32)
    ensures
        r == match outcome {
            Outcome::Completed(_) => 0i32,
            Outcome::Invalid(_) => crate::cli::INPUT_ERROR,
            _ => 5i32,
        },
{
    match outcome {
        Outcome::Completed(_) => 0,
        Outcome::Invalid(_) => crate::cli::INPUT_ERROR,
        _ => 5,
    }
}

impl Evaluator {
    /// An evaluator for a call-free valid function: the function is
    /// normalized once and the register file is allocated for it.
    pub fn new(f: &Function) -> (r: Result<Evaluator, String>)
        ensures
            !call_free(f@) ==> r is Err,
            r matches Ok(e) ==> call_free(f@) && shape_ok(f@) && wf(f@) && normal_form(f@, e.model()) && e.wf(),
            call_free(f@) && normalizable(f@) ==> r is Ok,
    {
        if has_call(f) {
            return Err("internal calls require a validated module evaluator".to_owned());
        }
        let function = f.normalized()?;
        match Evaluator::from_dense(function) {
            Some(e) => Ok(e),
            None => Err("function too large".to_owned()),
        }
    }
}

/// Runs a function once. A function that cannot be prepared gives an
/// `Invalid` outcome after no step; otherwise the run is that of the
/// normalized function.
pub fn execute(f: &Function, args: &[Value], budget: u64) -> (r: Execution)
    ensures
        !call_free(f@) ==> (r.outcome is Invalid && r.steps == 0),
        r.outcome is Invalid && r.steps == 0 || exists|g: FunctionM|
            normal_form(f@, g) && r.run_view() == #[trigger] spec_execute(g, args@, budget as nat),
        call_free(f@) && normalizable(f@) ==> exists|g: FunctionM|
            normal_form(f@, g) && r.run_view() == #[trigger] spec_execute(g, args@, budget as nat),
        !wf(f@) ==> (r.outcome is Invalid && r.steps == 0),
{
    match Evaluator::new(f) {
        Ok(mut e) => {
            let ghost g = e.model();
            let r = e.execute(args, budget);
            assert(r.run_view() == spec_execute(g, args@, budget as nat));
            r
        },
        Err(msg) => Execution { outcome: Outcome::Invalid(msg), steps: 0 },
    }
}

} // verus!
