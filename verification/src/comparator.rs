//! How candidate programs are ranked among themselves. Exact
//! observations always decide correctness; a comparator only guides the
//! selection among programs.
use vstd::prelude::*;

use crate::ir::Function;
use crate::run::has_call;
use crate::source::parse;
use crate::text::err;
use crate::types::Type;

verus! {

/// The selection rule.
#[derive(Clone, Debug, PartialEq, Eq)]
pub enum ComparatorConfig {
    /// Failures first, then mismatching cases, then size.
    CorrectnessFirst {},
    /// The summed bit error decides among equally failing programs.
    BitErrorFirst {},
    /// A program `score(actual: u64, expected: u64) -> u64` prices each
    /// completed case; the summed price decides.
    Gremlin { source: String, max_steps: u64 },
}

impl Default for ComparatorConfig {
    /// The default rule, `CorrectnessFirst`.
    fn default() -> (r: ComparatorConfig)
        ensures
            r is CorrectnessFirst,
    {
        ComparatorConfig::CorrectnessFirst {}
    }
}

impl ComparatorConfig {
    /// Whether this is the default rule.
    pub fn is_default(&self) -> (r: bool)
        ensures
            r == (*self is CorrectnessFirst),
    {
        matches!(self, ComparatorConfig::CorrectnessFirst {})
    }

    /// The scoring program of a `Gremlin` rule, checked: at most 64 KiB
    /// of source, 1..=10000 steps, signature `(u64, u64) -> u64`, no
    /// calls, at most 64 blocks and 4096 instructions, and ready for the
    /// evaluator. The other rules have no program.
    pub fn program(&self) -> (r: Result<Option<Function>, String>)
        ensures
            !(*self is Gremlin) ==> (r matches Ok(None)),
            *self is Gremlin && (self->max_steps == 0 || self->max_steps > 10000) ==> r is Err,
            r matches Ok(Some(f)) ==> *self is Gremlin && f@.arg_types() == seq![Type::U64, Type::U64]
                && f@.return_type == Type::U64 && f@.callees.len() == 0 && f@.blocks.len() <= 64,
    {
        let (source, max_steps) = match self {
            ComparatorConfig::Gremlin { source, max_steps } => (source, *max_steps),
            _ => return Ok(None),
        };
        if source.as_str().len() > 65536 || max_steps == 0 || max_steps > 10000 {
            return err("comparator requires source <=64 KiB and max_steps 1..10000");
        }
        let f = match parse(source.as_str()) {
            Ok(f) => f,
            Err(_) => return err("comparator source does not parse"),
        };
        if f.parameters.len() != 2 || f.parameters[0].ty != Type::U64 || f.parameters[1].ty
            != Type::U64 || f.return_type != Type::U64 {
            return err("comparator signature must be (actual:u64, expected:u64)->u64");
        }
        proof {
            assert(f@.arg_types() =~= seq![Type::U64, Type::U64]);
        }
        if f.callees.len() != 0 || f.blocks.len() > 64 || has_call(&f) {
            return err("comparator requires no calls, <=64 blocks and <=4096 instructions");
        }
        let mut total: usize = 0;
        let mut b: usize = 0;
        while b < f.blocks.len()
            invariant
                0 <= b <= f.blocks@.len(),
                total <= 4096,
                *self is Gremlin,
            decreases f.blocks@.len() - b,
        {
            let n = f.blocks[b].instructions.len();
            if n > 4096 - total {
                return err("comparator requires no calls, <=64 blocks and <=4096 instructions");
            }
            total = total + n;
            b += 1;
        }
        match crate::eval::Evaluator::new(&f) {
            Ok(_) => Ok(Some(f)),
            Err(_) => err("comparator cannot be evaluated"),
        }
    }
}

} // verus!
