//! Scoring of executions against expected values: failure counts,
//! mismatches, bit error, steps, and the selection cost of a comparator.
use vstd::prelude::*;

use crate::comparator::ComparatorConfig;
use crate::eval::{Evaluator, Execution, Outcome};
use crate::ir::Function;
use crate::text::{chars_of, err, extend_chars, string_of};
use crate::types::{Type, Value};

verus! {

/// Counts of failed executions by kind.
#[derive(Clone, Copy, Debug, PartialEq, Eq)]
pub struct Failures {
    pub trap: u64,
    pub timeout: u64,
    pub invalid: u64,
}

impl Failures {
    /// No failures.
    pub fn none() -> (r: Failures)
        ensures
            r.trap == 0 && r.timeout == 0 && r.invalid == 0,
    {
        Failures { trap: 0, timeout: 0, invalid: 0 }
    }
}

/// The result of one case: the execution, the bit error of a completed
/// one, and the comparator's price of it.
#[derive(Clone, Debug, PartialEq, Eq)]
pub struct CaseResult {
    pub execution: Execution,
    pub bit_error: Option<u32>,
    pub custom_cost: Option<u64>,
}

/// The totals of a program over a corpus.
#[derive(Clone, Debug, PartialEq, Eq)]
pub struct EvaluationSummary {
    pub noncompleted: u64,
    pub mismatches: u64,
    pub bit_error: u64,
    pub steps: u64,
    pub failures: Failures,
    pub selection_cost: Option<[u64; 2]>,
}

/// Number of one bits.
pub open spec fn popcount(x: u64) -> nat
    decreases x,
{
    if x == 0 {
        0
    } else {
        (x % 2) as nat + popcount(x / 2)
    }
}

/// `2^n`.
pub open spec fn pow2_nat(n: nat) -> nat
    decreases n,
{
    if n == 0 {
        1
    } else {
        2 * pow2_nat((n - 1) as nat)
    }
}

/// A value below `2^k` has at most `k` one bits.
proof fn lemma_popcount_below(x: u64, k: nat)
    requires
        x < pow2_nat(k),
    ensures
        popcount(x) <= k,
    decreases k,
{
    if x != 0 {
        assert(k > 0);
        lemma_popcount_below(x / 2, (k - 1) as nat);
    }
}

/// Number of one bits of `x`.
pub fn count_ones(x: u64) -> (r: u32)
    ensures
        r as nat == popcount(x),
        r <= 64,
{
    proof {
        reveal_with_fuel(pow2_nat, 65);
        assert(pow2_nat(64) == 0x1_0000_0000_0000_0000);
        lemma_popcount_below(x, 64);
    }
    let mut n: u32 = 0;
    let mut y: u64 = x;
    while y != 0
        invariant
            n as nat + popcount(y) == popcount(x),
            popcount(x) <= 64,
        decreases y,
    {
        n = n + (y % 2) as u32;
        y = y / 2;
    }
    n
}

/// The totals of executions against expected values.
pub struct Tally {
    pub steps: nat,
    pub trap: nat,
    pub timeout: nat,
    pub invalid: nat,
    pub mismatches: nat,
    pub bit_error: nat,
}

/// The totals of the first `es.len()` cases.
pub open spec fn tally(es: Seq<Execution>, xs: Seq<Value>) -> Tally
    decreases es.len(),
{
    if es.len() == 0 {
        Tally { steps: 0, trap: 0, timeout: 0, invalid: 0, mismatches: 0, bit_error: 0 }
    } else {
        let t = tally(es.drop_last(), xs);
        let e = es.last();
        let x = xs[es.len() - 1];
        match e.outcome {
            Outcome::Completed(v) => Tally {
                steps: t.steps + e.steps as nat,
                mismatches: t.mismatches + if v.bits != x.bits { 1nat } else { 0nat },
                bit_error: t.bit_error + popcount(v.bits ^ x.bits),
                ..t
            },
            Outcome::Trap(_) => Tally { steps: t.steps + e.steps as nat, trap: t.trap + 1, ..t },
            Outcome::Timeout(_) => Tally { steps: t.steps + e.steps as nat, timeout: t.timeout + 1, ..t },
            Outcome::Invalid(_) => Tally { steps: t.steps + e.steps as nat, invalid: t.invalid + 1, ..t },
        }
    }
}

/// A scoring with a built-in comparator succeeds on these executions:
/// one per expected value, every case acceptable, and step and bit error
/// sums that fit 64 bits.
pub open spec fn scorable(es: Seq<Execution>, xs: Seq<Value>, max_steps: u64) -> bool {
    &&& es.len() == xs.len()
    &&& cases_ok(es, xs, max_steps)
    &&& tally(es, xs).steps <= u64::MAX
    &&& tally(es, xs).bit_error <= u64::MAX
}

/// The totals of the first cases are no more than those of all.
proof fn lemma_tally_prefix(es: Seq<Execution>, xs: Seq<Value>, k: int)
    requires
        0 <= k <= es.len(),
    ensures
        tally(es.subrange(0, k), xs).steps <= tally(es, xs).steps,
        tally(es.subrange(0, k), xs).bit_error <= tally(es, xs).bit_error,
        tally(es, xs).mismatches <= es.len(),
    decreases es.len(),
{
    if es.len() > 0 {
        if k < es.len() {
            assert(es.drop_last().subrange(0, k) =~= es.subrange(0, k));
        } else {
            assert(es.subrange(0, k) =~= es);
        }
        lemma_tally_prefix(es.drop_last(), xs, if k < es.len() { k } else { es.len() - 1 });
    } else {
        assert(es.subrange(0, k) =~= es);
    }
}

/// Every case is acceptable input to scoring: expected values are
/// integer patterns, no execution took more than `max_steps`, and
/// completed ones return a pattern of the expected type.
pub open spec fn cases_ok(es: Seq<Execution>, xs: Seq<Value>, max_steps: u64) -> bool {
    forall|i: int|
        0 <= i < es.len() ==> {
            &&& xs[i].ty.spec_integer()
            &&& xs[i].bits <= xs[i].ty.spec_mask()
            &&& (#[trigger] es[i]).steps <= max_steps
            &&& (es[i].outcome matches Outcome::Completed(v) ==> v.ty == xs[i].ty && v.bits
                <= v.ty.spec_mask())
        }
}

/// Text naming a failed comparator run.
fn comparator_failure(outcome: &Outcome) -> (r: String)
    ensures
        r@ == "comparator execution failed: "@ + match outcome {
            Outcome::Completed(_) => "completed"@,
            Outcome::Timeout(_) => "timeout"@,
            Outcome::Trap(_) => "trap"@,
            Outcome::Invalid(_) => "invalid"@,
        },
{
    let mut cs = chars_of("comparator execution failed: ");
    let kind = match outcome {
        Outcome::Completed(_) => "completed",
        Outcome::Timeout(_) => "timeout",
        Outcome::Trap(_) => "trap",
        Outcome::Invalid(_) => "invalid",
    };
    extend_chars(&mut cs, &chars_of(kind));
    string_of(&cs)
}

impl EvaluationSummary {
    /// The summary as ten words: the counts, the steps, the failure
    /// counts, whether there is a selection cost, and its two words.
    pub fn words(&self) -> (r: [u64; 10])
        ensures
            r@ == seq![
                self.noncompleted,
                self.mismatches,
                self.bit_error,
                self.steps,
                self.failures.trap,
                self.failures.timeout,
                self.failures.invalid,
                if self.selection_cost is Some { 1u64 } else { 0u64 },
                if let Some(c) = self.selection_cost { c@[0] } else { 0u64 },
                if let Some(c) = self.selection_cost { c@[1] } else { 0u64 },
            ],
    {
        let (present, hi, lo) = match self.selection_cost {
            Some(c) => (1u64, c[0], c[1]),
            None => (0u64, 0u64, 0u64),
        };
        let r = [
            self.noncompleted,
            self.mismatches,
            self.bit_error,
            self.steps,
            self.failures.trap,
            self.failures.timeout,
            self.failures.invalid,
            present,
            hi,
            lo,
        ];
        assert(r@ =~= seq![
            self.noncompleted,
            self.mismatches,
            self.bit_error,
            self.steps,
            self.failures.trap,
            self.failures.timeout,
            self.failures.invalid,
            present,
            hi,
            lo,
        ]);
        r
    }

    /// The summary of ten words; the presence word must be 0 with zero
    /// cost words, or 1.
    pub fn from_words(w: [u64; 10]) -> (r: Result<EvaluationSummary, String>)
        ensures
            r is Ok <==> (w@[7] == 0 && w@[8] == 0 && w@[9] == 0) || w@[7] == 1,
            r matches Ok(s) ==> s.noncompleted == w@[0] && s.mismatches == w@[1] && s.bit_error
                == w@[2] && s.steps == w@[3] && s.failures.trap == w@[4] && s.failures.timeout
                == w@[5] && s.failures.invalid == w@[6] && (w@[7] == 1 <==> s.selection_cost is Some)
                && (s.selection_cost matches Some(c) ==> c@[0] == w@[8] && c@[1] == w@[9]),
    {
        let selection_cost = if w[7] == 0 && w[8] == 0 && w[9] == 0 {
            None
        } else if w[7] == 1 {
            Some([w[8], w[9]])
        } else {
            return err("invalid summary selection cost");
        };
        Ok(
            EvaluationSummary {
                noncompleted: w[0],
                mismatches: w[1],
                bit_error: w[2],
                steps: w[3],
                failures: Failures { trap: w[4], timeout: w[5], invalid: w[6] },
                selection_cost,
            },
        )
    }

    /// Checks the totals against the number of cases, the return type,
    /// the step budget and the comparator.
    pub fn validate(&self, cases: usize, ty: Type, max_steps: u64, comparator: &ComparatorConfig) -> (r:
        Result<(), String>)
        ensures
            r is Ok <==> summary_ok(*self, cases as nat, ty, max_steps as nat, *comparator),
    {
        let n = cases as u128;
        if (self.noncompleted as u128) > n {
            return err("summary failure count exceeds cases");
        }
        let completed = n - self.noncompleted as u128;
        let mis = self.mismatches as u128;
        let wid = ty.width() as u128;
        let ms = max_steps as u128;
        assert(mis * wid <= 0xffff_ffff_ffff_ffff * 64) by (nonlinear_arith)
            requires
                mis <= 0xffff_ffff_ffff_ffff,
                wid <= 64,
        ;
        assert(n * ms <= 0xffff_ffff_ffff_ffff * 0xffff_ffff_ffff_ffff) by (nonlinear_arith)
            requires
                n <= 0xffff_ffff_ffff_ffff,
                ms <= 0xffff_ffff_ffff_ffff,
        ;
        if self.mismatches as u128 > completed || self.bit_error < self.mismatches
            || self.bit_error as u128 > self.mismatches as u128 * ty.width() as u128 || self.steps as u128
            > n * max_steps as u128 || self.failures.trap as u128 + self.failures.timeout as u128
            + self.failures.invalid as u128 != self.noncompleted as u128 {
            return err("invalid evaluation summary totals");
        }
        let fits = match comparator {
            ComparatorConfig::CorrectnessFirst {} => self.selection_cost.is_none(),
            ComparatorConfig::BitErrorFirst {} => match self.selection_cost {
                Some(c) => c[0] == 0 && c[1] == self.bit_error,
                None => false,
            },
            ComparatorConfig::Gremlin { .. } => match self.selection_cost {
                Some(c) => {
                    let total = (c[0] as u128) * 0x1_0000_0000_0000_0000u128 + c[1] as u128;
                    total <= completed * 0xffff_ffff_ffff_ffffu128
                },
                None => false,
            },
        };
        if !fits {
            return err("evaluation summary comparator mismatch");
        }
        Ok(())
    }
}

/// What a consistent summary satisfies.
pub open spec fn summary_ok(s: EvaluationSummary, cases: nat, ty: Type, max_steps: nat, c: ComparatorConfig) -> bool {
    let completed = cases - s.noncompleted;
    &&& s.noncompleted <= cases
    &&& s.mismatches <= completed
    &&& s.mismatches <= s.bit_error
    &&& s.bit_error <= s.mismatches * ty.spec_width()
    &&& s.steps <= cases * max_steps
    &&& s.failures.trap + s.failures.timeout + s.failures.invalid == s.noncompleted
    &&& match c {
        ComparatorConfig::CorrectnessFirst {} => s.selection_cost is None,
        ComparatorConfig::BitErrorFirst {} => s.selection_cost matches Some(w) && w@[0] == 0 && w@[1]
            == s.bit_error,
        ComparatorConfig::Gremlin { .. } => s.selection_cost matches Some(w) && w@[0]
            * 0x1_0000_0000_0000_0000 + w@[1] <= completed * 0xffff_ffff_ffff_ffff,
    }
}

/// Scores executions against expected values, case by case, keeping the
/// case results when `details` is set.
pub fn score_executions(
    executions: Vec<Execution>,
    expected: &[Value],
    max_steps: u64,
    comparator: &ComparatorConfig,
    details: bool,
) -> (r: Result<(EvaluationSummary, Vec<CaseResult>), String>)
    ensures
        executions@.len() != expected@.len() ==> r is Err,
        r matches Ok((s, cases)) ==> scored(s, cases@, executions@, expected@, max_steps, *comparator, details),
        !(*comparator is Gremlin) ==> (r is Ok <==> scorable(executions@, expected@, max_steps)),
{
    if executions.len() != expected.len() {
        return err("backend returned wrong case count");
    }
    let program = comparator.program()?;
    score_with_program(&executions, expected, max_steps, comparator, &program, details)
}

/// The facts a scoring establishes about its result.
pub open spec fn scored(
    s: EvaluationSummary,
    cases: Seq<CaseResult>,
    es: Seq<Execution>,
    xs: Seq<Value>,
    max_steps: u64,
    c: ComparatorConfig,
    details: bool,
) -> bool {
    let t = tally(es, xs);
    &&& es.len() == xs.len()
    &&& cases_ok(es, xs, max_steps)
    &&& s.steps == t.steps
    &&& s.failures.trap == t.trap
    &&& s.failures.timeout == t.timeout
    &&& s.failures.invalid == t.invalid
    &&& s.noncompleted == t.trap + t.timeout + t.invalid
    &&& s.mismatches == t.mismatches
    &&& s.bit_error == t.bit_error
    &&& (details ==> cases.len() == es.len())
    &&& (!details ==> cases.len() == 0)
    &&& match c {
        ComparatorConfig::CorrectnessFirst {} => s.selection_cost is None,
        ComparatorConfig::BitErrorFirst {} => s.selection_cost matches Some(w) && w@[0] == 0 && w@[1]
            == s.bit_error,
        ComparatorConfig::Gremlin { .. } => s.selection_cost is Some,
    }
}

/// The totals of the first `k` cases.
proof fn lemma_tally_step(es: Seq<Execution>, xs: Seq<Value>, k: int)
    requires
        0 <= k < es.len(),
    ensures
        tally(es.subrange(0, k + 1), xs) == {
            let t = tally(es.subrange(0, k), xs);
            let e = es[k];
            let x = xs[k];
            match e.outcome {
                Outcome::Completed(v) => Tally {
                    steps: t.steps + e.steps as nat,
                    mismatches: t.mismatches + if v.bits != x.bits { 1nat } else { 0nat },
                    bit_error: t.bit_error + popcount(v.bits ^ x.bits),
                    ..t
                },
                Outcome::Trap(_) => Tally { steps: t.steps + e.steps as nat, trap: t.trap + 1, ..t },
                Outcome::Timeout(_) => Tally { steps: t.steps + e.steps as nat, timeout: t.timeout + 1, ..t },
                Outcome::Invalid(_) => Tally { steps: t.steps + e.steps as nat, invalid: t.invalid + 1, ..t },
            }
        },
{
    assert(es.subrange(0, k + 1).drop_last() =~= es.subrange(0, k));
}

/// Scores executions with an already checked comparator program.
#[verifier::rlimit(60)]
pub fn score_with_program(
    executions: &Vec<Execution>,
    expected: &[Value],
    max_steps: u64,
    comparator: &ComparatorConfig,
    program: &Option<Function>,
    details: bool,
) -> (r: Result<(EvaluationSummary, Vec<CaseResult>), String>)
    ensures
        executions@.len() != expected@.len() ==> r is Err,
        r matches Ok((s, cases)) ==> scored(s, cases@, executions@, expected@, max_steps, *comparator, details),
        program is None ==> (r is Ok <==> scorable(executions@, expected@, max_steps)),
{
    if executions.len() != expected.len() {
        return err("backend returned wrong case count");
    }
    let mut scorer: Option<Evaluator> = match program {
        Some(f) => match Evaluator::new(f) {
            Ok(e) => Some(e),
            Err(e) => return Err(e),
        },
        None => None,
    };
    let gremlin_steps: u64 = match comparator {
        ComparatorConfig::Gremlin { max_steps, .. } => *max_steps,
        _ => 0,
    };
    let ghost es = executions@;
    let ghost xs = expected@;
    let n = executions.len();
    let mut steps: u64 = 0;
    let mut trap: u64 = 0;
    let mut timeout: u64 = 0;
    let mut invalid: u64 = 0;
    let mut mismatches: u64 = 0;
    let mut bit_error: u64 = 0;
    let mut custom_sum: u128 = 0;
    let mut cases: Vec<CaseResult> = Vec::new();
    let mut k: usize = 0;
    assert(es.subrange(0, 0) =~= Seq::<Execution>::empty());
    while k < n
        invariant
            0 <= k <= n,
            n == es.len(),
            es == executions@,
            xs == expected@,
            n == xs.len(),
            scorer matches Some(e) ==> e.wf(),
            cases_ok(es.subrange(0, k as int), xs, max_steps),
            steps == tally(es.subrange(0, k as int), xs).steps,
            trap == tally(es.subrange(0, k as int), xs).trap,
            timeout == tally(es.subrange(0, k as int), xs).timeout,
            invalid == tally(es.subrange(0, k as int), xs).invalid,
            mismatches == tally(es.subrange(0, k as int), xs).mismatches,
            bit_error == tally(es.subrange(0, k as int), xs).bit_error,
            trap + timeout + invalid <= k,
            mismatches <= k,
            program is None ==> scorer is None,
            details ==> cases@.len() == k,
            !details ==> cases@.len() == 0,
        decreases n - k,
    {
        let x = expected[k];
        let e = &executions[k];
        proof {
            lemma_tally_step(es, xs, k as int);
            lemma_tally_prefix(es, xs, k + 1);
            lemma_tally_prefix(es.subrange(0, k + 1), xs, k as int);
            assert(es.subrange(0, k + 1).subrange(0, k as int) =~= es.subrange(0, k as int));
        }
        if !x.ty.integer() || x.bits > x.ty.mask() {
            return err("invalid expected value");
        }
        if e.steps > max_steps {
            return err("backend exceeded step budget");
        }
        let new_steps = match steps.checked_add(e.steps) {
            Some(v) => v,
            None => return err("execution step sum overflow"),
        };
        let mut case_bits: Option<u32> = None;
        let mut case_cost: Option<u64> = None;
        match &e.outcome {
            Outcome::Completed(actual) => {
                if actual.ty != x.ty || actual.bits > actual.ty.mask() {
                    return err("backend returned wrong type or bit pattern");
                }
                let error = count_ones(actual.bits ^ x.bits);
                let miss: u64 = if error != 0 {
                    1
                } else {
                    0
                };
                let ab = actual.bits;
                let xb = x.bits;
                assert((error != 0) == (ab != xb)) by {
                    lemma_popcount_zero(ab ^ xb);
                    assert((ab ^ xb) == 0 <==> ab == xb) by (bit_vector);
                }
                let new_bits = match bit_error.checked_add(error as u64) {
                    Some(v) => v,
                    None => return err("bit error sum overflow"),
                };
                let new_miss = match mismatches.checked_add(miss) {
                    Some(v) => v,
                    None => return err("mismatch count overflow"),
                };
                if let Some(ev) = &mut scorer {
                    let args = [Value::new(Type::U64, actual.bits), Value::new(Type::U64, x.bits)];
                    let run = ev.execute(&args, gremlin_steps);
                    match &run.outcome {
                        Outcome::Completed(cost) => {
                            custom_sum = match custom_sum.checked_add(cost.bits as u128) {
                                Some(v) => v,
                                None => return err("comparator cost sum overflow"),
                            };
                            case_cost = Some(cost.bits);
                        },
                        other => {
                            return Err(comparator_failure(other));
                        },
                    }
                }
                bit_error = new_bits;
                mismatches = new_miss;
                case_bits = Some(error);
            },
            Outcome::Trap(_) => {
                trap = trap + 1;
            },
            Outcome::Timeout(_) => {
                timeout = timeout + 1;
            },
            Outcome::Invalid(_) => {
                invalid = invalid + 1;
            },
        }
        steps = new_steps;
        if details {
            cases.push(CaseResult { execution: e.clone(), bit_error: case_bits, custom_cost: case_cost });
        }
        proof {
            assert forall|i: int| 0 <= i < k + 1 implies {
                &&& xs[i].ty.spec_integer()
                &&& xs[i].bits <= xs[i].ty.spec_mask()
                &&& (#[trigger] es.subrange(0, k + 1)[i]).steps <= max_steps
                &&& (es.subrange(0, k + 1)[i].outcome matches Outcome::Completed(v) ==> v.ty == xs[i].ty
                    && v.bits <= v.ty.spec_mask())
            } by {
                if i < k {
                    assert(es.subrange(0, k + 1)[i] == es.subrange(0, k as int)[i]);
                }
            }
        }
        k += 1;
    }
    assert(es.subrange(0, n as int) =~= es);
    let selection_cost = match comparator {
        ComparatorConfig::CorrectnessFirst {} => None,
        ComparatorConfig::BitErrorFirst {} => Some([0u64, bit_error]),
        ComparatorConfig::Gremlin { .. } => Some([(custom_sum >> 64u128) as u64, custom_sum as u64]),
    };
    let summary = EvaluationSummary {
        noncompleted: trap + timeout + invalid,
        mismatches,
        bit_error,
        steps,
        failures: Failures { trap, timeout, invalid },
        selection_cost,
    };
    Ok((summary, cases))
}

/// `popcount(x)` is zero exactly for zero.
proof fn lemma_popcount_zero(x: u64)
    ensures
        (popcount(x) == 0) == (x == 0),
    decreases x,
{
    if x != 0 {
        if x % 2 == 0 {
            lemma_popcount_zero(x / 2);
        }
    }
}

/// Scores several programs' executions against the same expected values.
pub fn summarize_batch(
    results: Vec<Vec<Execution>>,
    expected: &[Value],
    max_steps: u64,
    comparator: &ComparatorConfig,
) -> (r: Result<Vec<EvaluationSummary>, String>)
    ensures
        r matches Ok(v) ==> v@.len() == results@.len() && forall|i: int|
            0 <= i < v@.len() ==> scored(
                #[trigger] v@[i],
                Seq::empty(),
                results@[i]@,
                expected@,
                max_steps,
                *comparator,
                false,
            ),
        !(*comparator is Gremlin) ==> (r is Ok <==> forall|i: int|
            0 <= i < results@.len() ==> scorable(#[trigger] results@[i]@, expected@, max_steps)),
{
    let program = comparator.program()?;
    let mut out: Vec<EvaluationSummary> = Vec::new();
    let mut i: usize = 0;
    while i < results.len()
        invariant
            0 <= i <= results@.len(),
            out@.len() == i,
            forall|j: int|
                0 <= j < i ==> scored(
                    #[trigger] out@[j],
                    Seq::empty(),
                    results@[j]@,
                    expected@,
                    max_steps,
                    *comparator,
                    false,
                ),
            !(*comparator is Gremlin) ==> program is None,
            !(*comparator is Gremlin) ==> forall|j: int|
                0 <= j < i ==> scorable(#[trigger] results@[j]@, expected@, max_steps),
        decreases results@.len() - i,
    {
        let (s, cs) = score_with_program(&results[i], expected, max_steps, comparator, &program, false)?;
        proof {
            assert(cs@ =~= Seq::<CaseResult>::empty());
            assert(scored(s, Seq::empty(), results@[i as int]@, expected@, max_steps, *comparator, false));
        }
        out.push(s);
        proof {
            assert(out@[i as int] == s);
        }
        i += 1;
    }
    Ok(out)
}

} // verus!
