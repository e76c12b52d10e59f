//! The search engine: fitness of candidate programs over a corpus, their
//! ranking, and the generations of an evolutionary search.
use vstd::prelude::*;
use vstd::utf8::encode_utf8;

use crate::comparator::ComparatorConfig;
use crate::corpus::{decode_input, Corpus};
use crate::eval::{same_execution, spec_execute, Evaluator, Execution, Outcome};
use crate::genome::{chain_proposal, genome_ok, lowered, mutate, random_genome, seeds, Genome};
use crate::ir::{ExprM, Function, FunctionM, Id};
use crate::rng::Rng;
use crate::scoring::{scorable, scored, score_executions, summarize_batch, CaseResult, EvaluationSummary, Failures};
use crate::search_config::{constants_ok, parse_constants, SearchConfig};
use crate::sig::Signature;
use crate::normalize::{call_free, normal_form};
use crate::source::{print_source, source_text};
use crate::text::{chars_eq, chars_of, err};
use crate::types::{Type, Value};
use core::cmp::Ordering;

verus! {

/// How good a candidate is on a corpus. Lower is better.
#[derive(Clone, Debug, PartialEq, Eq)]
pub struct Fitness {
    /// Unsigned 128-bit sum as `[high, low]` words.
    pub selection_cost: Option<[u64; 2]>,
    pub corpus_hash: String,
    pub noncompleted_case_count: u64,
    pub mismatching_completed_case_count: u64,
    pub summed_bit_error: u64,
    pub instruction_count: usize,
    pub total_executed_steps: u64,
    pub canonical_program_bytes: Vec<u8>,
    pub cases: Vec<CaseResult>,
}

/// Three-way comparison of integers: -1, 0 or 1.
pub open spec fn three_way(a: int, b: int) -> int {
    if a < b {
        -1
    } else if a > b {
        1
    } else {
        0
    }
}

/// Lexicographic three-way comparison of byte sequences.
pub open spec fn bytes_order(a: Seq<u8>, b: Seq<u8>) -> int
    decreases a.len(),
{
    if a.len() == 0 {
        if b.len() == 0 {
            0
        } else {
            -1
        }
    } else if b.len() == 0 {
        1
    } else if a[0] != b[0] {
        three_way(a[0] as int, b[0] as int)
    } else {
        bytes_order(a.skip(1), b.skip(1))
    }
}

/// Three-way comparison of optional costs: none first, then by high and
/// low word.
pub open spec fn cost_order(a: Option<[u64; 2]>, b: Option<[u64; 2]>) -> int {
    match (a, b) {
        (None, None) => 0,
        (None, Some(_)) => -1,
        (Some(_), None) => 1,
        (Some(x), Some(y)) => if x@[0] != y@[0] {
            three_way(x@[0] as int, y@[0] as int)
        } else {
            three_way(x@[1] as int, y@[1] as int)
        },
    }
}

/// The fitness has neither failed nor mismatching cases.
pub open spec fn spec_matches(f: Fitness) -> bool {
    f.noncompleted_case_count == 0 && f.mismatching_completed_case_count == 0
}

/// The ranking of fitness values: fewer failed cases first; then exact
/// solutions before all others, so that a selection cost can never
/// outrank correctness; then the selection cost; then mismatching cases,
/// bit error, instruction count, steps and program bytes.
pub open spec fn fitness_order(a: Fitness, b: Fitness) -> int {
    if a.noncompleted_case_count != b.noncompleted_case_count {
        three_way(a.noncompleted_case_count as int, b.noncompleted_case_count as int)
    } else if spec_matches(a) != spec_matches(b) {
        if spec_matches(a) {
            -1
        } else {
            1
        }
    } else if cost_order(a.selection_cost, b.selection_cost) != 0 {
        cost_order(a.selection_cost, b.selection_cost)
    } else if a.mismatching_completed_case_count != b.mismatching_completed_case_count {
        three_way(a.mismatching_completed_case_count as int, b.mismatching_completed_case_count as int)
    } else if a.summed_bit_error != b.summed_bit_error {
        three_way(a.summed_bit_error as int, b.summed_bit_error as int)
    } else if a.instruction_count != b.instruction_count {
        three_way(a.instruction_count as int, b.instruction_count as int)
    } else if a.total_executed_steps != b.total_executed_steps {
        three_way(a.total_executed_steps as int, b.total_executed_steps as int)
    } else {
        bytes_order(a.canonical_program_bytes@, b.canonical_program_bytes@)
    }
}

/// The ranking prefers, in turn: fewer cases that did not complete; an
/// exact solution over an inexact one; among equals so far, fewer
/// mismatching cases, then a smaller bit error, then fewer instructions,
/// then fewer executed steps. Each preference holds whatever the later
/// fields are.
pub proof fn law_fitness_preferences(a: Fitness, b: Fitness)
    ensures
        a.noncompleted_case_count < b.noncompleted_case_count ==> fitness_order(a, b) < 0,
        a.noncompleted_case_count == b.noncompleted_case_count && a.mismatching_completed_case_count == 0
            && a.noncompleted_case_count == 0 && b.mismatching_completed_case_count > 0 ==> fitness_order(a, b) < 0,
        a.noncompleted_case_count == b.noncompleted_case_count && a.selection_cost == b.selection_cost
            && a.mismatching_completed_case_count < b.mismatching_completed_case_count && (a.noncompleted_case_count
            != 0 || a.mismatching_completed_case_count != 0) ==> fitness_order(a, b) < 0,
        a.noncompleted_case_count == b.noncompleted_case_count && a.selection_cost == b.selection_cost
            && a.mismatching_completed_case_count == b.mismatching_completed_case_count && a.summed_bit_error
            < b.summed_bit_error ==> fitness_order(a, b) < 0,
        a.noncompleted_case_count == b.noncompleted_case_count && a.selection_cost == b.selection_cost
            && a.mismatching_completed_case_count == b.mismatching_completed_case_count && a.summed_bit_error
            == b.summed_bit_error && a.instruction_count < b.instruction_count ==> fitness_order(a, b) < 0,
        a.noncompleted_case_count == b.noncompleted_case_count && a.selection_cost == b.selection_cost
            && a.mismatching_completed_case_count == b.mismatching_completed_case_count && a.summed_bit_error
            == b.summed_bit_error && a.instruction_count == b.instruction_count && a.total_executed_steps
            < b.total_executed_steps ==> fitness_order(a, b) < 0,
{
    if a.selection_cost == b.selection_cost {
        match a.selection_cost {
            Some(x) => {
                assert(cost_order(a.selection_cost, b.selection_cost) == 0);
            },
            None => {},
        }
    }
}

/// `bytes_order` is antisymmetric and is zero exactly on equal bytes.
pub proof fn lemma_bytes_order_antisymmetric(a: Seq<u8>, b: Seq<u8>)
    ensures
        bytes_order(a, b) == -bytes_order(b, a),
        bytes_order(a, b) == 0 <==> a == b,
        -1 <= bytes_order(a, b) <= 1,
    decreases a.len(),
{
    if a.len() == 0 && b.len() == 0 {
        assert(a =~= b);
    } else if a.len() > 0 && b.len() > 0 && a[0] == b[0] {
        lemma_bytes_order_antisymmetric(a.skip(1), b.skip(1));
        if a.skip(1) == b.skip(1) {
            assert(a =~= seq![a[0]] + a.skip(1));
            assert(b =~= seq![b[0]] + b.skip(1));
        }
    }
}

/// `bytes_order` is transitive.
pub proof fn lemma_bytes_order_transitive(a: Seq<u8>, b: Seq<u8>, c: Seq<u8>)
    requires
        bytes_order(a, b) <= 0,
        bytes_order(b, c) <= 0,
    ensures
        bytes_order(a, c) <= 0,
    decreases a.len(),
{
    lemma_bytes_order_antisymmetric(a, b);
    lemma_bytes_order_antisymmetric(b, c);
    lemma_bytes_order_antisymmetric(a, c);
    if a.len() > 0 && b.len() > 0 && c.len() > 0 && a[0] == b[0] && b[0] == c[0] {
        lemma_bytes_order_transitive(a.skip(1), b.skip(1), c.skip(1));
    }
}

/// The ranking of fitness values is antisymmetric.
pub proof fn lemma_fitness_order_antisymmetric(a: Fitness, b: Fitness)
    ensures
        fitness_order(a, b) == -fitness_order(b, a),
        -1 <= fitness_order(a, b) <= 1,
{
    lemma_bytes_order_antisymmetric(a.canonical_program_bytes@, b.canonical_program_bytes@);
}

/// The ranking of fitness values is transitive.
pub proof fn lemma_fitness_order_transitive(a: Fitness, b: Fitness, c: Fitness)
    requires
        fitness_order(a, b) <= 0,
        fitness_order(b, c) <= 0,
    ensures
        fitness_order(a, c) <= 0,
{
    lemma_bytes_order_antisymmetric(a.canonical_program_bytes@, b.canonical_program_bytes@);
    lemma_bytes_order_antisymmetric(b.canonical_program_bytes@, c.canonical_program_bytes@);
    lemma_bytes_order_antisymmetric(a.canonical_program_bytes@, c.canonical_program_bytes@);
    if bytes_order(a.canonical_program_bytes@, b.canonical_program_bytes@) <= 0 && bytes_order(
        b.canonical_program_bytes@,
        c.canonical_program_bytes@,
    ) <= 0 {
        lemma_bytes_order_transitive(
            a.canonical_program_bytes@,
            b.canonical_program_bytes@,
            c.canonical_program_bytes@,
        );
    }
}

/// A strictly better fitness stays strictly better than anything no
/// better than the one it beats, and the other way round.
pub proof fn lemma_fitness_order_strict(a: Fitness, b: Fitness, c: Fitness)
    requires
        fitness_order(a, b) <= 0,
        fitness_order(b, c) <= 0,
        fitness_order(a, b) < 0 || fitness_order(b, c) < 0,
    ensures
        fitness_order(a, c) < 0,
{
    lemma_fitness_order_transitive(a, b, c);
    lemma_fitness_order_antisymmetric(a, b);
    lemma_fitness_order_antisymmetric(b, c);
    lemma_fitness_order_antisymmetric(a, c);
    if fitness_order(a, c) == 0 {
        if fitness_order(a, b) < 0 {
            lemma_fitness_order_transitive(b, c, a);
        } else {
            lemma_fitness_order_transitive(c, a, b);
        }
    }
}

fn compare_u64(a: u64, b: u64) -> (r: i8)
    ensures
        r as int == three_way(a as int, b as int),
{
    if a < b {
        -1
    } else if a > b {
        1
    } else {
        0
    }
}

fn compare_bytes_at(a: &Vec<u8>, b: &Vec<u8>, i: usize) -> (r: i8)
    requires
        i <= a@.len(),
        i <= b@.len(),
    ensures
        r as int == bytes_order(a@.skip(i as int), b@.skip(i as int)),
    decreases a@.len() - i,
{
    let ghost x = a@.skip(i as int);
    let ghost y = b@.skip(i as int);
    if i == a.len() {
        return if i == b.len() {
            0
        } else {
            -1
        };
    }
    if i == b.len() {
        return 1;
    }
    assert(x[0] == a@[i as int] && y[0] == b@[i as int]);
    if a[i] != b[i] {
        return compare_u64(a[i] as u64, b[i] as u64);
    }
    let r = compare_bytes_at(a, b, i + 1);
    assert(x.skip(1) =~= a@.skip(i + 1));
    assert(y.skip(1) =~= b@.skip(i + 1));
    r
}

impl Fitness {
    /// The candidate matched every case.
    pub fn matches(&self) -> (r: bool)
        ensures
            r == spec_matches(*self),
    {
        self.noncompleted_case_count == 0 && self.mismatching_completed_case_count == 0
    }

    /// Three-way comparison by the ranking: -1, 0 or 1.
    pub fn compare(&self, other: &Fitness) -> (r: i8)
        ensures
            r as int == fitness_order(*self, *other),
    {
        if self.noncompleted_case_count != other.noncompleted_case_count {
            return compare_u64(self.noncompleted_case_count, other.noncompleted_case_count);
        }
        let a = self.matches();
        let b = other.matches();
        if a != b {
            return if a {
                -1
            } else {
                1
            };
        }
        let c = match (self.selection_cost, other.selection_cost) {
            (None, None) => 0,
            (None, Some(_)) => -1,
            (Some(_), None) => 1,
            (Some(x), Some(y)) => if x[0] != y[0] {
                compare_u64(x[0], y[0])
            } else {
                compare_u64(x[1], y[1])
            },
        };
        if c != 0 {
            return c;
        }
        if self.mismatching_completed_case_count != other.mismatching_completed_case_count {
            return compare_u64(
                self.mismatching_completed_case_count,
                other.mismatching_completed_case_count,
            );
        }
        if self.summed_bit_error != other.summed_bit_error {
            return compare_u64(self.summed_bit_error, other.summed_bit_error);
        }
        if self.instruction_count != other.instruction_count {
            return compare_u64(self.instruction_count as u64, other.instruction_count as u64);
        }
        if self.total_executed_steps != other.total_executed_steps {
            return compare_u64(self.total_executed_steps, other.total_executed_steps);
        }
        assert(self.canonical_program_bytes@.skip(0) =~= self.canonical_program_bytes@);
        assert(other.canonical_program_bytes@.skip(0) =~= other.canonical_program_bytes@);
        compare_bytes_at(&self.canonical_program_bytes, &other.canonical_program_bytes, 0)
    }
}

/// The ordering of a three-way comparison result.
pub open spec fn ordering_of(c: int) -> Ordering {
    if c < 0 {
        Ordering::Less
    } else if c > 0 {
        Ordering::Greater
    } else {
        Ordering::Equal
    }
}

impl PartialOrd for Fitness {
    fn partial_cmp(&self, other: &Fitness) -> (r: Option<Ordering>) {
        let c = self.compare(other);
        if c < 0 {
            Some(Ordering::Less)
        } else if c > 0 {
            Some(Ordering::Greater)
        } else {
            Some(Ordering::Equal)
        }
    }
}

impl vstd::std_specs::cmp::PartialOrdSpecImpl for Fitness {
    open spec fn obeys_partial_cmp_spec() -> bool {
        true
    }

    open spec fn partial_cmp_spec(&self, other: &Fitness) -> Option<Ordering> {
        Some(ordering_of(fitness_order(*self, *other)))
    }
}

/// A candidate and its fitness.
#[derive(Clone, Debug, PartialEq, Eq)]
pub struct Individual {
    pub genome: Genome,
    pub fitness: Fitness,
}

/// The state of a search between generations.
#[derive(Clone, Debug, PartialEq, Eq)]
pub struct SearchState {
    pub generation: usize,
    pub rng: Rng,
    pub enumeration_cursor: u64,
    pub population: Vec<Individual>,
    pub best: Individual,
    pub evaluation_count: u64,
    pub failures: Failures,
}

/// Runs candidate programs on inputs.
pub trait Backend {
    /// The executions of every function on every input, function by
    /// function.
    fn evaluate(&self, functions: &Vec<Function>, inputs: &Vec<Vec<Value>>, max_steps: u64) -> (r:
        Result<Vec<Vec<Execution>>, String>)
        ensures
            r matches Ok(v) ==> v@.len() == functions@.len(),
    ;
}

/// `rows` are the runs of the normal form `m` of `f` on every input.
pub open spec fn runs_all(rows: Seq<Execution>, m: FunctionM, f: FunctionM, inputs: Seq<Vec<Value>>, max_steps: u64) -> bool {
    &&& normal_form(f, m)
    &&& rows.len() == inputs.len()
    &&& forall|k: int| 0 <= k < rows.len() ==> (#[trigger] rows[k]).run_view() == spec_execute(m, inputs[k]@, max_steps as nat)
}

/// `rows` are the runs of some normal form of `f` on every input.
pub open spec fn runs_normal_form(rows: Seq<Execution>, f: FunctionM, inputs: Seq<Vec<Value>>, max_steps: u64) -> bool {
    exists|m: FunctionM| #[trigger] runs_all(rows, m, f, inputs, max_steps)
}

/// The interpreter of this library as a backend.
pub struct CpuBackend;

impl Backend for CpuBackend {
    fn evaluate(&self, functions: &Vec<Function>, inputs: &Vec<Vec<Value>>, max_steps: u64) -> (r:
        Result<Vec<Vec<Execution>>, String>)
        ensures
            r matches Ok(v) ==> v@.len() == functions@.len() && forall|i: int|
                0 <= i < v@.len() ==> #[trigger] runs_normal_form(v@[i]@, functions@[i]@, inputs@, max_steps),
            (exists|i: int| 0 <= i < functions@.len() && !call_free((#[trigger] functions@[i])@)) ==> r is Err,
            (forall|i: int|
                0 <= i < functions@.len() ==> call_free((#[trigger] functions@[i])@) && crate::normalize::normalizable(
                    functions@[i]@,
                )) ==> r is Ok,
    {
        let mut out: Vec<Vec<Execution>> = Vec::new();
        let mut i: usize = 0;
        while i < functions.len()
            invariant
                0 <= i <= functions@.len(),
                out@.len() == i,
                forall|j: int|
                    0 <= j < i ==> #[trigger] runs_normal_form(out@[j]@, functions@[j]@, inputs@, max_steps),
                forall|j: int| 0 <= j < i ==> call_free((#[trigger] functions@[j])@),
            decreases functions@.len() - i,
        {
            let mut evaluator = Evaluator::new(&functions[i])?;
            let ghost m = evaluator.model();
            let mut rows: Vec<Execution> = Vec::new();
            let mut k: usize = 0;
            while k < inputs.len()
                invariant
                    0 <= k <= inputs@.len(),
                    evaluator.wf(),
                    evaluator.model() == m,
                    rows@.len() == k,
                    forall|q: int|
                        0 <= q < k ==> (#[trigger] rows@[q]).run_view() == spec_execute(m, inputs@[q]@, max_steps as nat),
                decreases inputs@.len() - k,
            {
                rows.push(evaluator.execute(&inputs[k], max_steps));
                k += 1;
            }
            assert(runs_all(rows@, m, functions@[i as int]@, inputs@, max_steps));
            out.push(rows);
            i += 1;
        }
        Ok(out)
    }
}


/// The bytes of the canonical source of a valid function; programs are
/// ranked by them last.
pub fn canonical_bytes(f: &Function) -> (r: Result<Vec<u8>, String>)
    ensures
        r is Ok ==> crate::validate::shape_ok(f@) && crate::validate::wf(f@),
        crate::normalize::normalizable(f@) ==> r is Ok,
        r matches Ok(b) ==> exists|g: FunctionM|
            normal_form(f@, g) && b@ == encode_utf8(#[trigger] source_text(g, "candidate"@)),
{
    let text = print_source(f)?;
    let bytes = text.as_str().as_bytes();
    let mut out: Vec<u8> = Vec::new();
    let mut i: usize = 0;
    while i < bytes.len()
        invariant
            0 <= i <= bytes@.len(),
            out@ == bytes@.take(i as int),
        decreases bytes@.len() - i,
    {
        out.push(bytes[i]);
        i += 1;
        assert(out@ =~= bytes@.take(i as int));
    }
    assert(bytes@.take(i as int) =~= bytes@);
    assert(bytes@ == encode_utf8(text@));
    Ok(out)
}

/// Equal optional two-word costs.
fn same_cost(a: Option<[u64; 2]>, b: Option<[u64; 2]>) -> (r: bool)
    ensures
        r == (cost_view(a) == cost_view(b)),
{
    match (a, b) {
        (None, None) => true,
        (Some(x), Some(y)) => {
            let r = x[0] == y[0] && x[1] == y[1];
            proof {
                if r {
                    assert(x@ =~= y@);
                }
            }
            r
        },
        _ => false,
    }
}

/// Equal strings.
fn same_string(a: &String, b: &String) -> (r: bool)
    ensures
        r == (a@ == b@),
{
    let x = chars_of(a.as_str());
    let y = chars_of(b.as_str());
    chars_eq(&x, &y)
}

/// Equal byte vectors.
fn same_bytes(a: &Vec<u8>, b: &Vec<u8>) -> (r: bool)
    ensures
        r == (a@ == b@),
{
    if a.len() != b.len() {
        return false;
    }
    let mut i: usize = 0;
    while i < a.len()
        invariant
            0 <= i <= a@.len(),
            a@.len() == b@.len(),
            forall|j: int| 0 <= j < i ==> a@[j] == b@[j],
        decreases a@.len() - i,
    {
        if a[i] != b[i] {
            return false;
        }
        i += 1;
    }
    assert(a@ =~= b@);
    true
}

/// Equal case results.
fn same_cases(a: &Vec<CaseResult>, b: &Vec<CaseResult>) -> (r: bool)
    ensures
        r == (cases_view(a@) == cases_view(b@)),
{
    if a.len() != b.len() {
        assert(cases_view(a@).len() != cases_view(b@).len());
        return false;
    }
    let mut i: usize = 0;
    while i < a.len()
        invariant
            0 <= i <= a@.len(),
            a@.len() == b@.len(),
            forall|j: int| 0 <= j < i ==> case_view(a@[j]) == case_view(b@[j]),
        decreases a@.len() - i,
    {
        assert(cases_view(a@)[i as int] == case_view(a@[i as int]));
        assert(cases_view(b@)[i as int] == case_view(b@[i as int]));
        let x = &a[i];
        let y = &b[i];
        if !same_execution(&x.execution, &y.execution) {
            return false;
        }
        let bits = match (x.bit_error, y.bit_error) {
            (None, None) => true,
            (Some(p), Some(q)) => p == q,
            _ => false,
        };
        let cost = match (x.custom_cost, y.custom_cost) {
            (None, None) => true,
            (Some(p), Some(q)) => p == q,
            _ => false,
        };
        if !bits || !cost {
            return false;
        }
        i += 1;
    }
    assert(cases_view(a@) =~= cases_view(b@));
    true
}

pub open spec fn cost_view(c: Option<[u64; 2]>) -> Option<Seq<u64>> {
    match c {
        Some(x) => Some(x@),
        None => None,
    }
}

/// A case result as plain values.
pub open spec fn case_view(c: CaseResult) -> (crate::eval::ExecutionM, Option<u32>, Option<u64>) {
    (c.execution@, c.bit_error, c.custom_cost)
}

pub open spec fn cases_view(cs: Seq<CaseResult>) -> Seq<(crate::eval::ExecutionM, Option<u32>, Option<u64>)> {
    cs.map_values(|c: CaseResult| case_view(c))
}

/// A fitness as plain values.
pub open spec fn fitness_view(f: Fitness) -> (
    Option<Seq<u64>>,
    Seq<char>,
    (u64, u64, u64, usize, u64),
    Seq<u8>,
    Seq<(crate::eval::ExecutionM, Option<u32>, Option<u64>)>,
) {
    (
        cost_view(f.selection_cost),
        f.corpus_hash@,
        (
            f.noncompleted_case_count,
            f.mismatching_completed_case_count,
            f.summed_bit_error,
            f.instruction_count,
            f.total_executed_steps,
        ),
        f.canonical_program_bytes@,
        cases_view(f.cases@),
    )
}

/// A genome as plain values.
pub open spec fn genome_view(g: Genome) -> (Option<FunctionM>, Seq<(Type, ExprM)>, Id) {
    (
        match g.cfg {
            Some(f) => Some(f@),
            None => None,
        },
        crate::genome::genes_view(g),
        g.output,
    )
}

/// Genomes with the same model are kept or refused alike.
pub proof fn lemma_same_genome_ok(a: Genome, b: Genome, s: Signature, c: SearchConfig)
    requires
        genome_view(a) == genome_view(b),
    ensures
        genome_ok(a, s, c) == genome_ok(b, s, c),
{
    assert(lowered(a, s) == lowered(b, s));
}

impl Fitness {
    /// Field by field equality.
    pub fn same(&self, other: &Fitness) -> (r: bool)
        ensures
            r == (fitness_view(*self) == fitness_view(*other)),
    {
        same_cost(self.selection_cost, other.selection_cost) && same_string(
            &self.corpus_hash,
            &other.corpus_hash,
        ) && self.noncompleted_case_count == other.noncompleted_case_count
            && self.mismatching_completed_case_count == other.mismatching_completed_case_count
            && self.summed_bit_error == other.summed_bit_error && self.instruction_count
            == other.instruction_count && self.total_executed_steps == other.total_executed_steps
            && same_bytes(&self.canonical_program_bytes, &other.canonical_program_bytes) && same_cases(
            &self.cases,
            &other.cases,
        )
    }
}

impl Individual {
    /// Field by field equality.
    pub fn same(&self, other: &Individual) -> (r: bool)
        ensures
            r == (genome_view(self.genome) == genome_view(other.genome) && fitness_view(self.fitness)
                == fitness_view(other.fitness)),
    {
        self.genome.same(&other.genome) && self.fitness.same(&other.fitness)
    }
}

impl Genome {
    /// Field by field equality.
    pub fn same(&self, other: &Genome) -> (r: bool)
        ensures
            r == (genome_view(*self) == genome_view(*other)),
    {
        if self.output != other.output {
            return false;
        }
        if self.genes.len() != other.genes.len() {
            assert(genome_view(*self).1.len() != genome_view(*other).1.len());
            return false;
        }
        let ghost gs = self.genes@.map_values(|x: crate::genome::Gene| crate::genome::gene_view(x));
        let ghost hs = other.genes@.map_values(|x: crate::genome::Gene| crate::genome::gene_view(x));
        let mut i: usize = 0;
        while i < self.genes.len()
            invariant
                0 <= i <= self.genes@.len(),
                self.genes@.len() == other.genes@.len(),
                gs == self.genes@.map_values(|x: crate::genome::Gene| crate::genome::gene_view(x)),
                hs == other.genes@.map_values(|x: crate::genome::Gene| crate::genome::gene_view(x)),
                forall|j: int| 0 <= j < i ==> gs[j] == hs[j],
            decreases self.genes@.len() - i,
        {
            assert(gs[i as int] == crate::genome::gene_view(self.genes@[i as int]));
            assert(hs[i as int] == crate::genome::gene_view(other.genes@[i as int]));
            if self.genes[i].ty != other.genes[i].ty || !crate::ir::same_expr(
                &self.genes[i].expr,
                &other.genes[i].expr,
            ) {
                return false;
            }
            i += 1;
        }
        assert(gs =~= hs);
        match (&self.cfg, &other.cfg) {
            (None, None) => true,
            (Some(f), Some(g)) => crate::ir::same_function(f, g),
            _ => false,
        }
    }
}

/// Position `i` of a population ranks before position `j`: its fitness
/// is better, or equal and `i` comes first.
pub open spec fn ranks_before(pop: Seq<Individual>, i: int, j: int) -> bool {
    fitness_order(pop[i].fitness, pop[j].fitness) < 0 || (fitness_order(pop[i].fitness, pop[j].fitness)
        == 0 && i < j)
}

/// The positions listed strictly increase in rank.
pub open spec fn ranked(pop: Seq<Individual>, order: Seq<usize>) -> bool {
    forall|k: int, l: int|
        0 <= k < l < order.len() ==> ranks_before(pop, #[trigger] order[k] as int, #[trigger] order[l] as int)
}

/// `order` lists every position of the population exactly once, in
/// ranking order.
pub open spec fn ranking(pop: Seq<Individual>, order: Seq<usize>) -> bool {
    &&& order.len() == pop.len()
    &&& forall|k: int| 0 <= k < order.len() ==> (#[trigger] order[k]) < pop.len()
    &&& ranked(pop, order)
}

/// Ranking positions is transitive.
pub proof fn lemma_ranks_before_transitive(pop: Seq<Individual>, x: int, y: int, z: int)
    requires
        ranks_before(pop, x, y),
        ranks_before(pop, y, z),
    ensures
        ranks_before(pop, x, z),
{
    let (a, b, c) = (pop[x].fitness, pop[y].fitness, pop[z].fitness);
    lemma_fitness_order_transitive(a, b, c);
    if fitness_order(a, b) < 0 || fitness_order(b, c) < 0 {
        lemma_fitness_order_strict(a, b, c);
    }
}

/// No position ranks before itself, so a ranked list repeats none.
pub proof fn lemma_ranked_distinct(pop: Seq<Individual>, order: Seq<usize>)
    requires
        ranked(pop, order),
    ensures
        forall|k: int, l: int| 0 <= k < l < order.len() ==> order[k] != order[l],
{
    assert forall|k: int, l: int| 0 <= k < l < order.len() implies order[k] != order[l] by {
        assert(ranks_before(pop, order[k] as int, order[l] as int));
        lemma_fitness_order_antisymmetric(pop[order[k] as int].fitness, pop[order[k] as int].fitness);
    }
}

/// Merges two ranked lists of positions, the first from `lo..mid`, the
/// second from `mid..hi`.
#[verifier::spinoff_prover]
fn merge_ranked(
    population: &Vec<Individual>,
    left: &Vec<usize>,
    right: &Vec<usize>,
    lo: usize,
    mid: usize,
    hi: usize,
) -> (r: Vec<usize>)
    requires
        lo <= mid <= hi <= population@.len(),
        ranked(population@, left@),
        ranked(population@, right@),
        forall|k: int| 0 <= k < left@.len() ==> lo <= #[trigger] left@[k] < mid,
        forall|k: int| 0 <= k < right@.len() ==> mid <= #[trigger] right@[k] < hi,
        left@.len() + right@.len() <= hi - lo,
    ensures
        r@.len() == left@.len() + right@.len(),
        ranked(population@, r@),
        forall|k: int| 0 <= k < r@.len() ==> lo <= #[trigger] r@[k] < hi,
{
    let ghost pop = population@;
    let mut out: Vec<usize> = Vec::new();
    let mut a: usize = 0;
    let mut b: usize = 0;
    while a < left.len() || b < right.len()
        invariant
            0 <= a <= left@.len(),
            0 <= b <= right@.len(),
            pop == population@,
            lo <= mid <= hi <= pop.len(),
            ranked(pop, left@),
            ranked(pop, right@),
            forall|k: int| 0 <= k < left@.len() ==> lo <= #[trigger] left@[k] < mid,
            forall|k: int| 0 <= k < right@.len() ==> mid <= #[trigger] right@[k] < hi,
            out@.len() == a + b,
            ranked(pop, out@),
            forall|k: int| 0 <= k < out@.len() ==> lo <= #[trigger] out@[k] < hi,
            forall|k: int, j: int|
                0 <= k < out@.len() && a <= j < left@.len() ==> ranks_before(
                    pop,
                    #[trigger] out@[k] as int,
                    #[trigger] left@[j] as int,
                ),
            forall|k: int, j: int|
                0 <= k < out@.len() && b <= j < right@.len() ==> ranks_before(
                    pop,
                    #[trigger] out@[k] as int,
                    #[trigger] right@[j] as int,
                ),
        decreases (left@.len() - a) + (right@.len() - b),
    {
        let take_left = a < left.len() && (b >= right.len() || population[right[b]].fitness.compare(
            &population[left[a]].fitness,
        ) >= 0);
        if take_left {
            let x = left[a];
            proof {
                if b < right@.len() {
                    lemma_fitness_order_antisymmetric(pop[right@[b as int] as int].fitness, pop[x as int].fitness);
                    assert(ranks_before(pop, x as int, right@[b as int] as int));
                }
                assert forall|j: int| b <= j < right@.len() implies ranks_before(
                    pop,
                    x as int,
                    #[trigger] right@[j] as int,
                ) by {
                    if j > b {
                        assert(ranks_before(pop, right@[b as int] as int, right@[j] as int));
                        lemma_ranks_before_transitive(pop, x as int, right@[b as int] as int, right@[j] as int);
                    }
                }
                assert forall|j: int| a < j < left@.len() implies ranks_before(
                    pop,
                    x as int,
                    #[trigger] left@[j] as int,
                ) by {
                    assert(ranks_before(pop, left@[a as int] as int, left@[j] as int));
                }
            }
            out.push(x);
            a += 1;
            proof {
                assert forall|k: int, l: int| 0 <= k < l < out@.len() implies ranks_before(
                    pop,
                    #[trigger] out@[k] as int,
                    #[trigger] out@[l] as int,
                ) by {
                    if l == out@.len() - 1 {
                        assert(out@[l] == x);
                        assert(ranks_before(pop, out@[k] as int, left@[a - 1] as int));
                    }
                }
                assert forall|k: int, j: int| 0 <= k < out@.len() && b <= j < right@.len() implies ranks_before(
                    pop,
                    #[trigger] out@[k] as int,
                    #[trigger] right@[j] as int,
                ) by {
                    if k == out@.len() - 1 {
                        assert(out@[k] == x);
                    }
                }
                assert forall|k: int, j: int| 0 <= k < out@.len() && a <= j < left@.len() implies ranks_before(
                    pop,
                    #[trigger] out@[k] as int,
                    #[trigger] left@[j] as int,
                ) by {
                    if k == out@.len() - 1 {
                        assert(out@[k] == x);
                    } else {
                        assert(ranks_before(pop, out@[k] as int, left@[j] as int));
                    }
                }
            }
        } else {
            let y = right[b];
            proof {
                if a < left@.len() {
                    lemma_fitness_order_antisymmetric(pop[y as int].fitness, pop[left@[a as int] as int].fitness);
                    assert(ranks_before(pop, y as int, left@[a as int] as int));
                }
                assert forall|j: int| a <= j < left@.len() implies ranks_before(
                    pop,
                    y as int,
                    #[trigger] left@[j] as int,
                ) by {
                    if j > a {
                        assert(ranks_before(pop, left@[a as int] as int, left@[j] as int));
                        lemma_ranks_before_transitive(pop, y as int, left@[a as int] as int, left@[j] as int);
                    }
                }
                assert forall|j: int| b < j < right@.len() implies ranks_before(
                    pop,
                    y as int,
                    #[trigger] right@[j] as int,
                ) by {
                    assert(ranks_before(pop, right@[b as int] as int, right@[j] as int));
                }
            }
            out.push(y);
            b += 1;
            proof {
                assert forall|k: int, l: int| 0 <= k < l < out@.len() implies ranks_before(
                    pop,
                    #[trigger] out@[k] as int,
                    #[trigger] out@[l] as int,
                ) by {
                    if l == out@.len() - 1 {
                        assert(out@[l] == y);
                        assert(ranks_before(pop, out@[k] as int, right@[b - 1] as int));
                    }
                }
                assert forall|k: int, j: int| 0 <= k < out@.len() && a <= j < left@.len() implies ranks_before(
                    pop,
                    #[trigger] out@[k] as int,
                    #[trigger] left@[j] as int,
                ) by {
                    if k == out@.len() - 1 {
                        assert(out@[k] == y);
                    }
                }
                assert forall|k: int, j: int| 0 <= k < out@.len() && b <= j < right@.len() implies ranks_before(
                    pop,
                    #[trigger] out@[k] as int,
                    #[trigger] right@[j] as int,
                ) by {
                    if k == out@.len() - 1 {
                        assert(out@[k] == y);
                    } else {
                        assert(ranks_before(pop, out@[k] as int, right@[j] as int));
                    }
                }
            }
        }
    }
    out
}

/// The positions `lo..hi` of a population in ranking order.
fn ranked_range(population: &Vec<Individual>, lo: usize, hi: usize) -> (r: Vec<usize>)
    requires
        lo <= hi <= population@.len(),
    ensures
        r@.len() == hi - lo,
        ranked(population@, r@),
        forall|k: int| 0 <= k < r@.len() ==> lo <= #[trigger] r@[k] < hi,
    decreases hi - lo,
{
    if hi - lo <= 1 {
        let mut out: Vec<usize> = Vec::new();
        if hi > lo {
            out.push(lo);
        }
        return out;
    }
    let mid = lo + (hi - lo) / 2;
    let left = ranked_range(population, lo, mid);
    let right = ranked_range(population, mid, hi);
    merge_ranked(population, &left, &right, lo, mid, hi)
}

/// The positions of a population in ranking order, equal fitness in
/// the order in which they stand.
fn ranking_order(population: &Vec<Individual>) -> (r: Vec<usize>)
    ensures
        ranking(population@, r@),
{
    ranked_range(population, 0, population.len())
}

/// `new` holds the genomes of `old`, each once, the one at `k` taken
/// from position `order[k]`.
pub open spec fn reorders_genomes(new: Seq<Individual>, old: Seq<Individual>, order: Seq<usize>) -> bool {
    &&& order.len() == old.len()
    &&& new.len() == old.len()
    &&& forall|k: int, l: int| 0 <= k < l < order.len() ==> order[k] != order[l]
    &&& forall|k: int|
        0 <= k < order.len() ==> (#[trigger] order[k]) < order.len() && genome_view(new[k].genome)
            == genome_view(old[order[k] as int].genome)
}

/// `fit` is the fitness of running the normal form `g` on every case:
/// `es` are the runs, `s` their scoring against the expected values with
/// the configured comparator and step budget.
pub open spec fn fitness_from_runs(
    fit: Fitness,
    g: FunctionM,
    es: Seq<Execution>,
    s: EvaluationSummary,
    cases: Seq<(Seq<Value>, Value)>,
    c: SearchConfig,
) -> bool {
    &&& es.len() == cases.len()
    &&& forall|i: int| 0 <= i < es.len() ==> (#[trigger] es[i]).run_view() == spec_execute(g, cases[i].0, c.max_steps as nat)
    &&& scored(s, fit.cases@, es, cases.map_values(|x: (Seq<Value>, Value)| x.1), c.max_steps, c.comparator, true)
    &&& fit.noncompleted_case_count == s.noncompleted
    &&& fit.mismatching_completed_case_count == s.mismatches
    &&& fit.summed_bit_error == s.bit_error
    &&& fit.total_executed_steps == s.steps
    &&& fit.selection_cost == s.selection_cost
}

/// `es` are the runs of `m` on every case and cannot be scored against
/// the expected values.
pub open spec fn unscorable_runs(es: Seq<Execution>, m: FunctionM, cases: Seq<(Seq<Value>, Value)>, c: SearchConfig) -> bool {
    &&& es.len() == cases.len()
    &&& forall|i: int| 0 <= i < es.len() ==> (#[trigger] es[i]).run_view() == spec_execute(m, cases[i].0, c.max_steps as nat)
    &&& !scorable(es, cases.map_values(|x: (Seq<Value>, Value)| x.1), c.max_steps)
}

/// Every individual's fitness orders at or before the next ones'.
pub open spec fn sorted_by_fitness(pop: Seq<Individual>) -> bool {
    forall|k: int, l: int|
        0 <= k < l < pop.len() ==> fitness_order((#[trigger] pop[k]).fitness, (#[trigger] pop[l]).fitness) <= 0
}

/// The population sorted by ranking; equal fitness keeps its order.
#[verifier::spinoff_prover]
pub fn sort_population(population: Vec<Individual>) -> (r: Vec<Individual>)
    ensures
        sorted_by_fitness(r@),
        exists|order: Seq<usize>|
            ranking(population@, order) && r@.len() == order.len() && forall|k: int|
                0 <= k < order.len() ==> r@[k] == population@[#[trigger] order[k] as int],
{
    let order = ranking_order(&population);
    proof {
        lemma_ranked_distinct(population@, order@);
    }
    let ghost pop = population@;
    let n = population.len();
    let mut rest = population;
    let mut slots: Vec<Option<Individual>> = Vec::new();
    while rest.len() > 0
        invariant
            rest@.len() + slots@.len() == n,
            rest@ == pop.take(rest@.len() as int),
            n == pop.len(),
            forall|p: int| 0 <= p < slots@.len() ==> slots@[p] == Some(pop[n - 1 - p]),
        decreases rest@.len(),
    {
        let x = rest.pop().unwrap();
        slots.push(Some(x));
        proof {
            assert(rest@ =~= pop.take(rest@.len() as int));
        }
    }
    let mut out: Vec<Individual> = Vec::new();
    let mut k: usize = 0;
    while k < n
        invariant
            0 <= k <= n,
            n == pop.len(),
            slots@.len() == n,
            ranking(pop, order@),
            forall|i: int, j: int| 0 <= i < j < order@.len() ==> order@[i] != order@[j],
            out@.len() == k,
            forall|i: int| 0 <= i < k ==> out@[i] == pop[#[trigger] order@[i] as int],
            forall|i: int|
                k <= i < n ==> slots@[n - 1 - (#[trigger] order@[i])] == Some(pop[order@[i] as int]),
        decreases n - k,
    {
        let q = n - 1 - order[k];
        let mut taken: Option<Individual> = None;
        slots.set_and_swap(q, &mut taken);
        proof {
            assert forall|i: int| k < i < n implies slots@[n - 1 - (#[trigger] order@[i])] == Some(
                pop[order@[i] as int],
            ) by {
                assert(order@[i] != order@[k as int]);
            }
        }
        match taken {
            Some(x) => {
                out.push(x);
            },
            None => {
                assert(false);
            },
        }
        k += 1;
    }
    proof {
        assert forall|k: int, l: int| 0 <= k < l < out@.len() implies fitness_order(
            (#[trigger] out@[k]).fitness,
            (#[trigger] out@[l]).fitness,
        ) <= 0 by {
            assert(ranks_before(pop, order@[k] as int, order@[l] as int));
        }
    }
    out
}

/// The search over candidate programs for one corpus.
pub struct Engine {
    backend: Box<dyn Backend>,
    signature: Signature,
    config: SearchConfig,
    corpus_hash: String,
    cases: Vec<(Vec<Value>, Value)>,
}

impl Engine {
    /// The target signature.
    pub closed spec fn signature_model(self) -> Signature {
        self.signature
    }

    /// The number of cases of the corpus.
    pub closed spec fn case_count(self) -> nat {
        self.cases@.len()
    }

    /// The cases: inputs and expected values.
    pub closed spec fn cases_model(self) -> Seq<(Seq<Value>, Value)> {
        self.cases@.map_values(|c: (Vec<Value>, Value)| (c.0@, c.1))
    }

    /// The search configuration.
    pub closed spec fn config_model(self) -> SearchConfig {
        self.config
    }

    /// The engine's configuration can drive a search.
    pub closed spec fn wf(self) -> bool {
        &&& constants_ok(self.config)
        &&& self.config.max_instructions > 0
    }

    /// An engine for a valid corpus, with the interpreter as backend.
    pub fn new(config: SearchConfig, corpus: &Corpus) -> (r: Result<Engine, String>)
        ensures
            r matches Ok(e) ==> e.wf() && e.config_model() == config && e.signature_model().view_pair()
                == corpus.target.signature.view_pair() && e.case_count() == corpus.cases@.len(),
            r is Ok ==> crate::corpus::corpus_ok(*corpus),
            config.max_instructions == 0 || !constants_ok(config) ==> r is Err,
            !(config.comparator is Gremlin) ==> (r is Ok <==> crate::corpus::corpus_ok(*corpus) && constants_ok(config)
                && config.max_instructions > 0),
    {
        corpus.validate()?;
        config.comparator.program()?;
        parse_constants(&config)?;
        if config.max_instructions == 0 {
            return err("max_instructions must be positive");
        }
        let signature = corpus.target.signature.copy();
        let mut cases: Vec<(Vec<Value>, Value)> = Vec::new();
        let mut i: usize = 0;
        while i < corpus.cases.len()
            invariant
                0 <= i <= corpus.cases@.len(),
                cases@.len() == i,
                crate::corpus::corpus_ok(*corpus),
                signature.view_pair() == corpus.target.signature.view_pair(),
            decreases corpus.cases@.len() - i,
        {
            assert(corpus.cases@[i as int] == corpus.cases[i as int]);
            let input = decode_input(&signature, &corpus.cases[i].input)?;
            let expected = Value::from_hex(signature.return_type, corpus.cases[i].expected.as_str())?;
            cases.push((input, expected));
            i += 1;
        }
        let corpus_hash = corpus.content_hash()?;
        Ok(Engine { backend: Box::new(CpuBackend), signature, config, corpus_hash, cases })
    }

    /// Everything but the backend: signature, configuration, corpus hash
    /// and cases.
    pub closed spec fn setup(&self) -> (Signature, SearchConfig, String, Vec<(Vec<Value>, Value)>) {
        (self.signature, self.config, self.corpus_hash, self.cases)
    }

    /// The engine with another backend.
    pub fn with_backend(self, backend: Box<dyn Backend>) -> (r: Engine)
        ensures
            self.wf() ==> r.wf(),
            r.setup() == self.setup(),
    {
        let Engine { backend: _, signature, config, corpus_hash, cases } = self;
        Engine { backend, signature, config, corpus_hash, cases }
    }

    /// The expected values of the cases.
    fn expected(&self) -> (r: Vec<Value>)
        ensures
            r@.len() == self.cases@.len(),
            forall|i: int| 0 <= i < r@.len() ==> #[trigger] r@[i] == self.cases@[i].1,
    {
        let mut out: Vec<Value> = Vec::new();
        let mut i: usize = 0;
        while i < self.cases.len()
            invariant
                0 <= i <= self.cases@.len(),
                out@.len() == i,
                forall|j: int| 0 <= j < i ==> #[trigger] out@[j] == self.cases@[j].1,
            decreases self.cases@.len() - i,
        {
            out.push(self.cases[i].1);
            i += 1;
        }
        out
    }

    /// The inputs of the cases.
    fn inputs(&self) -> (r: Vec<Vec<Value>>)
        ensures
            r@.len() == self.cases@.len(),
            forall|i: int| 0 <= i < r@.len() ==> (#[trigger] r@[i])@ == self.cases@[i].0@,
    {
        let mut out: Vec<Vec<Value>> = Vec::new();
        let mut i: usize = 0;
        while i < self.cases.len()
            invariant
                0 <= i <= self.cases@.len(),
                out@.len() == i,
                forall|j: int| 0 <= j < i ==> (#[trigger] out@[j])@ == self.cases@[j].0@,
            decreases self.cases@.len() - i,
        {
            let row = self.cases[i].0.clone();
            assert(row@ =~= self.cases@[i as int].0@) by {
                assert forall|k: int| 0 <= k < row@.len() implies row@[k] == self.cases@[i as int].0@[k] by {
                    assert(vstd::pervasive::cloned(self.cases@[i as int].0@[k], row@[k]));
                }
            }
            out.push(row);
            i += 1;
        }
        out
    }

    /// The fitness of a summary of a genome.
    fn fitness(&self, g: &Genome, bytes: Vec<u8>, summary: EvaluationSummary) -> (r: Fitness)
        ensures
            r.noncompleted_case_count == summary.noncompleted,
            r.mismatching_completed_case_count == summary.mismatches,
            r.summed_bit_error == summary.bit_error,
            r.total_executed_steps == summary.steps,
            r.selection_cost == summary.selection_cost,
            r.cases@.len() == 0,
    {
        Fitness {
            selection_cost: summary.selection_cost,
            corpus_hash: self.corpus_hash.clone(),
            noncompleted_case_count: summary.noncompleted,
            mismatching_completed_case_count: summary.mismatches,
            summed_bit_error: summary.bit_error,
            instruction_count: g.instruction_count(),
            total_executed_steps: summary.steps,
            canonical_program_bytes: bytes,
            cases: Vec::new(),
        }
    }

    /// The fitness of a genome with the result of every case.
    pub fn evaluate(&self, g: &Genome) -> (r: Result<Fitness, String>)
        ensures
            r is Ok ==> genome_ok(*g, self.signature_model(), self.config_model()),
            r matches Ok(fit) ==> exists|m: FunctionM, es: Seq<Execution>, s: EvaluationSummary|
                normal_form(lowered(*g, self.signature_model()), m) && #[trigger] fitness_from_runs(
                    fit,
                    m,
                    es,
                    s,
                    self.cases_model(),
                    self.config_model(),
                ),
            !(self.config_model().comparator is Gremlin) && genome_ok(*g, self.signature_model(), self.config_model())
                && crate::genome::instruction_total(lowered(*g, self.signature_model()).blocks) < usize::MAX
                && crate::normalize::normalizable(lowered(*g, self.signature_model())) ==> r is Ok || exists|
                m: FunctionM,
                es: Seq<Execution>,
            |
                normal_form(lowered(*g, self.signature_model()), m) && #[trigger] unscorable_runs(
                    es,
                    m,
                    self.cases_model(),
                    self.config_model(),
                ),
    {
        if !g.valid(&self.signature, &self.config) {
            return err("genome violates signature or structural limits");
        }
        let f = g.lower(&self.signature);
        proof {
            if genome_ok(*g, self.signature_model(), self.config_model()) {
                crate::normalize::lemma_wf_call_free(f@);
            }
        }
        let bytes = canonical_bytes(&f)?;
        let mut evaluator = Evaluator::new(&f)?;
        let ghost m = evaluator.model();
        let mut executions: Vec<Execution> = Vec::new();
        let mut i: usize = 0;
        while i < self.cases.len()
            invariant
                0 <= i <= self.cases@.len(),
                evaluator.wf(),
                evaluator.model() == m,
                executions@.len() == i,
                forall|j: int|
                    0 <= j < i ==> (#[trigger] executions@[j]).run_view() == spec_execute(
                        m,
                        self.cases@[j].0@,
                        self.config.max_steps as nat,
                    ),
            decreases self.cases@.len() - i,
        {
            executions.push(evaluator.execute(&self.cases[i].0, self.config.max_steps));
            i += 1;
        }
        let ghost es = executions@;
        let expected = self.expected();
        assert(expected@ =~= self.cases_model().map_values(|x: (Seq<Value>, Value)| x.1));
        let (summary, cases) = match score_executions(
            executions,
            &expected,
            self.config.max_steps,
            &self.config.comparator,
            true,
        ) {
            Ok(x) => x,
            Err(e) => {
                proof {
                    if !(self.config.comparator is Gremlin) {
                        assert(unscorable_runs(es, m, self.cases_model(), self.config_model()));
                    }
                }
                return Err(e);
            },
        };
        let ghost sm = summary;
        let mut fitness = self.fitness(g, bytes, summary);
        fitness.cases = cases;
        assert(fitness_from_runs(fitness, m, es, sm, self.cases_model(), self.config_model()));
        Ok(fitness)
    }

    /// The fitness of each genome through the backend, without case
    /// results; adds the evaluated cases and the failures to the totals.
    fn individuals(&self, genomes: Vec<Genome>, count: &mut u64, failures: &mut Failures) -> (r: Result<
        Vec<Individual>,
        String,
    >)
        ensures
            r matches Ok(v) ==> v@.len() == genomes@.len() && forall|i: int|
                0 <= i < v@.len() ==> genome_view((#[trigger] v@[i]).genome) == genome_view(genomes@[i])
                    && v@[i].fitness.cases@.len() == 0,
            r is Ok ==> *final(count) == *old(count) + genomes@.len() * self.cases@.len(),
            (exists|i: int|
                0 <= i < genomes@.len() && !genome_ok(
                    #[trigger] genomes@[i],
                    self.signature_model(),
                    self.config_model(),
                )) ==> r is Err,
    {
        let n = genomes.len();
        if n == 0 {
            return Ok(Vec::new());
        }
        let mut functions: Vec<Function> = Vec::new();
        let mut i: usize = 0;
        while i < n
            invariant
                0 <= i <= n,
                n == genomes@.len(),
                functions@.len() == i,
                forall|j: int|
                    0 <= j < i ==> genome_ok(#[trigger] genomes@[j], self.signature_model(), self.config_model()),
            decreases n - i,
        {
            if !genomes[i].valid(&self.signature, &self.config) {
                return err("genome violates signature or structural limits");
            }
            assert(genome_ok(genomes@[i as int], self.signature_model(), self.config_model()));
            functions.push(genomes[i].lower(&self.signature));
            i += 1;
        }
        let inputs = self.inputs();
        let expected = self.expected();
        let results = self.backend.evaluate(&functions, &inputs, self.config.max_steps)?;
        let summaries = summarize_batch(results, &expected, self.config.max_steps, &self.config.comparator)?;
        if summaries.len() != n {
            return err("backend returned wrong program count");
        }
        let mut out: Vec<Individual> = Vec::new();
        let mut i: usize = 0;
        while i < n
            invariant
                0 <= i <= n,
                n == genomes@.len(),
                n == functions@.len(),
                n == summaries@.len(),
                out@.len() == i,
                *count == *old(count) + i * self.cases@.len(),
                forall|j: int|
                    0 <= j < i ==> genome_view((#[trigger] out@[j]).genome) == genome_view(genomes@[j])
                        && out@[j].fitness.cases@.len() == 0,
            decreases n - i,
        {
            let summary = summaries[i].clone();
            summary.validate(
                self.cases.len(),
                self.signature.return_type,
                self.config.max_steps,
                &self.config.comparator,
            )?;
            let c = match count.checked_add(self.cases.len() as u64) {
                Some(v) => v,
                None => return err("evaluation count overflow"),
            };
            let trap = match failures.trap.checked_add(summary.failures.trap) {
                Some(v) => v,
                None => return err("failure count overflow"),
            };
            let timeout = match failures.timeout.checked_add(summary.failures.timeout) {
                Some(v) => v,
                None => return err("failure count overflow"),
            };
            let invalid = match failures.invalid.checked_add(summary.failures.invalid) {
                Some(v) => v,
                None => return err("failure count overflow"),
            };
            *count = c;
            *failures = Failures { trap, timeout, invalid };
            let bytes = canonical_bytes(&functions[i])?;
            let fitness = self.fitness(&genomes[i], bytes, summary);
            let copy = genomes[i].copy();
            assert(genome_view(copy) == genome_view(genomes@[i as int]));
            out.push(Individual { genome: copy, fitness });
            proof {
                assert((i + 1) * self.cases@.len() == i * self.cases@.len() + self.cases@.len()) by (nonlinear_arith);
            }
            i += 1;
        }
        Ok(out)
    }

    /// The first generation: the seeds, then random genomes up to the
    /// population size, ranked.
    pub fn initialize(&self, seed: u64) -> (r: Result<SearchState, String>)
        requires
            self.wf(),
        ensures
            r matches Ok(st) ==> forall|i: int|
                0 <= i < st.population@.len() ==> genome_ok(
                    (#[trigger] st.population@[i]).genome,
                    self.signature_model(),
                    self.config_model(),
                ),
            r matches Ok(st) ==> st.generation == 1 && st.population@.len() > 0 && st.population@.len()
                == self.config_model().population && sorted_by_fitness(st.population@)
                && st.enumeration_cursor == 0 && st.evaluation_count == self.config_model().population
                * self.case_count(),
    {
        let mut rng = Rng::new(seed);
        let seeded = seeds(&self.signature, &self.config);
        if seeded.len() == 0 {
            return err("search pool cannot construct a valid return");
        }
        let mut population: Vec<Genome> = Vec::new();
        let mut i: usize = 0;
        while i < self.config.population
            invariant
                0 <= i <= self.config.population,
                seeded@.len() > 0,
                self.wf(),
                constants_ok(self.config),
                self.config.max_instructions > 0,
                population@.len() == i,
            decreases self.config.population - i,
        {
            let g = if i < seeded.len() {
                seeded[i].copy()
            } else {
                random_genome(&self.signature, &self.config, &mut rng, &seeded[0])
            };
            population.push(g);
            i += 1;
        }
        let mut count: u64 = 0;
        let mut failures = Failures::none();
        let individuals = self.individuals(population, &mut count, &mut failures)?;
        let ghost ev = individuals@;
        let ghost gs = population@;
        let population = sort_population(individuals);
        assert(population@.len() == ev.len());
        proof {
            let order = choose|order: Seq<usize>|
                ranking(ev, order) && population@.len() == order.len() && forall|k: int|
                    0 <= k < order.len() ==> population@[k] == ev[#[trigger] order[k] as int];
            assert forall|i: int| 0 <= i < population@.len() implies genome_ok(
                (#[trigger] population@[i]).genome,
                self.signature_model(),
                self.config_model(),
            ) by {
                let j = order[i] as int;
                assert(population@[i] == ev[j]);
                if !genome_ok(gs[j], self.signature_model(), self.config_model()) {
                    assert(false);
                }
                lemma_same_genome_ok(ev[j].genome, gs[j], self.signature_model(), self.config_model());
            }
        }
        if population.len() == 0 {
            return err("empty population");
        }
        let best = population[0].clone();
        Ok(
            SearchState {
                generation: 1,
                rng,
                enumeration_cursor: 0,
                population,
                best,
                evaluation_count: count,
                failures,
            },
        )
    }

    /// One generation: the elite stay; enumeration proposals and mutated
    /// tournament winners fill the population; the result is ranked.
    pub fn advance(&self, state: &mut SearchState) -> (r: Result<(), String>)
        requires
            self.wf(),
        ensures
            r is Ok ==> final(state).population@.len() > 0 && final(state).generation
                == old(state).generation + 1 && sorted_by_fitness(final(state).population@)
                && final(state).enumeration_cursor == old(state).enumeration_cursor
                + self.config_model().enumeration_proposals,
    {
        let n = state.population.len();
        let gen0 = state.generation;
        if n == 0 {
            return err("empty population");
        }
        let elite = if self.config.elite < n {
            self.config.elite
        } else {
            n
        };
        let mut next: Vec<Individual> = Vec::new();
        let mut i: usize = 0;
        while i < elite
            invariant
                0 <= i <= elite <= n,
                n == state.population@.len(),
                next@.len() == i,
            decreases elite - i,
        {
            next.push(state.population[i].clone());
            i += 1;
        }
        let mut genomes: Vec<Genome> = Vec::new();
        let mut k: usize = 0;
        while k < self.config.enumeration_proposals
            invariant
                0 <= k <= self.config.enumeration_proposals,
                n == state.population@.len(),
                gen0 == old(state).generation,
                state.enumeration_cursor == old(state).enumeration_cursor + k,
                self.wf(),
                constants_ok(self.config),
            decreases self.config.enumeration_proposals - k,
        {
            let proposal = chain_proposal(&self.signature, &self.config, state.enumeration_cursor);
            state.enumeration_cursor = match state.enumeration_cursor.checked_add(1) {
                Some(v) => v,
                None => return err("enumeration cursor exhausted"),
            };
            if let Some(g) = proposal {
                genomes.push(g);
            }
            k += 1;
        }
        while next.len() < self.config.population && genomes.len() < self.config.population - next.len()
            invariant
                n == state.population@.len(),
                n > 0,
                gen0 == old(state).generation,
                state.enumeration_cursor == old(state).enumeration_cursor + self.config.enumeration_proposals,
                self.wf(),
                constants_ok(self.config),
            decreases self.config.population - genomes@.len(),
        {
            let mut selected = state.rng.index(n);
            let mut t: usize = 1;
            while t < self.config.tournament_size
                invariant
                    n == state.population@.len(),
                    n > 0,
                    selected < n,
                    state.enumeration_cursor == old(state).enumeration_cursor + self.config.enumeration_proposals,
                decreases self.config.tournament_size - t,
            {
                let j = state.rng.index(n);
                if state.population[j].fitness.compare(&state.population[selected].fitness) < 0 {
                    selected = j;
                }
                t += 1;
            }
            let child = mutate(
                &state.population[selected].genome,
                &self.signature,
                &self.config,
                &mut state.rng,
            );
            genomes.push(child);
        }
        let evaluated = self.individuals(genomes, &mut state.evaluation_count, &mut state.failures)?;
        let mut e: usize = 0;
        while e < evaluated.len()
            invariant
                0 <= e <= evaluated@.len(),
            decreases evaluated@.len() - e,
        {
            next.push(evaluated[e].clone());
            e += 1;
        }
        let population = sort_population(next);
        if population.len() == 0 {
            return err("empty population");
        }
        state.best = population[0].clone();
        state.population = population;
        state.generation = match gen0.checked_add(1) {
            Some(g) => g,
            None => return err("generation count overflow"),
        };
        Ok(())
    }

    /// Re-evaluates the population against this engine's corpus.
    pub fn regrade(&self, state: &mut SearchState) -> (r: Result<(), String>)
        ensures
            final(state).generation == old(state).generation,
            final(state).enumeration_cursor == old(state).enumeration_cursor,
            r is Ok ==> final(state).population@.len() == old(state).population@.len(),
            r is Ok ==> sorted_by_fitness(final(state).population@),
            r is Ok ==> exists|order: Seq<usize>|
                #[trigger] reorders_genomes(final(state).population@, old(state).population@, order),
            r is Ok ==> final(state).evaluation_count == old(state).evaluation_count
                + old(state).population@.len() * self.case_count(),
            (exists|i: int|
                0 <= i < old(state).population@.len() && !genome_ok(
                    (#[trigger] old(state).population@[i]).genome,
                    self.signature_model(),
                    self.config_model(),
                )) ==> r is Err,
    {
        let mut genomes: Vec<Genome> = Vec::new();
        let mut i: usize = 0;
        while i < state.population.len()
            invariant
                0 <= i <= state.population@.len(),
                genomes@.len() == i,
                *state == *old(state),
                forall|j: int|
                    0 <= j < i ==> genome_view(#[trigger] genomes@[j]) == genome_view(
                        state.population@[j].genome,
                    ) && (genome_ok(genomes@[j], self.signature_model(), self.config_model())
                        == genome_ok(state.population@[j].genome, self.signature_model(), self.config_model())),
            decreases state.population@.len() - i,
        {
            genomes.push(state.population[i].genome.copy());
            i += 1;
        }
        let ghost gs = genomes@;
        let evaluated = match self.individuals(genomes, &mut state.evaluation_count, &mut state.failures) {
            Ok(v) => v,
            Err(e) => {
                return Err(e);
            },
        };
        proof {
            if exists|i: int|
                0 <= i < old(state).population@.len() && !genome_ok(
                    (#[trigger] old(state).population@[i]).genome,
                    self.signature_model(),
                    self.config_model(),
                ) {
                let i = choose|i: int|
                    0 <= i < old(state).population@.len() && !genome_ok(
                        (#[trigger] old(state).population@[i]).genome,
                        self.signature_model(),
                        self.config_model(),
                    );
                assert(!genome_ok(gs[i], self.signature_model(), self.config_model()));
            }
        }
        let ghost ev = evaluated@;
        let population = sort_population(evaluated);
        let ghost order = choose|order: Seq<usize>|
            ranking(ev, order) && population@.len() == order.len() && forall|k: int|
                0 <= k < order.len() ==> population@[k] == ev[#[trigger] order[k] as int];
        proof {
            lemma_ranked_distinct(ev, order);
            assert forall|k: int| 0 <= k < order.len() implies (#[trigger] order[k]) < order.len()
                && genome_view(population@[k].genome) == genome_view(
                old(state).population@[order[k] as int].genome,
            ) by {
                assert(population@[k] == ev[order[k] as int]);
            }
        }
        if population.len() == 0 {
            return err("empty population");
        }
        state.best = population[0].clone();
        state.population = population;
        assert(reorders_genomes(state.population@, old(state).population@, order));
        Ok(())
    }

    /// Checks a saved state against this engine: generation and
    /// population size, every fitness recomputed, ranking order and best.
    pub fn validate_state(&self, state: &SearchState) -> (r: Result<(), String>)
        ensures
            r is Ok ==> 0 < state.generation <= self.config_model().generations
                && state.population@.len() == self.config_model().population,
            r is Ok ==> forall|i: int|
                0 <= i < state.population@.len() ==> genome_ok(
                    (#[trigger] state.population@[i]).genome,
                    self.signature_model(),
                    self.config_model(),
                ),
            r is Ok ==> forall|k: int|
                0 < k < state.population@.len() ==> fitness_order(
                    state.population@[k - 1].fitness,
                    (#[trigger] state.population@[k]).fitness,
                ) <= 0,
            r is Ok ==> state.population@.len() > 0 && genome_view(state.best.genome) == genome_view(
                state.population@[0].genome,
            ) && fitness_view(state.best.fitness) == fitness_view(state.population@[0].fitness),
    {
        if state.generation == 0 || state.generation > self.config.generations
            || state.population.len() != self.config.population {
            return err("checkpoint generation or population mismatch");
        }
        let mut i: usize = 0;
        while i < state.population.len()
            invariant
                0 <= i <= state.population@.len(),
                forall|j: int|
                    0 <= j < i ==> genome_ok(
                        (#[trigger] state.population@[j]).genome,
                        self.signature_model(),
                        self.config_model(),
                    ),
            decreases state.population@.len() - i,
        {
            let member = &state.population[i];
            let mut recomputed = self.evaluate(&member.genome)?;
            if member.fitness.cases.len() == 0 {
                recomputed.cases = Vec::new();
            }
            if !member.genome.valid(&self.signature, &self.config) || !recomputed.same(&member.fitness) {
                return err("checkpoint fitness or genome mismatch");
            }
            i += 1;
        }
        let mut k: usize = 1;
        while k < state.population.len()
            invariant
                1 <= k,
                forall|j: int|
                    0 <= j < state.population@.len() ==> genome_ok(
                        (#[trigger] state.population@[j]).genome,
                        self.signature_model(),
                        self.config_model(),
                    ),
                forall|j: int|
                    0 < j < k && j < state.population@.len() ==> fitness_order(
                        state.population@[j - 1].fitness,
                        (#[trigger] state.population@[j]).fitness,
                    ) <= 0,
            decreases state.population@.len() - k,
        {
            if state.population[k - 1].fitness.compare(&state.population[k].fitness) > 0 {
                return err("checkpoint population order/best mismatch");
            }
            k += 1;
        }
        if state.population.len() == 0 || !state.best.same(&state.population[0]) {
            return err("checkpoint population order/best mismatch");
        }
        Ok(())
    }
}

} // verus!
