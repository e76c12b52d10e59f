//! The configuration of a search run.
use vstd::prelude::*;

use crate::comparator::ComparatorConfig;
use crate::fixtures::{fixture_args, fixture_ret, fixture_signature};
use crate::literal::spec_parse_literal;
use crate::sig::{copy_types, sig_valid, Signature};
use crate::text::{chars_eq, chars_of, err};
use crate::types::{Op, Type, Value};
use crate::validate::SCHEMA_VERSION;

verus! {

/// The limits and building blocks of the program search.
#[derive(Clone, Debug, PartialEq, Eq)]
pub struct SearchConfig {
    pub population: usize,
    pub generations: usize,
    pub max_instructions: usize,
    pub max_steps: u64,
    pub elite: usize,
    pub tournament_size: usize,
    pub operators: Vec<Op>,
    pub constants: Vec<String>,
    pub comparator: ComparatorConfig,
    pub max_blocks: usize,
    pub loop_bound: u64,
    pub enumeration_proposals: usize,
}

/// Every constant of the configuration is a typed literal.
pub open spec fn constants_ok(c: SearchConfig) -> bool {
    forall|i: int| 0 <= i < c.constants@.len() ==> (spec_parse_literal((#[trigger] c.constants@[i])@) is Some)
}

/// The target: a fixture oracle with its signature.
#[derive(Clone, Debug, PartialEq, Eq)]
pub struct TargetConfig {
    pub kind: String,
    pub name: String,
    pub arguments: Vec<Type>,
    pub return_type: Type,
}

/// How many random and holdout cases to draw.
#[derive(Clone, Debug, PartialEq, Eq)]
pub struct CorpusConfig {
    pub random_cases: usize,
    pub holdout_cases: usize,
}

/// Where results go.
#[derive(Clone, Debug, PartialEq, Eq)]
pub struct OutputConfig {
    pub directory: String,
}

/// A whole run configuration.
#[derive(Clone, Debug, PartialEq, Eq)]
pub struct Config {
    pub schema_version: u32,
    pub seed: u64,
    pub target: TargetConfig,
    pub search: SearchConfig,
    pub corpus: CorpusConfig,
    pub output: OutputConfig,
}

/// The limits a valid search configuration keeps.
pub open spec fn search_limits_ok(s: SearchConfig) -> bool {
    &&& s.population >= 2
    &&& s.generations > 0
    &&& s.max_instructions > 0
    &&& s.max_steps > 0
    &&& s.elite > 0
    &&& s.elite < s.population
    &&& s.tournament_size > 0
    &&& s.tournament_size <= s.population
    &&& s.population <= 100000
    &&& s.max_instructions <= 4096
    &&& 1 <= s.max_blocks <= 64
}

/// Parses every constant of a configuration.
pub fn parse_constants(c: &SearchConfig) -> (r: Result<Vec<Value>, String>)
    ensures
        r is Ok <==> constants_ok(*c),
        r matches Ok(v) ==> v@.len() == c.constants@.len() && forall|i: int|
            0 <= i < v@.len() ==> spec_parse_literal(c.constants@[i]@) == Some(#[trigger] v@[i]),
{
    let mut out: Vec<Value> = Vec::new();
    let mut i: usize = 0;
    while i < c.constants.len()
        invariant
            0 <= i <= c.constants@.len(),
            out@.len() == i,
            forall|j: int| 0 <= j < i ==> spec_parse_literal(c.constants@[j]@) == Some(#[trigger] out@[j]),
            forall|j: int| 0 <= j < i ==> (spec_parse_literal((#[trigger] c.constants@[j])@) is Some),
        decreases c.constants@.len() - i,
    {
        let v = match Value::parse(c.constants[i].as_str()) {
            Ok(v) => v,
            Err(e) => {
                return Err(e);
            },
        };
        out.push(v);
        i += 1;
    }
    Ok(out)
}

/// Some constant of the configuration is a literal of type `t`.
pub open spec fn has_constant_of(s: SearchConfig, t: Type) -> bool {
    exists|i: int|
        0 <= i < s.constants@.len() && (spec_parse_literal((#[trigger] s.constants@[i])@) matches Some(
            v,
        ) && v.ty == t)
}

/// Everything that a valid configuration keeps, but for the comparator's
/// own program.
pub open spec fn config_ok(c: Config) -> bool {
    &&& c.schema_version == SCHEMA_VERSION
    &&& c.target.kind@ == "fixture"@
    &&& sig_valid(c.target.arguments@, c.target.return_type)
    &&& fixture_args(c.target.name@) == Some(c.target.arguments@)
    &&& fixture_ret(c.target.name@) == c.target.return_type
    &&& search_limits_ok(c.search)
    &&& c.corpus.random_cases <= 1000000
    &&& c.corpus.holdout_cases <= 1000000
    &&& c.output.directory@.len() > 0
    &&& constants_ok(c.search)
    &&& (c.target.arguments@.len() == 0 ==> has_constant_of(c.search, c.target.return_type))
}

impl Config {
    /// The target signature.
    pub fn signature(&self) -> (r: Signature)
        ensures
            r.arguments@ == self.target.arguments@,
            r.return_type == self.target.return_type,
    {
        Signature { arguments: copy_types(&self.target.arguments), return_type: self.target.return_type }
    }

    /// Checks the configuration: schema, a fixture target with a
    /// supported signature equal to the fixture's, search limits, the
    /// comparator, non-empty output directory, typed constants, and a
    /// constant of the return type when there are no arguments.
    pub fn validate(&self) -> (r: Result<(), String>)
        ensures
            r is Ok ==> config_ok(*self),
            !(self.search.comparator is Gremlin) ==> (r is Ok <==> config_ok(*self)),
            self.search.comparator matches ComparatorConfig::Gremlin { max_steps, .. } && (max_steps == 0
                || max_steps > 10000) ==> r is Err,
    {
        if self.schema_version != SCHEMA_VERSION {
            return err("unsupported configuration schema_version");
        }
        let kind = chars_of(self.target.kind.as_str());
        if !chars_eq(&kind, &chars_of("fixture")) {
            return err("only target kind 'fixture' is supported");
        }
        let sig = self.signature();
        sig.validate()?;
        let fixture = fixture_signature(self.target.name.as_str())?;
        if !fixture.same(&sig) {
            return err("fixture signature mismatch");
        }
        let s = &self.search;
        if s.population < 2 || s.generations == 0 || s.max_instructions == 0 || s.max_steps == 0
            || s.elite == 0 || s.elite >= s.population || s.tournament_size == 0 || s.tournament_size
            > s.population {
            return err(
                "invalid search limits: positive limits, 1 <= elite < population, 1 <= tournament_size <= population required",
            );
        }
        if s.population > 100000 || s.max_instructions > 4096 || self.corpus.random_cases > 1000000
            || self.corpus.holdout_cases > 1000000 {
            return err("configuration exceeds supported resource limits");
        }
        if s.max_blocks == 0 || s.max_blocks > 64 {
            return err("max_blocks must be 1..64");
        }
        s.comparator.program()?;
        if self.output.directory.as_str().is_empty() {
            return err("output directory cannot be empty");
        }
        let constants = parse_constants(s)?;
        if self.target.arguments.len() == 0 {
            let mut found = false;
            let mut i: usize = 0;
            while i < constants.len()
                invariant
                    0 <= i <= constants@.len(),
                    constants@.len() == s.constants@.len(),
                    forall|j: int|
                        0 <= j < constants@.len() ==> spec_parse_literal(s.constants@[j]@) == Some(
                            #[trigger] constants@[j],
                        ),
                    found <==> exists|j: int| 0 <= j < i && (#[trigger] constants@[j]).ty == self.target.return_type,
                decreases constants@.len() - i,
            {
                if constants[i].ty == self.target.return_type {
                    found = true;
                }
                i += 1;
            }
            if !found {
                proof {
                    if has_constant_of(self.search, self.target.return_type) {
                        let j = choose|j: int|
                            0 <= j < s.constants@.len() && (spec_parse_literal((#[trigger] s.constants@[j])@) matches Some(
                                v,
                            ) && v.ty == self.target.return_type);
                        assert(constants@[j].ty == self.target.return_type);
                    }
                }
                return err("zero-argument search requires a return-typed constant");
            }
            proof {
                let j = choose|j: int| 0 <= j < constants@.len() && (#[trigger] constants@[j]).ty == self.target.return_type;
                assert(spec_parse_literal(s.constants@[j]@) == Some(constants@[j]));
            }
        }
        Ok(())
    }
}

} // verus!
