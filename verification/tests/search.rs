use gremlin::comparator::ComparatorConfig;
use gremlin::corpus::{fixture_corpus, Corpus, TargetIdentity};
use gremlin::engine::Engine;
use gremlin::eval::{Execution, Outcome};
use gremlin::genome::{delete, Gene, Genome};
use gremlin::ir::{Expr, Terminator};
use gremlin::scoring::{score_executions, EvaluationSummary};
use gremlin::search_config::SearchConfig;
use gremlin::sig::Signature;
use gremlin::source::parse;
use gremlin::types::{Op, Type, Value};

fn config() -> SearchConfig {
    SearchConfig {
        population: 64,
        generations: 200,
        max_instructions: 8,
        max_steps: 64,
        elite: 4,
        tournament_size: 4,
        operators: vec![
            Op::Add,
            Op::Sub,
            Op::Mul,
            Op::Xor,
            Op::And,
            Op::Or,
            Op::Shl,
            Op::Lshr,
        ],
        constants: vec!["1u64".into(), "3u64".into()],
        comparator: ComparatorConfig::default(),
        max_blocks: 1,
        loop_bound: 0,
        enumeration_proposals: 0,
    }
}

fn corpus() -> Corpus {
    let mut corpus = Corpus::new(TargetIdentity {
        name: "comparator-test".into(),
        signature: Signature {
            arguments: vec![Type::U64],
            return_type: Type::U64,
        },
        contract: "test observations".into(),
        implementation_fingerprint: "test-v1".into(),
    });
    for (input, expected) in [(0u64, 0u64), (1, 255)] {
        corpus
            .add(
                vec![format!("0x{:016x}", input)],
                format!("0x{:016x}", expected),
                "test".into(),
            )
            .unwrap();
    }
    corpus
}

fn genome(source: &str) -> Genome {
    let f = parse(source).unwrap();
    let value = match f.blocks[0].terminator {
        Terminator::Return { value } => value,
        _ => panic!(),
    };
    Genome {
        cfg: None,
        genes: f.blocks[0]
            .instructions
            .iter()
            .map(|i| Gene {
                ty: i.ty,
                expr: i.expr.clone(),
            })
            .collect(),
        output: value,
    }
}

fn custom(source: &str) -> ComparatorConfig {
    ComparatorConfig::Gremlin {
        source: source.into(),
        max_steps: 256,
    }
}

/// Bit-parallel population count of `actual ^ expected`.
const HAMMING: &str = "fn hamming(actual:u64,expected:u64)->u64 {
    let x:u64 = xor(actual,expected);
    let a:u64 = sub(x, and(lshr(x,1u64), 0x5555555555555555u64));
    let b:u64 = add(and(a,0x3333333333333333u64), and(lshr(a,2u64),0x3333333333333333u64));
    let c:u64 = and(add(b, lshr(b,4u64)), 0x0f0f0f0f0f0f0f0fu64);
    return lshr(mul(c,0x0101010101010101u64),56u64);
}";

#[test]
fn deterministic_deletion_repair() {
    let s = Signature {
        arguments: vec![Type::U64],
        return_type: Type::U64,
    };
    let g = genome("fn f(x:u64)->u64{let a:u64=1u64;let b:u64=add(x,a);return b;}");
    let d = delete(&g, &s, 0).unwrap();
    assert_eq!(
        d.genes[0].expr,
        Expr::Apply {
            op: Op::Add,
            args: vec![0, 0]
        }
    );
    d.lower(&s).validate().unwrap();
    let g = genome("fn f()->u64{return 1u64;}");
    assert!(delete(
        &g,
        &Signature {
            arguments: vec![],
            return_type: Type::U64
        },
        0
    )
    .is_none());
}

#[test]
fn bit_error_first_changes_ranking_without_changing_correctness() {
    let exact_one = genome("fn f(x:u64)->u64{return 0u64;}");
    let close_both = genome("fn f(x:u64)->u64{return xor(mul(x,255u64),1u64);}");
    let c = config();
    let engine = Engine::new(c.clone(), &corpus()).unwrap();
    assert!(engine.evaluate(&exact_one).unwrap() < engine.evaluate(&close_both).unwrap());
    let mut c = c;
    c.comparator = ComparatorConfig::BitErrorFirst {};
    let engine = Engine::new(c, &corpus()).unwrap();
    let a = engine.evaluate(&exact_one).unwrap();
    let b = engine.evaluate(&close_both).unwrap();
    assert_eq!(
        (a.mismatching_completed_case_count, a.summed_bit_error),
        (1, 8)
    );
    assert_eq!(
        (b.mismatching_completed_case_count, b.summed_bit_error),
        (2, 2)
    );
    assert!(b < a);
    assert!(!b.matches());
}

#[test]
fn comparator_errors_abort_instead_of_becoming_fitness() {
    for source in [
        "fn score(actual:u64,expected:u64)->u64{return udiv(actual,0u64);}",
        "fn score(actual:u64,expected:u64)->u64{loop{}}",
    ] {
        let mut c = config();
        c.comparator = custom(source);
        let engine = Engine::new(c, &corpus()).unwrap();
        assert!(engine
            .evaluate(&genome("fn f(x:u64)->u64{return x;}"))
            .unwrap_err()
            .contains("comparator execution failed"));
    }
    for comparator in [
        custom("fn score(x:u8,y:u8)->u8{return x;}"),
        custom("fn score(x:u64,y:u64)->u64{return missing(x);}"),
        ComparatorConfig::Gremlin {
            source: "fn score(x:u64,y:u64)->u64{return x;}".into(),
            max_steps: 0,
        },
    ] {
        assert!(comparator.program().is_err());
    }
}

#[test]
fn narrow_signed_values_are_zero_extended_bit_patterns() {
    let mut cases = corpus();
    cases.target.signature = Signature {
        arguments: vec![Type::I8],
        return_type: Type::I8,
    };
    cases.cases.clear();
    cases.provenance.clear();
    cases
        .add(vec!["0xff".into()], "0xff".into(), "signed -1".into())
        .unwrap();
    let mut c = config();
    c.comparator = custom("fn score(actual:u64,expected:u64)->u64{return actual;}");
    let fit = Engine::new(c, &cases)
        .unwrap()
        .evaluate(&genome("fn f(x:i8)->i8{return x;}"))
        .unwrap();
    assert_eq!(fit.selection_cost, Some([0, 255]));
    assert!(fit.matches());
}

#[test]
fn custom_hamming_matches_builtin_selection() {
    let mut c = config();
    c.population = 16;
    c.elite = 2;
    c.comparator = ComparatorConfig::BitErrorFirst {};
    let corpus = fixture_corpus("composed_u64", 1, 8).unwrap();
    let builtin = Engine::new(c.clone(), &corpus).unwrap();
    c.comparator = custom(HAMMING);
    let custom = Engine::new(c, &corpus).unwrap();
    let mut a = builtin.initialize(4).unwrap();
    let mut b = custom.initialize(4).unwrap();
    for _ in 0..10 {
        for (x, y) in a.population.iter().zip(&b.population) {
            assert_eq!(x.genome, y.genome);
            assert_eq!(x.fitness.selection_cost, y.fitness.selection_cost);
            for case in &y.fitness.cases {
                assert_eq!(case.custom_cost, case.bit_error.map(u64::from));
            }
        }
        builtin.advance(&mut a).unwrap();
        custom.advance(&mut b).unwrap();
    }
}

fn rows() -> Vec<Execution> {
    vec![
        Execution {
            outcome: Outcome::Completed(Value::new(Type::U64, 5)),
            steps: 1,
        },
        Execution {
            outcome: Outcome::Completed(Value::new(Type::U64, 0)),
            steps: 2,
        },
        Execution {
            outcome: Outcome::Trap("division by zero".into()),
            steps: 3,
        },
        Execution {
            outcome: Outcome::Timeout("step budget exhausted".into()),
            steps: 4,
        },
        Execution {
            outcome: Outcome::Invalid("invalid program".into()),
            steps: 5,
        },
    ]
}

#[test]
fn compact_scoring_preserves_failures_and_128_bit_custom_costs() {
    let expected = [4, 3, 0, 0, 0].map(|v| Value::new(Type::U64, v));
    for comparator in [
        ComparatorConfig::default(),
        ComparatorConfig::BitErrorFirst {},
        ComparatorConfig::Gremlin {
            source: "fn score(actual:u64,expected:u64)->u64{return 0xffffffffffffffffu64;}".into(),
            max_steps: 8,
        },
    ] {
        let (summary, details) = score_executions(rows(), &expected, 5, &comparator, true).unwrap();
        let (compact, empty) = score_executions(rows(), &expected, 5, &comparator, false).unwrap();
        assert_eq!(summary, compact);
        assert!(empty.is_empty());
        assert_eq!(details.len(), 5);
        assert_eq!(
            (
                summary.noncompleted,
                summary.mismatches,
                summary.bit_error,
                summary.steps
            ),
            (3, 2, 3, 15)
        );
        assert_eq!(
            (
                summary.failures.trap,
                summary.failures.timeout,
                summary.failures.invalid
            ),
            (1, 1, 1)
        );
        if matches!(comparator, ComparatorConfig::Gremlin { .. }) {
            assert_eq!(summary.selection_cost, Some([1, u64::MAX - 1]));
        }
        summary.validate(5, Type::U64, 5, &comparator).unwrap();
        assert_eq!(
            EvaluationSummary::from_words(summary.words()).unwrap(),
            summary
        );
        let mut bad = summary.clone();
        bad.mismatches = 3;
        assert!(bad.validate(5, Type::U64, 5, &comparator).is_err());
        let mut bad = summary.clone();
        bad.steps = 26;
        assert!(bad.validate(5, Type::U64, 5, &comparator).is_err());
        let mut bad = summary.clone();
        bad.failures.invalid = 0;
        assert!(bad.validate(5, Type::U64, 5, &comparator).is_err());
    }
    let failing = ComparatorConfig::Gremlin {
        source: "fn score(actual:u64,expected:u64)->u64{return udiv(actual,0u64);}".into(),
        max_steps: 8,
    };
    assert!(score_executions(rows(), &expected, 5, &failing, false)
        .unwrap_err()
        .contains("comparator execution failed"));
    let mut bad = [0; 10];
    bad[7] = 2;
    assert!(EvaluationSummary::from_words(bad).is_err());
}
