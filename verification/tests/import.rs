use gremlin::corpus::{fixture_corpus, Corpus, Provenance, TargetIdentity};
use gremlin::fixtures::fixture_observe;
use gremlin::import::{
    check_stored, import_inputs, merge_stored, replay, stored_inputs, ImportDocument, ImportedCase,
};
use gremlin::types::Value;

fn case(input: &str, expected: Option<&str>, provenance: &[&str]) -> ImportedCase {
    ImportedCase {
        input: vec![input.to_string()],
        expected: expected.map(|e| e.to_string()),
        provenance: provenance.iter().map(|p| p.to_string()).collect(),
    }
}

fn increment_corpus() -> Corpus {
    Corpus::new(TargetIdentity::fixture("increment_u64").unwrap())
}

fn document(cases: Vec<ImportedCase>) -> ImportDocument {
    ImportDocument {
        schema_version: 1,
        signature: increment_corpus().target.signature,
        cases,
    }
}

fn observe(name: &str, inputs: &[Vec<Value>]) -> Vec<Value> {
    inputs
        .iter()
        .map(|a| fixture_observe(name, a).unwrap())
        .collect()
}

#[test]
fn import_replays_into_a_corpus_with_provenance() {
    let mut corpus = increment_corpus();
    let doc = document(vec![
        case("0x0000000000000005", None, &["b", "a"]),
        case("0x0000000000000001", Some("0x0000000000000002"), &["lab notebook"]),
    ]);
    let inputs = import_inputs(&doc, &corpus.target.signature).unwrap();
    assert_eq!(inputs.len(), 2);
    let values = observe("increment_u64", &inputs);
    replay(&mut corpus, &doc, &values, "abc").unwrap();
    assert_eq!(corpus.cases.len(), 2);
    assert_eq!(corpus.cases[0].input, vec!["0x0000000000000001".to_string()]);
    assert_eq!(corpus.cases[0].expected, "0x0000000000000002");
    assert_eq!(corpus.cases[1].input, vec!["0x0000000000000005".to_string()]);
    assert_eq!(corpus.cases[1].expected, "0x0000000000000006");
    assert_eq!(
        corpus.provenance[0].records,
        vec!["lab notebook".to_string(), "replayed import v1 abc".to_string()]
    );
    assert_eq!(
        corpus.provenance[1].records,
        vec!["a".to_string(), "b".to_string(), "replayed import v1 abc".to_string()]
    );
}

#[test]
fn replaying_a_document_twice_changes_no_case() {
    let mut corpus = increment_corpus();
    let doc = document(vec![
        case("0x0000000000000009", None, &["x"]),
        case("0x0000000000000003", None, &["y"]),
    ]);
    let inputs = import_inputs(&doc, &corpus.target.signature).unwrap();
    let values = observe("increment_u64", &inputs);
    replay(&mut corpus, &doc, &values, "first").unwrap();
    let once = corpus.cases.clone();
    replay(&mut corpus, &doc, &values, "second").unwrap();
    assert_eq!(corpus.cases, once);
}

#[test]
fn import_refuses_bad_documents() {
    let corpus = increment_corpus();
    let mut doc = document(vec![case("0x0000000000000001", None, &["p"])]);
    doc.schema_version = 2;
    assert_eq!(
        import_inputs(&doc, &corpus.target.signature).unwrap_err(),
        "import schema, signature or case count unsupported"
    );
    let empty = document(vec![]);
    assert_eq!(
        import_inputs(&empty, &corpus.target.signature).unwrap_err(),
        "import schema, signature or case count unsupported"
    );
    let no_records = document(vec![case("0x0000000000000001", None, &[])]);
    assert_eq!(
        import_inputs(&no_records, &corpus.target.signature).unwrap_err(),
        "import provenance must contain 1..32 nonempty records up to 1024 bytes"
    );
    let long = "r".repeat(1025);
    let long_record = document(vec![case("0x0000000000000001", None, &[long.as_str()])]);
    assert_eq!(
        import_inputs(&long_record, &corpus.target.signature).unwrap_err(),
        "import provenance must contain 1..32 nonempty records up to 1024 bytes"
    );
    let bad_input = document(vec![case("0x01", None, &["p"])]);
    assert!(import_inputs(&bad_input, &corpus.target.signature).is_err());
}

#[test]
fn import_refuses_a_disagreeing_expectation() {
    let mut corpus = increment_corpus();
    let doc = document(vec![case(
        "0x0000000000000001",
        Some("0x0000000000000007"),
        &["claim"],
    )]);
    let inputs = import_inputs(&doc, &corpus.target.signature).unwrap();
    let values = observe("increment_u64", &inputs);
    assert_eq!(
        replay(&mut corpus, &doc, &values, "o").unwrap_err(),
        "import expected output disagrees with oracle replay"
    );
    assert!(corpus.cases.is_empty());
}

#[test]
fn stored_corpus_merges_when_the_oracle_agrees() {
    let stored = fixture_corpus("increment_u64", 7, 3).unwrap();
    check_stored(&stored, &None).unwrap();
    let inputs = stored_inputs(&stored).unwrap();
    assert_eq!(inputs.len(), stored.cases.len());
    let values = observe("increment_u64", &inputs);
    let mut corpus = increment_corpus();
    merge_stored(&mut corpus, &stored, &stored.provenance, &values, "h").unwrap();
    assert_eq!(corpus.cases, stored.cases);
    assert!(corpus.provenance[0]
        .records
        .contains(&"replayed stored corpus h".to_string()));
}

#[test]
fn stored_corpus_refuses_mislabels_and_mismatched_provenance() {
    let stored = fixture_corpus("increment_u64", 7, 3).unwrap();
    let inputs = stored_inputs(&stored).unwrap();
    let mut values = observe("increment_u64", &inputs);
    values[0] = Value::new(values[0].ty, values[0].bits.wrapping_add(1));
    let mut corpus = increment_corpus();
    assert_eq!(
        merge_stored(&mut corpus, &stored, &stored.provenance, &values, "h").unwrap_err(),
        "stored corpus label disagrees with fresh oracle replay"
    );
    let mut provenance: Vec<Provenance> = stored.provenance.clone();
    provenance.pop();
    assert_eq!(
        check_stored(&stored, &Some(provenance)).unwrap_err(),
        "stored corpus provenance mismatch"
    );
    check_stored(&stored, &Some(stored.provenance.clone())).unwrap();
    let other = Corpus::new(TargetIdentity::fixture("min_u8").unwrap());
    assert_eq!(
        merge_stored(&mut corpus, &other, &vec![], &vec![], "h").unwrap_err(),
        "initial corpus signature mismatch"
    );
}
