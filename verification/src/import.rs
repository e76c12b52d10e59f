//! Imported observations: documents of input patterns with an optional
//! expected result and their provenance, checked against a corpus's
//! signature and replayed into it with the oracle's values.
use vstd::prelude::*;
use vstd::utf8::encode_utf8;

use crate::corpus::{
    cases_model, cases_sorted, compare_keys, corpus_ok, decode_input, decoded, decodes,
    lemma_model_add_again, model_add, model_sorted, observation_key, strings_view, Case, Corpus,
    Provenance,
};
use crate::literal::{spec_from_hex, spec_hex};
use crate::sig::Signature;
use crate::text::{chars_eq, chars_of, err, extend_chars, string_of};
use crate::types::{Type, Value};

verus! {

/// The import document format this library reads.
pub const IMPORT_SCHEMA: u32 = 1;

/// Most cases in one import document.
pub const IMPORT_CASE_LIMIT: usize = 65536;

/// Most provenance records of one imported case.
pub const RECORD_LIMIT: usize = 32;

/// Most UTF-8 bytes of one provenance record.
pub const RECORD_BYTES: usize = 1024;

/// One imported observation: input patterns, the result the importer
/// expects, if any, and where the observation came from.
#[derive(Clone, Debug)]
pub struct ImportedCase {
    pub input: Vec<String>,
    pub expected: Option<String>,
    pub provenance: Vec<String>,
}

/// An import document: its format, the signature it was made for and
/// its cases.
#[derive(Clone, Debug)]
pub struct ImportDocument {
    pub schema_version: u32,
    pub signature: Signature,
    pub cases: Vec<ImportedCase>,
}

/// The document's format, signature and case count are supported for a
/// corpus of signature `s`.
pub open spec fn header_ok(d: ImportDocument, s: Signature) -> bool {
    &&& d.schema_version == IMPORT_SCHEMA
    &&& d.signature.view_pair() == s.view_pair()
    &&& 0 < d.cases@.len() <= IMPORT_CASE_LIMIT
}

/// A case has one to 32 provenance records, each of one to 1024 bytes.
pub open spec fn provenance_ok(c: ImportedCase) -> bool {
    &&& 1 <= c.provenance@.len() <= RECORD_LIMIT
    &&& forall|j: int|
        0 <= j < c.provenance@.len() ==> 0 < (#[trigger] c.provenance@[j])@.len() && encode_utf8(c.provenance@[j]@).len()
            <= RECORD_BYTES
}

/// A case's provenance is acceptable, its expected result reads as a
/// value of the return type and its input decodes.
pub open spec fn case_ok(c: ImportedCase, s: Signature) -> bool {
    &&& provenance_ok(c)
    &&& (c.expected matches Some(e) ==> spec_from_hex(s.return_type, e@) is Some)
    &&& decodes(s.arguments@, strings_view(c.input@))
}

/// The whole document can be replayed into a corpus of signature `s`.
pub open spec fn import_ok(d: ImportDocument, s: Signature) -> bool {
    &&& header_ok(d, s)
    &&& forall|i: int| 0 <= i < d.cases@.len() ==> case_ok(#[trigger] d.cases@[i], s)
}

/// Checks a case's provenance records.
fn check_provenance(c: &ImportedCase) -> (r: bool)
    ensures
        r == provenance_ok(*c),
{
    let n = c.provenance.len();
    if n < 1 || n > RECORD_LIMIT {
        return false;
    }
    let mut j: usize = 0;
    while j < n
        invariant
            0 <= j <= n,
            n == c.provenance@.len(),
            1 <= n <= RECORD_LIMIT,
            forall|k: int|
                0 <= k < j ==> 0 < (#[trigger] c.provenance@[k])@.len() && encode_utf8(c.provenance@[k]@).len()
                    <= RECORD_BYTES,
        decreases n - j,
    {
        let text = c.provenance[j].as_str();
        let bytes = text.as_bytes().len();
        let chars = chars_of(text);
        assert(text@ == c.provenance@[j as int]@);
        assert(bytes == encode_utf8(text@).len());
        if chars.len() == 0 || bytes > RECORD_BYTES {
            return false;
        }
        j += 1;
    }
    true
}

/// The inputs of an import document, after checking it against a
/// corpus's signature: format, signature and case count first, then each
/// case in order for its provenance, its expected result and its input.
pub fn import_inputs(document: &ImportDocument, signature: &Signature) -> (r: Result<Vec<Vec<Value>>, String>)
    ensures
        r is Ok <==> import_ok(*document, *signature),
        !header_ok(*document, *signature) ==> (r matches Err(m) && m@
            == "import schema, signature or case count unsupported"@),
        header_ok(*document, *signature) && (exists|i: int|
            0 <= i < document.cases@.len() && !provenance_ok(#[trigger] document.cases@[i]) && forall|j: int|
                0 <= j < i ==> case_ok(#[trigger] document.cases@[j], *signature)) ==> (r matches Err(m) && m@
            == "import provenance must contain 1..32 nonempty records up to 1024 bytes"@),
        r matches Ok(inputs) ==> inputs@.len() == document.cases@.len() && forall|i: int|
            0 <= i < inputs@.len() ==> (#[trigger] inputs@[i])@ == decoded(
                signature.arguments@,
                strings_view(document.cases@[i].input@),
            ),
{
    if document.schema_version != IMPORT_SCHEMA || !document.signature.same(signature)
        || document.cases.len() == 0 || document.cases.len() > IMPORT_CASE_LIMIT {
        return err("import schema, signature or case count unsupported");
    }
    let mut inputs: Vec<Vec<Value>> = Vec::new();
    let mut i: usize = 0;
    while i < document.cases.len()
        invariant
            0 <= i <= document.cases@.len(),
            header_ok(*document, *signature),
            inputs@.len() == i,
            forall|j: int| 0 <= j < i ==> case_ok(#[trigger] document.cases@[j], *signature),
            forall|j: int|
                0 <= j < i ==> (#[trigger] inputs@[j])@ == decoded(
                    signature.arguments@,
                    strings_view(document.cases@[j].input@),
                ),
        decreases document.cases@.len() - i,
    {
        let c = &document.cases[i];
        if !check_provenance(c) {
            return err("import provenance must contain 1..32 nonempty records up to 1024 bytes");
        }
        if let Some(e) = &c.expected {
            match Value::from_hex(document.signature.return_type, e.as_str()) {
                Ok(_) => {},
                Err(m) => {
                    return Err(m);
                },
            }
        }
        let args = match decode_input(&document.signature, &c.input) {
            Ok(a) => a,
            Err(m) => {
                return Err(m);
            },
        };
        inputs.push(args);
        i += 1;
    }
    Ok(inputs)
}

/// The value that `Corpus::add` records for a result pattern.
pub open spec fn recorded(ret: Type, pattern: Seq<char>) -> Seq<char> {
    spec_hex(spec_from_hex(ret, pattern)->0)
}

/// One replayed case: refused when the importer's expected result is not
/// the oracle's value or the value has no pattern of the return type,
/// otherwise added as an observation.
pub open spec fn replay_step(
    v: Seq<(Seq<Seq<char>>, Seq<char>)>,
    s: Signature,
    c: ImportedCase,
    value: Value,
) -> Option<Seq<(Seq<Seq<char>>, Seq<char>)>> {
    if c.expected matches Some(e) && spec_from_hex(s.return_type, e@) != Some(value) {
        None
    } else if spec_from_hex(s.return_type, spec_hex(value)) is None {
        None
    } else {
        model_add(
            v,
            observation_key(s.arguments@, strings_view(c.input@)),
            recorded(s.return_type, spec_hex(value)),
        )
    }
}

/// The cases after replaying the first `n` imported cases with the
/// oracle's values, or none when a step is refused.
pub open spec fn replay_model(
    v: Seq<(Seq<Seq<char>>, Seq<char>)>,
    s: Signature,
    cases: Seq<ImportedCase>,
    values: Seq<Value>,
    n: nat,
) -> Option<Seq<(Seq<Seq<char>>, Seq<char>)>>
    decreases n,
{
    if n == 0 {
        Some(v)
    } else {
        match replay_model(v, s, cases, values, (n - 1) as nat) {
            None => None,
            Some(w) => replay_step(w, s, cases[n - 1], values[n - 1]),
        }
    }
}

/// Once a replay is refused, replaying more cases is refused too.
proof fn lemma_replay_stays_refused(
    v: Seq<(Seq<Seq<char>>, Seq<char>)>,
    s: Signature,
    cases: Seq<ImportedCase>,
    values: Seq<Value>,
    k: nat,
    n: nat,
)
    requires
        k <= n,
        replay_model(v, s, cases, values, k) is None,
    ensures
        replay_model(v, s, cases, values, n) is None,
    decreases n,
{
    if n > k {
        lemma_replay_stays_refused(v, s, cases, values, k, (n - 1) as nat);
    }
}

/// Sorted cases have sorted patterns.
proof fn lemma_sorted_model(cs: Seq<Case>)
    ensures
        cases_sorted(cs) <==> model_sorted(cases_model(cs)),
{
    let v = cases_model(cs);
    if cases_sorted(cs) {
        assert forall|i: int, j: int| 0 <= i < j < v.len() implies crate::corpus::key_less(
            (#[trigger] v[i]).0,
            (#[trigger] v[j]).0,
        ) by {
            assert(v[i].0 == crate::corpus::case_key(cs[i]));
            assert(v[j].0 == crate::corpus::case_key(cs[j]));
        }
    }
    if model_sorted(v) {
        assert forall|i: int, j: int| 0 <= i < j < cs.len() implies crate::corpus::key_less(
            crate::corpus::case_key(#[trigger] cs[i]),
            crate::corpus::case_key(#[trigger] cs[j]),
        ) by {
            assert(v[i].0 == crate::corpus::case_key(cs[i]));
            assert(v[j].0 == crate::corpus::case_key(cs[j]));
        }
    }
}

/// A copy of input patterns.
fn copy_input(input: &Vec<String>) -> (r: Vec<String>)
    ensures
        strings_view(r@) == strings_view(input@),
{
    let r = input.clone();
    assert forall|i: int| 0 <= i < input@.len() implies r@[i] == input@[i] by {
        assert(vstd::pervasive::cloned(input[i], r[i]));
    }
    assert(r@ =~= input@);
    r
}

/// `replayed import v1 <origin>`.
fn import_record(origin: &str) -> (r: String)
    ensures
        r@ == "replayed import v1 "@ + origin@,
{
    let mut cs = chars_of("replayed import v1 ");
    extend_chars(&mut cs, &chars_of(origin));
    string_of(&cs)
}

/// Replays an import document into a corpus with the oracle's values for
/// its inputs, case by case: the importer's expected result must be the
/// oracle's value; the value is added under the replay record and under
/// each of the case's provenance records. The document is checked first,
/// as `import_inputs` checks it, and a refused document leaves the
/// corpus as it was. Only as many cases as there are values are
/// replayed.
#[verifier::spinoff_prover]
pub fn replay(corpus: &mut Corpus, document: &ImportDocument, values: &Vec<Value>, origin: &str) -> (r: Result<
    (),
    String,
>)
    ensures
        final(corpus).target == old(corpus).target,
        !import_ok(*document, old(corpus).target.signature) ==> r is Err && final(corpus).cases@ == old(
            corpus,
        ).cases@,
        import_ok(*document, old(corpus).target.signature) && cases_sorted(old(corpus).cases@) ==> {
            let m = replay_model(
                cases_model(old(corpus).cases@),
                old(corpus).target.signature,
                document.cases@,
                values@,
                if document.cases@.len() < values@.len() {
                    document.cases@.len()
                } else {
                    values@.len()
                },
            );
            &&& r is Ok <==> m is Some
            &&& r is Ok ==> cases_model(final(corpus).cases@) == m->0 && cases_sorted(final(corpus).cases@)
        },
{
    let ghost sig = corpus.target.signature;
    match import_inputs(document, &corpus.target.signature) {
        Ok(_) => {},
        Err(m) => {
            return Err(m);
        },
    }
    let n = if document.cases.len() < values.len() {
        document.cases.len()
    } else {
        values.len()
    };
    let ghost start = cases_model(corpus.cases@);
    let ghost sorted0 = cases_sorted(corpus.cases@);
    let record = import_record(origin);
    let mut i: usize = 0;
    while i < n
        invariant
            0 <= i <= n,
            n == (if document.cases@.len() < values@.len() {
                document.cases@.len()
            } else {
                values@.len()
            }),
            corpus.target == old(corpus).target,
            sig == corpus.target.signature,
            import_ok(*document, sig),
            start == cases_model(old(corpus).cases@),
            sorted0 == cases_sorted(old(corpus).cases@),
            sorted0 ==> replay_model(start, sig, document.cases@, values@, i as nat) == Some(
                cases_model(corpus.cases@),
            ),
            sorted0 ==> cases_sorted(corpus.cases@),
        decreases n - i,
    {
        let c = &document.cases[i];
        let value = values[i];
        assert(case_ok(document.cases@[i as int], sig));
        if let Some(e) = &c.expected {
            let want = match Value::from_hex(document.signature.return_type, e.as_str()) {
                Ok(v) => v,
                Err(m) => {
                    return Err(m);
                },
            };
            if want != value {
                proof {
                    if sorted0 {
                        assert(replay_step(cases_model(corpus.cases@), sig, document.cases@[i as int], values@[i as int])
                            is None);
                        assert(replay_model(start, sig, document.cases@, values@, (i + 1) as nat) is None);
                        lemma_replay_stays_refused(start, sig, document.cases@, values@, (i + 1) as nat, n as nat);
                    }
                }
                return err("import expected output disagrees with oracle replay");
            }
        }
        let ghost before = cases_model(corpus.cases@);
        let ghost key = observation_key(sig.arguments@, strings_view(c.input@));
        let ghost val = recorded(sig.return_type, spec_hex(value));
        proof {
            lemma_sorted_model(corpus.cases@);
        }
        let hex = value.hex();
        let input = copy_input(&c.input);
        match corpus.add(input, hex, record.clone()) {
            Ok(()) => {},
            Err(m) => {
                proof {
                    if sorted0 {
                        assert(replay_step(before, sig, document.cases@[i as int], values@[i as int]) is None);
                        assert(replay_model(start, sig, document.cases@, values@, (i + 1) as nat) is None);
                        lemma_replay_stays_refused(start, sig, document.cases@, values@, (i + 1) as nat, n as nat);
                    }
                }
                return Err(m);
            },
        }
        proof {
            lemma_sorted_model(corpus.cases@);
        }
        let ghost after = cases_model(corpus.cases@);
        let mut j: usize = 0;
        while j < c.provenance.len()
            invariant
                0 <= j <= c.provenance@.len(),
                corpus.target == old(corpus).target,
                sig == corpus.target.signature,
                decodes(sig.arguments@, strings_view(c.input@)),
                spec_from_hex(sig.return_type, spec_hex(value)) is Some,
                sorted0 ==> model_add(before, key, val) == Some(after),
                sorted0 ==> model_sorted(before),
                sorted0 ==> cases_model(corpus.cases@) == after,
                sorted0 ==> cases_sorted(corpus.cases@),
                key == observation_key(sig.arguments@, strings_view(c.input@)),
                val == recorded(sig.return_type, spec_hex(value)),
                import_ok(*document, sig),
                sig == old(corpus).target.signature,
                0 <= i < n,
                n == (if document.cases@.len() < values@.len() {
                    document.cases@.len()
                } else {
                    values@.len()
                }),
                c == document.cases@[i as int],
                value == values@[i as int],
                start == cases_model(old(corpus).cases@),
                sorted0 == cases_sorted(old(corpus).cases@),
                sorted0 ==> replay_model(start, sig, document.cases@, values@, i as nat) == Some(before),
                sorted0 ==> replay_step(before, sig, document.cases@[i as int], values@[i as int]) == Some(after),
            decreases c.provenance@.len() - j,
        {
            proof {
                if sorted0 {
                    lemma_model_add_again(before, key, val);
                }
            }
            let input = copy_input(&c.input);
            match corpus.add(input, value.hex(), c.provenance[j].clone()) {
                Ok(()) => {},
                Err(m) => {
                    return Err(m);
                },
            }
            proof {
                lemma_sorted_model(corpus.cases@);
            }
            j += 1;
        }
        i += 1;
    }
    Ok(())
}


/// Most cases of a stored corpus.
pub const STORED_CASE_LIMIT: usize = 65536;

/// Stored provenance lists the corpus's inputs in order, each with at
/// least one record.
pub open spec fn stored_provenance_ok(cases: Seq<Case>, provenance: Seq<Provenance>) -> bool {
    &&& provenance.len() == cases.len()
    &&& forall|i: int|
        0 <= i < provenance.len() ==> strings_view((#[trigger] provenance[i]).input@) == strings_view(cases[i].input@)
            && provenance[i].records@.len() > 0
}

/// Checks a stored corpus and, when there is one, its provenance: the
/// corpus must be valid and hold at most 65536 cases, and the provenance
/// must match it.
pub fn check_stored(corpus: &Corpus, provenance: &Option<Vec<Provenance>>) -> (r: Result<(), String>)
    ensures
        r is Ok <==> corpus_ok(*corpus) && corpus.cases@.len() <= STORED_CASE_LIMIT && (provenance matches Some(
            p,
        ) ==> stored_provenance_ok(corpus.cases@, p@)),
        corpus_ok(*corpus) && corpus.cases@.len() > STORED_CASE_LIMIT ==> (r matches Err(m) && m@
            == "corpus exceeds case limit"@),
        corpus_ok(*corpus) && corpus.cases@.len() <= STORED_CASE_LIMIT && (provenance matches Some(p)
            && !stored_provenance_ok(corpus.cases@, p@)) ==> (r matches Err(m) && m@
            == "stored corpus provenance mismatch"@),
{
    corpus.validate()?;
    if corpus.cases.len() > STORED_CASE_LIMIT {
        return err("corpus exceeds case limit");
    }
    if let Some(p) = provenance {
        if p.len() != corpus.cases.len() {
            return err("stored corpus provenance mismatch");
        }
        let mut i: usize = 0;
        while i < p.len()
            invariant
                0 <= i <= p@.len(),
                p@.len() == corpus.cases@.len(),
                corpus_ok(*corpus),
                corpus.cases@.len() <= STORED_CASE_LIMIT,
                *provenance == Some(*p),
                forall|j: int|
                    0 <= j < i ==> strings_view((#[trigger] p@[j]).input@) == strings_view(corpus.cases@[j].input@)
                        && p@[j].records@.len() > 0,
            decreases p@.len() - i,
        {
            if compare_keys(&p[i].input, &corpus.cases[i].input) != 0 || p[i].records.len() == 0 {
                return err("stored corpus provenance mismatch");
            }
            i += 1;
        }
    }
    Ok(())
}

/// The inputs of a stored corpus's cases, for the oracle to replay.
pub fn stored_inputs(stored: &Corpus) -> (r: Result<Vec<Vec<Value>>, String>)
    ensures
        r is Ok <==> forall|i: int|
            0 <= i < stored.cases@.len() ==> decodes(
                stored.target.signature.arguments@,
                strings_view((#[trigger] stored.cases@[i]).input@),
            ),
        r matches Ok(inputs) ==> inputs@.len() == stored.cases@.len() && forall|i: int|
            0 <= i < inputs@.len() ==> (#[trigger] inputs@[i])@ == decoded(
                stored.target.signature.arguments@,
                strings_view(stored.cases@[i].input@),
            ),
{
    let mut inputs: Vec<Vec<Value>> = Vec::new();
    let mut i: usize = 0;
    while i < stored.cases.len()
        invariant
            0 <= i <= stored.cases@.len(),
            inputs@.len() == i,
            forall|j: int|
                0 <= j < i ==> decodes(
                    stored.target.signature.arguments@,
                    strings_view((#[trigger] stored.cases@[j]).input@),
                ),
            forall|j: int|
                0 <= j < i ==> (#[trigger] inputs@[j])@ == decoded(
                    stored.target.signature.arguments@,
                    strings_view(stored.cases@[j].input@),
                ),
        decreases stored.cases@.len() - i,
    {
        let args = decode_input(&stored.target.signature, &stored.cases[i].input)?;
        inputs.push(args);
        i += 1;
    }
    Ok(inputs)
}

/// One replayed stored case: refused when the oracle's value is not the
/// stored result, otherwise added as an observation.
pub open spec fn merge_step(
    v: Seq<(Seq<Seq<char>>, Seq<char>)>,
    s: Signature,
    c: Case,
    value: Value,
) -> Option<Seq<(Seq<Seq<char>>, Seq<char>)>> {
    if spec_hex(value) != c.expected@ {
        None
    } else {
        model_add(
            v,
            observation_key(s.arguments@, strings_view(c.input@)),
            recorded(s.return_type, spec_hex(value)),
        )
    }
}

/// The cases after replaying the first `n` stored cases with the
/// oracle's values, or none when a step is refused.
pub open spec fn merge_model(
    v: Seq<(Seq<Seq<char>>, Seq<char>)>,
    s: Signature,
    cases: Seq<Case>,
    values: Seq<Value>,
    n: nat,
) -> Option<Seq<(Seq<Seq<char>>, Seq<char>)>>
    decreases n,
{
    if n == 0 {
        Some(v)
    } else {
        match merge_model(v, s, cases, values, (n - 1) as nat) {
            None => None,
            Some(w) => merge_step(w, s, cases[n - 1], values[n - 1]),
        }
    }
}

/// Once a merge is refused, merging more cases is refused too.
proof fn lemma_merge_stays_refused(
    v: Seq<(Seq<Seq<char>>, Seq<char>)>,
    s: Signature,
    cases: Seq<Case>,
    values: Seq<Value>,
    k: nat,
    n: nat,
)
    requires
        k <= n,
        merge_model(v, s, cases, values, k) is None,
    ensures
        merge_model(v, s, cases, values, n) is None,
    decreases n,
{
    if n > k {
        lemma_merge_stays_refused(v, s, cases, values, k, (n - 1) as nat);
    }
}

/// `replayed stored corpus <origin>`.
fn stored_record(origin: &str) -> (r: String)
    ensures
        r@ == "replayed stored corpus "@ + origin@,
{
    let mut cs = chars_of("replayed stored corpus ");
    extend_chars(&mut cs, &chars_of(origin));
    string_of(&cs)
}

/// Replays a stored corpus into a corpus with the oracle's values for its
/// inputs, case by case: each value must be the stored result; it is
/// added under the replay record and under each of the case's provenance
/// records, if any. The two corpora must have the same signature. Only as
/// many cases as there are values are replayed.
#[verifier::spinoff_prover]
pub fn merge_stored(
    corpus: &mut Corpus,
    stored: &Corpus,
    provenance: &Vec<Provenance>,
    values: &Vec<Value>,
    origin: &str,
) -> (r: Result<(), String>)
    ensures
        final(corpus).target == old(corpus).target,
        stored.target.signature.view_pair() != old(corpus).target.signature.view_pair() ==> (r matches Err(m) && m@
            == "initial corpus signature mismatch"@ && final(corpus).cases@ == old(corpus).cases@),
        stored.target.signature.view_pair() == old(corpus).target.signature.view_pair() && corpus_ok(*stored)
            && cases_sorted(old(corpus).cases@) ==> {
            let m = merge_model(
                cases_model(old(corpus).cases@),
                old(corpus).target.signature,
                stored.cases@,
                values@,
                if stored.cases@.len() < values@.len() {
                    stored.cases@.len()
                } else {
                    values@.len()
                },
            );
            &&& r is Ok <==> m is Some
            &&& r is Ok ==> cases_model(final(corpus).cases@) == m->0 && cases_sorted(final(corpus).cases@)
        },
{
    if !stored.target.signature.same(&corpus.target.signature) {
        return err("initial corpus signature mismatch");
    }
    let ghost sig = corpus.target.signature;
    let n = if stored.cases.len() < values.len() {
        stored.cases.len()
    } else {
        values.len()
    };
    let ghost start = cases_model(corpus.cases@);
    let ghost sorted0 = cases_sorted(corpus.cases@) && corpus_ok(*stored);
    let record = stored_record(origin);
    let mut i: usize = 0;
    while i < n
        invariant
            0 <= i <= n,
            n == (if stored.cases@.len() < values@.len() {
                stored.cases@.len()
            } else {
                values@.len()
            }),
            corpus.target == old(corpus).target,
            sig == corpus.target.signature,
            stored.target.signature.view_pair() == sig.view_pair(),
            start == cases_model(old(corpus).cases@),
            sorted0 == (cases_sorted(old(corpus).cases@) && corpus_ok(*stored)),
            sorted0 ==> merge_model(start, sig, stored.cases@, values@, i as nat) == Some(cases_model(corpus.cases@)),
            sorted0 ==> cases_sorted(corpus.cases@),
        decreases n - i,
    {
        let c = &stored.cases[i];
        let value = values[i];
        let hex = value.hex();
        let here = chars_of(hex.as_str());
        let want = chars_of(c.expected.as_str());
        if !chars_eq(&here, &want) {
            proof {
                if sorted0 {
                    assert(merge_step(cases_model(corpus.cases@), sig, stored.cases@[i as int], values@[i as int])
                        is None);
                    assert(merge_model(start, sig, stored.cases@, values@, (i + 1) as nat) is None);
                    lemma_merge_stays_refused(start, sig, stored.cases@, values@, (i + 1) as nat, n as nat);
                }
            }
            return err("stored corpus label disagrees with fresh oracle replay");
        }
        let ghost before = cases_model(corpus.cases@);
        let ghost key = observation_key(sig.arguments@, strings_view(c.input@));
        let ghost val = recorded(sig.return_type, spec_hex(value));
        proof {
            lemma_sorted_model(corpus.cases@);
            if sorted0 {
                assert(decodes(stored.target.signature.arguments@, strings_view(stored.cases@[i as int].input@)));
                assert(spec_from_hex(sig.return_type, c.expected@) is Some);
            }
        }
        let input = copy_input(&c.input);
        match corpus.add(input, hex, record.clone()) {
            Ok(()) => {},
            Err(m) => {
                proof {
                    if sorted0 {
                        assert(merge_step(before, sig, stored.cases@[i as int], values@[i as int]) is None);
                        assert(merge_model(start, sig, stored.cases@, values@, (i + 1) as nat) is None);
                        lemma_merge_stays_refused(start, sig, stored.cases@, values@, (i + 1) as nat, n as nat);
                    }
                }
                return Err(m);
            },
        }
        proof {
            lemma_sorted_model(corpus.cases@);
        }
        let ghost after = cases_model(corpus.cases@);
        if i < provenance.len() {
            let records = &provenance[i].records;
            let mut j: usize = 0;
            while j < records.len()
                invariant
                    0 <= j <= records@.len(),
                    corpus.target == old(corpus).target,
                    sig == corpus.target.signature,
                    stored.target.signature.view_pair() == sig.view_pair(),
                    sorted0 ==> decodes(sig.arguments@, strings_view(c.input@)),
                    sorted0 ==> spec_from_hex(sig.return_type, spec_hex(value)) is Some,
                    sorted0 ==> model_add(before, key, val) == Some(after),
                    sorted0 ==> model_sorted(before),
                    sorted0 ==> cases_model(corpus.cases@) == after,
                    sorted0 ==> cases_sorted(corpus.cases@),
                    key == observation_key(sig.arguments@, strings_view(c.input@)),
                    val == recorded(sig.return_type, spec_hex(value)),
                    0 <= i < n,
                    n == (if stored.cases@.len() < values@.len() {
                        stored.cases@.len()
                    } else {
                        values@.len()
                    }),
                    c == stored.cases@[i as int],
                    value == values@[i as int],
                    start == cases_model(old(corpus).cases@),
                    sorted0 == (cases_sorted(old(corpus).cases@) && corpus_ok(*stored)),
                    sorted0 ==> merge_model(start, sig, stored.cases@, values@, i as nat) == Some(before),
                    sorted0 ==> merge_step(before, sig, stored.cases@[i as int], values@[i as int]) == Some(after),
                decreases records@.len() - j,
            {
                proof {
                    if sorted0 {
                        lemma_model_add_again(before, key, val);
                    }
                }
                let input = copy_input(&c.input);
                match corpus.add(input, value.hex(), records[j].clone()) {
                    Ok(()) => {},
                    Err(m) => {
                        return Err(m);
                    },
                }
                proof {
                    lemma_sorted_model(corpus.cases@);
                }
                j += 1;
            }
        }
        i += 1;
    }
    Ok(())
}

} // verus!
