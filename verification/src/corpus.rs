//! Corpora of observations: target identity, cases in canonical
//! hexadecimal form, provenance, the byte transport of values, and the
//! generation of boundary, random and holdout inputs.
use vstd::prelude::*;
use vstd::utf8::encode_utf8;

use crate::fixtures::{fixture_fingerprint, fixture_observe, fixture_signature};
use crate::formal::decimal_u64;
use crate::digest::sha256_hex;
use crate::literal::{lemma_from_hex_wf, spec_from_hex, spec_hex};
use crate::rng::Rng;
use crate::sig::{copy_types, sig_valid, Signature};
use crate::source::decimal;
use crate::text::{chars_eq, chars_of, err, extend_chars, string_of};
use crate::types::{Type, Value};
use crate::validate::SCHEMA_VERSION;

verus! {

/// What a target is: its name, signature, contract and the fingerprint
/// of its implementation.
#[derive(Clone, Debug, PartialEq, Eq)]
pub struct TargetIdentity {
    pub name: String,
    pub signature: Signature,
    pub contract: String,
    pub implementation_fingerprint: String,
}

impl TargetIdentity {
    /// The identity of a fixture oracle.
    pub fn fixture(name: &str) -> (r: Result<TargetIdentity, String>)
        ensures
            r is Ok <==> crate::fixtures::fixture_args(name@) is Some,
            r matches Ok(t) ==> t.name@ == name@ && crate::fixtures::fixture_args(name@) == Some(
                t.signature.arguments@,
            ),
    {
        let signature = fixture_signature(name)?;
        Ok(
            TargetIdentity {
                name: name.to_owned(),
                signature,
                contract: "deterministic pure total integer return; fixture".to_owned(),
                implementation_fingerprint: fixture_fingerprint(),
            },
        )
    }
}

/// One observation: input patterns and the expected result pattern.
#[derive(Clone, Debug, PartialEq, Eq)]
pub struct Case {
    pub input: Vec<String>,
    pub expected: String,
}

/// Where the observations of one input came from.
#[derive(Clone, Debug, PartialEq, Eq)]
pub struct Provenance {
    pub input: Vec<String>,
    pub records: Vec<String>,
}

/// A corpus: cases sorted by input, each input once.
#[derive(Clone, Debug, PartialEq, Eq)]
pub struct Corpus {
    pub schema_version: u32,
    pub target: TargetIdentity,
    pub cases: Vec<Case>,
    pub provenance: Vec<Provenance>,
}

/// The strings as character sequences.
pub open spec fn strings_view(v: Seq<String>) -> Seq<Seq<char>> {
    v.map_values(|s: String| s@)
}

/// Lexicographic order of character sequences.
pub open spec fn chars_less(a: Seq<char>, b: Seq<char>) -> bool
    decreases a.len(),
{
    if a.len() == 0 {
        b.len() > 0
    } else if b.len() == 0 {
        false
    } else if a[0] != b[0] {
        a[0] < b[0]
    } else {
        chars_less(a.skip(1), b.skip(1))
    }
}

/// Lexicographic order of lists of character sequences.
pub open spec fn key_less(a: Seq<Seq<char>>, b: Seq<Seq<char>>) -> bool
    decreases a.len(),
{
    if a.len() == 0 {
        b.len() > 0
    } else if b.len() == 0 {
        false
    } else if a[0] != b[0] {
        chars_less(a[0], b[0])
    } else {
        key_less(a.skip(1), b.skip(1))
    }
}

/// Three-way comparison of the suffixes from `i` of character slices.
fn compare_chars_at(a: &[char], b: &[char], i: usize) -> (r: i8)
    requires
        i <= a@.len(),
        i <= b@.len(),
    ensures
        r == 0 <==> a@.skip(i as int) == b@.skip(i as int),
        r < 0 <==> chars_less(a@.skip(i as int), b@.skip(i as int)),
        -1 <= r <= 1,
    decreases a@.len() - i,
{
    let ghost x = a@.skip(i as int);
    let ghost y = b@.skip(i as int);
    if i == a.len() {
        if i == b.len() {
            assert(x =~= y);
            return 0;
        }
        return -1;
    }
    if i == b.len() {
        assert(x.len() != y.len());
        return 1;
    }
    assert(x[0] == a@[i as int] && y[0] == b@[i as int]);
    if a[i] != b[i] {
        assert(x[0] != y[0]);
        assert(x != y);
        if a[i] < b[i] {
            return -1;
        } else {
            return 1;
        }
    }
    let r = compare_chars_at(a, b, i + 1);
    proof {
        assert(x.skip(1) =~= a@.skip(i + 1));
        assert(y.skip(1) =~= b@.skip(i + 1));
        if x.skip(1) == y.skip(1) {
            assert(x =~= seq![x[0]] + x.skip(1));
            assert(y =~= seq![y[0]] + y.skip(1));
        }
        if x == y {
            assert(x.skip(1) == y.skip(1));
        }
    }
    r
}

/// Three-way comparison of character slices: -1, 0 or 1.
pub fn compare_chars(a: &[char], b: &[char]) -> (r: i8)
    ensures
        r == 0 <==> a@ == b@,
        r < 0 <==> chars_less(a@, b@),
        -1 <= r <= 1,
{
    assert(a@.skip(0) =~= a@);
    assert(b@.skip(0) =~= b@);
    compare_chars_at(a, b, 0)
}

/// Three-way comparison of the suffixes from `i` of string lists.
fn compare_keys_at(a: &[String], b: &[String], i: usize) -> (r: i8)
    requires
        i <= a@.len(),
        i <= b@.len(),
    ensures
        r == 0 <==> strings_view(a@).skip(i as int) == strings_view(b@).skip(i as int),
        r < 0 <==> key_less(strings_view(a@).skip(i as int), strings_view(b@).skip(i as int)),
        -1 <= r <= 1,
    decreases a@.len() - i,
{
    let ghost x = strings_view(a@).skip(i as int);
    let ghost y = strings_view(b@).skip(i as int);
    if i == a.len() {
        if i == b.len() {
            assert(x =~= y);
            return 0;
        }
        return -1;
    }
    if i == b.len() {
        assert(x.len() != y.len());
        return 1;
    }
    let p = chars_of(a[i].as_str());
    let q = chars_of(b[i].as_str());
    assert(x[0] == p@ && y[0] == q@);
    let c = compare_chars(&p, &q);
    if c != 0 {
        assert(x[0] != y[0]);
        assert(x != y);
        return c;
    }
    let r = compare_keys_at(a, b, i + 1);
    proof {
        assert(x.skip(1) =~= strings_view(a@).skip(i + 1));
        assert(y.skip(1) =~= strings_view(b@).skip(i + 1));
        if x.skip(1) == y.skip(1) {
            assert(x =~= seq![x[0]] + x.skip(1));
            assert(y =~= seq![y[0]] + y.skip(1));
        }
        if x == y {
            assert(x.skip(1) == y.skip(1));
        }
    }
    r
}

/// Three-way comparison of string lists: -1, 0 or 1.
pub fn compare_keys(a: &[String], b: &[String]) -> (r: i8)
    ensures
        r == 0 <==> strings_view(a@) == strings_view(b@),
        r < 0 <==> key_less(strings_view(a@), strings_view(b@)),
        -1 <= r <= 1,
{
    assert(strings_view(a@).skip(0) =~= strings_view(a@));
    assert(strings_view(b@).skip(0) =~= strings_view(b@));
    compare_keys_at(a, b, 0)
}

/// The canonical patterns of argument values.
pub open spec fn hex_key(args: Seq<Value>) -> Seq<Seq<char>> {
    args.map_values(|v: Value| spec_hex(v))
}

/// The inputs decode under the signature's argument types.
pub open spec fn decodes(types: Seq<Type>, input: Seq<Seq<char>>) -> bool {
    &&& input.len() == types.len()
    &&& forall|i: int| 0 <= i < input.len() ==> (spec_from_hex(types[i], #[trigger] input[i]) is Some)
}

/// The values of decodable inputs.
pub open spec fn decoded(types: Seq<Type>, input: Seq<Seq<char>>) -> Seq<Value> {
    Seq::new(input.len(), |i: int| spec_from_hex(types[i], input[i])->0)
}

/// Reads argument patterns under a signature.
pub fn decode_input(s: &Signature, input: &[String]) -> (r: Result<Vec<Value>, String>)
    ensures
        r is Ok <==> decodes(s.arguments@, strings_view(input@)),
        r matches Ok(v) ==> v@ == decoded(s.arguments@, strings_view(input@)),
{
    let ghost iv = strings_view(input@);
    if input.len() != s.arguments.len() {
        return err("input argument count mismatch");
    }
    let mut out: Vec<Value> = Vec::new();
    let mut i: usize = 0;
    while i < input.len()
        invariant
            0 <= i <= input@.len(),
            iv == strings_view(input@),
            input@.len() == s.arguments@.len(),
            out@.len() == i,
            forall|j: int| 0 <= j < i ==> (spec_from_hex(s.arguments@[j], #[trigger] iv[j]) is Some),
            forall|j: int| 0 <= j < i ==> #[trigger] out@[j] == spec_from_hex(s.arguments@[j], iv[j])->0,
        decreases input@.len() - i,
    {
        assert(iv[i as int] == input@[i as int]@);
        let v = Value::from_hex(s.arguments[i], input[i].as_str())?;
        out.push(v);
        i += 1;
    }
    assert(out@ =~= decoded(s.arguments@, iv));
    Ok(out)
}

/// The `n` low bytes of `x`, least significant first.
pub open spec fn le_bytes(x: u64, n: nat) -> Seq<u8>
    decreases n,
{
    if n == 0 {
        seq![]
    } else {
        seq![(x % 256) as u8] + le_bytes(x / 256, (n - 1) as nat)
    }
}

/// Number of bytes of a type on the wire.
pub open spec fn byte_width(t: Type) -> nat {
    (t.spec_width() / 8) as nat
}

/// The wire form of argument values: each value's low bytes, in order.
pub open spec fn transport_bytes(args: Seq<Value>) -> Seq<u8>
    decreases args.len(),
{
    if args.len() == 0 {
        seq![]
    } else {
        transport_bytes(args.drop_last()) + le_bytes(args.last().bits, byte_width(args.last().ty))
    }
}

/// The arguments fit the signature, which is supported.
pub open spec fn transport_fits(s: Seq<Type>, ret: Type, args: Seq<Value>) -> bool {
    &&& sig_valid(s, ret)
    &&& args.len() == s.len()
    &&& forall|i: int|
        0 <= i < args.len() ==> (#[trigger] args[i]).ty == s[i] && args[i].bits <= s[i].spec_mask()
}

/// Appends the `n` low bytes of `x`.
pub(crate) fn push_le(out: &mut Vec<u8>, x: u64, n: u32)
    ensures
        final(out)@ == old(out)@ + le_bytes(x, n as nat),
    decreases n,
{
    if n > 0 {
        out.push((x % 256) as u8);
        push_le(out, x / 256, n - 1);
        assert(old(out)@.push((x % 256) as u8) + le_bytes(x / 256, (n - 1) as nat) =~= old(out)@
            + le_bytes(x, n as nat));
    }
}

/// The wire form of arguments of a signature.
pub fn encode_transport(s: &Signature, args: &[Value]) -> (r: Result<Vec<u8>, String>)
    ensures
        r is Ok <==> transport_fits(s.arguments@, s.return_type, args@),
        r matches Ok(b) ==> b@ == transport_bytes(args@),
{
    s.validate()?;
    if args.len() != s.arguments.len() {
        return err("transport argument count mismatch");
    }
    let mut out: Vec<u8> = Vec::new();
    let mut i: usize = 0;
    while i < args.len()
        invariant
            0 <= i <= args@.len(),
            args@.len() == s.arguments@.len(),
            out@ == transport_bytes(args@.subrange(0, i as int)),
            forall|j: int|
                0 <= j < i ==> (#[trigger] args@[j]).ty == s.arguments@[j] && args@[j].bits
                    <= s.arguments@[j].spec_mask(),
        decreases args@.len() - i,
    {
        let v = args[i];
        let t = s.arguments[i];
        if v.ty != t || v.bits > t.mask() {
            return err("transport type/width mismatch");
        }
        push_le(&mut out, v.bits, t.width() / 8);
        proof {
            let pre = args@.subrange(0, i + 1 as int);
            assert(pre.drop_last() =~= args@.subrange(0, i as int));
            assert(pre.last() == v);
        }
        i += 1;
    }
    assert(args@.subrange(0, args@.len() as int) =~= args@);
    Ok(out)
}

/// The wire form of a result of type `ty`.
pub fn encode_result(ty: Type, value: Value) -> (r: Result<Vec<u8>, String>)
    ensures
        r is Ok <==> ty.spec_integer() && value.ty == ty && value.bits <= ty.spec_mask(),
        r matches Ok(b) ==> b@ == le_bytes(value.bits, byte_width(ty)),
{
    if !ty.integer() || value.ty != ty || value.bits > ty.mask() {
        return err("result transport type/width mismatch");
    }
    let mut out: Vec<u8> = Vec::new();
    push_le(&mut out, value.bits, ty.width() / 8);
    assert(out@ =~= le_bytes(value.bits, byte_width(ty)));
    Ok(out)
}

/// The sequence is strictly increasing.
pub open spec fn increasing(v: Seq<u64>) -> bool {
    forall|i: int, j: int| 0 <= i < j < v.len() ==> v[i] < v[j]
}

/// Inserts `x` into an increasing vector unless it is there.
fn insert_u64(v: &mut Vec<u64>, x: u64)
    requires
        increasing(old(v)@),
    ensures
        increasing(final(v)@),
        final(v)@.to_set() == old(v)@.to_set().insert(x),
{
    let mut k: usize = 0;
    while k < v.len() && v[k] < x
        invariant
            0 <= k <= v@.len(),
            increasing(v@),
            forall|j: int| 0 <= j < k ==> v@[j] < x,
        decreases v@.len() - k,
    {
        k += 1;
    }
    if k < v.len() && v[k] == x {
        assert(v@.to_set() =~= v@.to_set().insert(x)) by {
            assert(v@.contains(x));
        }
        return;
    }
    let ghost before = v@;
    v.insert(k, x);
    proof {
        assert(v@ =~= before.subrange(0, k as int).push(x) + before.subrange(k as int, before.len() as int));
        assert forall|y: u64| v@.to_set().contains(y) <==> before.to_set().insert(x).contains(y) by {
            if v@.contains(y) {
                let i = choose|i: int| 0 <= i < v@.len() && v@[i] == y;
                if i < k {
                    assert(before[i] == y);
                } else if i > k {
                    assert(before[i - 1] == y);
                }
            }
            if before.contains(y) {
                let i = choose|i: int| 0 <= i < before.len() && before[i] == y;
                if i < k {
                    assert(v@[i] == y);
                } else {
                    assert(v@[i + 1] == y);
                }
            }
            if y == x {
                assert(v@[k as int] == x);
            }
        }
        assert(v@.to_set() =~= before.to_set().insert(x));
    }
}

/// `p` is the power of two `2^i`, its predecessor, or its successor
/// within the mask `m`.
pub open spec fn power_pattern(p: u64, i: u64, m: u64) -> bool {
    p == (1u64 << i) || p == ((1u64 << i) - 1) as u64 || p == (((1u64 << i) as int + 1)
        % 0x10000000000000000) as u64 & m
}

/// The patterns `power_pattern(_, i, m)` for `i < k`.
pub open spec fn power_set(m: u64, k: u64) -> Set<u64> {
    Set::new(|p: u64| exists|i: u64| 0 <= i < k && #[trigger] power_pattern(p, i, m))
}

/// The boundary patterns of a type.
pub open spec fn boundary_set(t: Type) -> Set<u64> {
    let m = t.spec_mask();
    let w = t.spec_width();
    set![
        0u64,
        1u64,
        m,
        (m - 1) as u64,
        (1u64 << (w - 1) as u64),
        ((1u64 << (w - 1) as u64) - 1) as u64,
        0xaaaaaaaaaaaaaaaau64 & m,
        0x5555555555555555u64 & m,
    ].union(power_set(m, w as u64))
}

/// A power of two below `2^64` is positive.
pub proof fn lemma_shift_positive(s: u64)
    requires
        s < 64,
    ensures
        (1u64 << s) >= 1,
{
    assert((1u64 << s) >= 1) by (bit_vector)
        requires
            s < 64,
    ;
}

/// The boundary patterns of a type: zero, one, all ones and all ones but
/// the last bit, the sign bit and the largest positive value, the two
/// alternating patterns, and every power of two with its neighbours,
/// sorted, each once.
pub fn boundary_patterns(t: Type) -> (r: Vec<u64>)
    ensures
        increasing(r@),
        r@.to_set() == boundary_set(t),
{
    let m = t.mask();
    let w = t.width();
    let mut v: Vec<u64> = Vec::new();
    assert(v@.to_set() =~= Set::<u64>::empty());
    insert_u64(&mut v, 0);
    insert_u64(&mut v, 1);
    insert_u64(&mut v, m);
    insert_u64(&mut v, m - 1);
    let top = 1u64 << (w - 1);
    proof {
        lemma_shift_positive((w - 1) as u64);
    }
    insert_u64(&mut v, top);
    insert_u64(&mut v, top - 1);
    insert_u64(&mut v, 0xaaaaaaaaaaaaaaaau64 & m);
    insert_u64(&mut v, 0x5555555555555555u64 & m);
    let ghost fixed = set![
        0u64,
        1u64,
        m,
        (m - 1) as u64,
        (1u64 << (w - 1) as u64),
        ((1u64 << (w - 1) as u64) - 1) as u64,
        0xaaaaaaaaaaaaaaaau64 & m,
        0x5555555555555555u64 & m,
    ];
    assert(v@.to_set() =~= fixed);
    assert(power_set(m, 0) =~= Set::<u64>::empty());
    let mut i: u64 = 0;
    while i < w as u64
        invariant
            0 <= i <= w <= 64,
            w == t.spec_width(),
            m == t.spec_mask(),
            increasing(v@),
            v@.to_set() == fixed.union(power_set(m, i)),
        decreases w - i,
    {
        let p = 1u64 << i;
        proof {
            lemma_shift_positive(i);
        }
        insert_u64(&mut v, p);
        insert_u64(&mut v, p - 1);
        insert_u64(&mut v, p.wrapping_add(1) & m);
        proof {
            assert(p.wrapping_add(1) == (((1u64 << i) as int + 1) % 0x10000000000000000) as u64);
            let k1 = (i + 1) as u64;
            assert forall|q: u64| #[trigger] power_set(m, k1).contains(q) <==> power_set(m, i).insert(
                p,
            ).insert((p - 1) as u64).insert(p.wrapping_add(1) & m).contains(q) by {
                if q == p || q == (p - 1) as u64 || q == p.wrapping_add(1) & m {
                    assert(power_pattern(q, i, m));
                }
                if power_set(m, k1).contains(q) {
                    let j = choose|j: u64| 0 <= j < i + 1 && #[trigger] power_pattern(q, j, m);
                    if j < i {
                        assert(power_set(m, i).contains(q));
                    }
                }
                if power_set(m, i).contains(q) {
                    let j = choose|j: u64| 0 <= j < i && #[trigger] power_pattern(q, j, m);
                    assert(0 <= j < i + 1);
                }
            }
            assert(power_set(m, (i + 1) as u64) =~= power_set(m, i).insert(p).insert((p - 1) as u64).insert(
                p.wrapping_add(1) & m,
            ));
            assert(v@.to_set() =~= fixed.union(power_set(m, (i + 1) as u64)));
        }
        i += 1;
    }
    assert(fixed.union(power_set(m, w as u64)) =~= boundary_set(t));
    v
}


/// The hexadecimal patterns of values.
pub fn hex_all(args: &[Value]) -> (r: Vec<String>)
    ensures
        strings_view(r@) == hex_key(args@),
{
    let mut out: Vec<String> = Vec::new();
    let mut i: usize = 0;
    while i < args.len()
        invariant
            0 <= i <= args@.len(),
            out@.len() == i,
            forall|j: int| 0 <= j < i ==> (#[trigger] out@[j])@ == spec_hex(args@[j]),
        decreases args@.len() - i,
    {
        out.push(args[i].hex());
        i += 1;
    }
    assert(strings_view(out@) =~= hex_key(args@));
    out
}

/// Every case input decodes to values whose patterns it is, every
/// expected value is a canonical pattern of the return type, and inputs
/// strictly increase.
pub open spec fn corpus_ok(c: Corpus) -> bool {
    let types = c.target.signature.arguments@;
    let ret = c.target.signature.return_type;
    &&& c.schema_version == SCHEMA_VERSION
    &&& sig_valid(types, ret)
    &&& c.cases@.len() > 0
    &&& forall|i: int|
        0 <= i < c.cases@.len() ==> {
            let input = strings_view((#[trigger] c.cases@[i]).input@);
            &&& decodes(types, input)
            &&& hex_key(decoded(types, input)) == input
            &&& spec_from_hex(ret, c.cases@[i].expected@) matches Some(v) && spec_hex(v)
                == c.cases@[i].expected@
        }
    &&& forall|i: int|
        0 < i < c.cases@.len() ==> key_less(
            strings_view(c.cases@[i - 1].input@),
            strings_view((#[trigger] c.cases@[i]).input@),
        )
}

/// `chars_less` is irreflexive.
pub proof fn lemma_chars_less_irreflexive(a: Seq<char>)
    ensures
        !chars_less(a, a),
    decreases a.len(),
{
    if a.len() > 0 {
        lemma_chars_less_irreflexive(a.skip(1));
    }
}

/// `chars_less` is transitive.
pub proof fn lemma_chars_less_transitive(a: Seq<char>, b: Seq<char>, c: Seq<char>)
    requires
        chars_less(a, b),
        chars_less(b, c),
    ensures
        chars_less(a, c),
    decreases a.len(),
{
    if a.len() > 0 && b.len() > 0 && c.len() > 0 && a[0] == b[0] && b[0] == c[0] {
        lemma_chars_less_transitive(a.skip(1), b.skip(1), c.skip(1));
    }
}

/// Of two different character sequences, one is less than the other.
pub proof fn lemma_chars_less_total(a: Seq<char>, b: Seq<char>)
    requires
        a != b,
    ensures
        chars_less(a, b) || chars_less(b, a),
    decreases a.len(),
{
    if a.len() == 0 && b.len() == 0 {
        assert(a =~= b);
    }
    if a.len() > 0 && b.len() > 0 && a[0] == b[0] {
        if a.skip(1) == b.skip(1) {
            assert(a =~= seq![a[0]] + a.skip(1));
            assert(b =~= seq![b[0]] + b.skip(1));
        }
        lemma_chars_less_total(a.skip(1), b.skip(1));
    }
}

/// `key_less` is irreflexive.
pub proof fn lemma_key_less_irreflexive(a: Seq<Seq<char>>)
    ensures
        !key_less(a, a),
    decreases a.len(),
{
    if a.len() > 0 {
        lemma_key_less_irreflexive(a.skip(1));
    }
}

/// `key_less` is transitive.
pub proof fn lemma_key_less_transitive(a: Seq<Seq<char>>, b: Seq<Seq<char>>, c: Seq<Seq<char>>)
    requires
        key_less(a, b),
        key_less(b, c),
    ensures
        key_less(a, c),
    decreases a.len(),
{
    if a.len() > 0 && b.len() > 0 && c.len() > 0 {
        if a[0] == b[0] && b[0] == c[0] {
            lemma_key_less_transitive(a.skip(1), b.skip(1), c.skip(1));
        } else if a[0] != b[0] && b[0] != c[0] {
            lemma_chars_less_transitive(a[0], b[0], c[0]);
            if a[0] == c[0] {
                lemma_chars_less_irreflexive(a[0]);
            }
        }
    }
}

/// Of two different keys, one is less than the other.
pub proof fn lemma_key_less_total(a: Seq<Seq<char>>, b: Seq<Seq<char>>)
    requires
        a != b,
    ensures
        key_less(a, b) || key_less(b, a),
    decreases a.len(),
{
    if a.len() == 0 && b.len() == 0 {
        assert(a =~= b);
    }
    if a.len() > 0 && b.len() > 0 {
        if a[0] == b[0] {
            if a.skip(1) == b.skip(1) {
                assert(a =~= seq![a[0]] + a.skip(1));
                assert(b =~= seq![b[0]] + b.skip(1));
            }
            lemma_key_less_total(a.skip(1), b.skip(1));
        } else {
            lemma_chars_less_total(a[0], b[0]);
        }
    }
}

/// The input patterns of a case.
pub open spec fn case_key(c: Case) -> Seq<Seq<char>> {
    strings_view(c.input@)
}

/// Case inputs strictly increase.
pub open spec fn cases_sorted(cs: Seq<Case>) -> bool {
    forall|i: int, j: int|
        0 <= i < j < cs.len() ==> key_less(case_key(#[trigger] cs[i]), case_key(#[trigger] cs[j]))
}

/// Some case has the input patterns `key`.
pub open spec fn has_key(cs: Seq<Case>, key: Seq<Seq<char>>) -> bool {
    exists|i: int| 0 <= i < cs.len() && case_key(#[trigger] cs[i]) == key
}

/// Some case has the input patterns `key` and a result other than
/// `expected`.
pub open spec fn conflicts(cs: Seq<Case>, key: Seq<Seq<char>>, expected: Seq<char>) -> bool {
    exists|i: int| 0 <= i < cs.len() && case_key(#[trigger] cs[i]) == key && cs[i].expected@ != expected
}

/// `after` is `before` with a case of input patterns `key` and result
/// `expected` inserted at `k`.
pub open spec fn inserted_at(
    before: Seq<Case>,
    after: Seq<Case>,
    k: int,
    key: Seq<Seq<char>>,
    expected: Seq<char>,
) -> bool {
    &&& 0 <= k <= before.len()
    &&& after.len() == before.len() + 1
    &&& case_key(after[k]) == key
    &&& after[k].expected@ == expected
    &&& forall|j: int| 0 <= j < k ==> after[j] == before[j]
    &&& forall|j: int| k < j < after.len() ==> after[j] == before[j - 1]
}

/// What adding an observation with input patterns `key` and result
/// `value` does to sorted cases: it fails exactly on a conflicting
/// result, keeps the cases sorted, leaves them unchanged when the input
/// is known and inserts one case otherwise.
pub open spec fn add_effect(
    before: Seq<Case>,
    after: Seq<Case>,
    key: Seq<Seq<char>>,
    value: Seq<char>,
    ok: bool,
) -> bool {
    &&& !ok <==> conflicts(before, key, value)
    &&& cases_sorted(after)
    &&& ok && has_key(before, key) ==> after == before
    &&& ok && !has_key(before, key) ==> exists|k: int| inserted_at(before, after, k, key, value)
}

/// A case as its input patterns and its result pattern.
pub open spec fn case_view(c: Case) -> (Seq<Seq<char>>, Seq<char>) {
    (case_key(c), c.expected@)
}

/// The cases as input and result patterns.
pub open spec fn cases_model(cs: Seq<Case>) -> Seq<(Seq<Seq<char>>, Seq<char>)> {
    cs.map_values(|c: Case| case_view(c))
}

/// Where a new key goes among sorted keys: after every smaller key and
/// before every other.
pub open spec fn splits_at(v: Seq<(Seq<Seq<char>>, Seq<char>)>, key: Seq<Seq<char>>, k: int) -> bool {
    &&& 0 <= k <= v.len()
    &&& forall|j: int| 0 <= j < k ==> key_less((#[trigger] v[j]).0, key)
    &&& forall|j: int| k <= j < v.len() ==> !key_less((#[trigger] v[j]).0, key)
}

/// The position at which `key` is inserted.
pub open spec fn insert_index(v: Seq<(Seq<Seq<char>>, Seq<char>)>, key: Seq<Seq<char>>) -> int {
    choose|k: int| splits_at(v, key, k)
}

/// The result of adding an observation to cases: none on a conflicting
/// result, the cases themselves when the input is known, the cases with
/// the observation inserted in order otherwise.
pub open spec fn model_add(
    v: Seq<(Seq<Seq<char>>, Seq<char>)>,
    key: Seq<Seq<char>>,
    value: Seq<char>,
) -> Option<Seq<(Seq<Seq<char>>, Seq<char>)>> {
    if exists|j: int| 0 <= j < v.len() && (#[trigger] v[j]).0 == key && v[j].1 != value {
        None
    } else if exists|j: int| 0 <= j < v.len() && (#[trigger] v[j]).0 == key {
        Some(v)
    } else {
        Some(v.insert(insert_index(v, key), (key, value)))
    }
}

/// A position that splits sorted keys is the only one.
proof fn lemma_split_unique(v: Seq<(Seq<Seq<char>>, Seq<char>)>, key: Seq<Seq<char>>, k: int, m: int)
    requires
        splits_at(v, key, k),
        splits_at(v, key, m),
    ensures
        k == m,
{
    if k < m {
        assert(key_less(v[k].0, key));
    } else if m < k {
        assert(key_less(v[m].0, key));
    }
}

/// Keys of case patterns strictly increase.
pub open spec fn model_sorted(v: Seq<(Seq<Seq<char>>, Seq<char>)>) -> bool {
    forall|i: int, j: int| 0 <= i < j < v.len() ==> key_less((#[trigger] v[i]).0, (#[trigger] v[j]).0)
}

/// Sorted keys always have a place for another key.
pub proof fn lemma_split_exists(v: Seq<(Seq<Seq<char>>, Seq<char>)>, key: Seq<Seq<char>>)
    requires
        model_sorted(v),
    ensures
        splits_at(v, key, insert_index(v, key)),
    decreases v.len(),
{
    if v.len() == 0 {
        assert(splits_at(v, key, 0));
    } else {
        let u = v.drop_last();
        assert(model_sorted(u)) by {
            assert forall|i: int, j: int| 0 <= i < j < u.len() implies key_less((#[trigger] u[i]).0, (#[trigger] u[j]).0) by {
                assert(u[i] == v[i] && u[j] == v[j]);
            }
        }
        lemma_split_exists(u, key);
        let k0 = insert_index(u, key);
        let n = v.len() - 1;
        if k0 < u.len() {
            assert(!key_less(u[k0].0, key));
            if key_less(v[n].0, key) {
                assert(key_less(v[k0].0, v[n].0));
                lemma_key_less_transitive(v[k0].0, v[n].0, key);
            }
            assert forall|j: int| k0 <= j < v.len() implies !key_less((#[trigger] v[j]).0, key) by {
                if j < n {
                    assert(v[j] == u[j]);
                }
            }
            assert forall|j: int| 0 <= j < k0 implies key_less((#[trigger] v[j]).0, key) by {
                assert(v[j] == u[j]);
            }
            assert(splits_at(v, key, k0));
        } else if key_less(v[n].0, key) {
            assert forall|j: int| 0 <= j < v.len() implies key_less((#[trigger] v[j]).0, key) by {
                if j < n {
                    assert(v[j] == u[j]);
                }
            }
            assert(splits_at(v, key, v.len() as int));
        } else {
            assert forall|j: int| 0 <= j < n implies key_less((#[trigger] v[j]).0, key) by {
                assert(v[j] == u[j]);
            }
            assert(splits_at(v, key, n));
        }
    }
}

/// Adding the same observation again changes nothing.
pub proof fn lemma_model_add_again(
    v: Seq<(Seq<Seq<char>>, Seq<char>)>,
    key: Seq<Seq<char>>,
    value: Seq<char>,
)
    requires
        model_sorted(v),
        model_add(v, key, value) is Some,
    ensures
        model_add(model_add(v, key, value)->0, key, value) == Some(model_add(v, key, value)->0),
{
    let w = model_add(v, key, value)->0;
    if !(exists|j: int| 0 <= j < v.len() && (#[trigger] v[j]).0 == key) {
        lemma_split_exists(v, key);
        let k = insert_index(v, key);
        assert(w[k].0 == key);
        assert forall|j: int| 0 <= j < w.len() && (#[trigger] w[j]).0 == key implies w[j].1 == value by {
            if j < k {
                assert(w[j] == v[j]);
            } else if j > k {
                assert(w[j] == v[j - 1]);
            }
        }
    }
}

/// The canonical input patterns and result pattern of an observation.
pub open spec fn observation_key(types: Seq<Type>, input: Seq<Seq<char>>) -> Seq<Seq<char>> {
    hex_key(decoded(types, input))
}

/// Whether `a` and `b` hold the same strings.
fn same_strings(a: &Vec<String>, b: &Vec<String>) -> (r: bool)
    ensures
        r == (strings_view(a@) == strings_view(b@)),
{
    compare_keys(a, b) == 0
}

impl Corpus {
    /// An empty corpus for a target.
    pub fn new(target: TargetIdentity) -> (r: Corpus)
        ensures
            r.schema_version == SCHEMA_VERSION,
            r.target == target,
            r.cases@.len() == 0,
            r.provenance@.len() == 0,
    {
        Corpus { schema_version: SCHEMA_VERSION, target, cases: Vec::new(), provenance: Vec::new() }
    }

    /// Adds an observation in canonical form, with where it came from. An
    /// input seen before must have the same expected value; its record is
    /// added to its provenance. On sorted cases: it fails exactly when the
    /// input or the value does not decode or the input already has another
    /// result; a known input with the same result leaves the cases as they
    /// were; a new input is inserted in order.
    #[verifier::spinoff_prover]
    pub fn add(&mut self, input: Vec<String>, expected: String, record: String) -> (r: Result<(), String>)
        ensures
            !decodes(old(self).target.signature.arguments@, strings_view(input@)) ==> r is Err,
            spec_from_hex(old(self).target.signature.return_type, expected@) is None ==> r is Err,
            final(self).target == old(self).target,
            final(self).schema_version == old(self).schema_version,
            r is Err ==> final(self).cases@ == old(self).cases@,
            r is Ok ==> decodes(old(self).target.signature.arguments@, strings_view(input@)) && exists|i: int|
                0 <= i < final(self).cases@.len() && strings_view((#[trigger] final(self).cases@[i]).input@)
                    == hex_key(decoded(old(self).target.signature.arguments@, strings_view(input@)))
                    && final(self).cases@[i].expected@ == spec_hex(
                    spec_from_hex(old(self).target.signature.return_type, expected@)->0,
                ),
            r is Ok ==> old(self).cases@.len() <= final(self).cases@.len() <= old(self).cases@.len() + 1,
            r is Ok ==> exists|p: int|
                0 <= p < final(self).provenance@.len() && strings_view((#[trigger] final(self).provenance@[p]).input@)
                    == observation_key(old(self).target.signature.arguments@, strings_view(input@))
                    && strings_view(final(self).provenance@[p].records@).contains(record@),
            cases_sorted(old(self).cases@) && decodes(old(self).target.signature.arguments@, strings_view(input@))
                && spec_from_hex(old(self).target.signature.return_type, expected@) is Some ==> {
                let m = model_add(
                    cases_model(old(self).cases@),
                    observation_key(old(self).target.signature.arguments@, strings_view(input@)),
                    spec_hex(spec_from_hex(old(self).target.signature.return_type, expected@)->0),
                );
                &&& r is Ok <==> m is Some
                &&& r is Ok ==> cases_model(final(self).cases@) == m->0
            },
            cases_sorted(old(self).cases@) && decodes(old(self).target.signature.arguments@, strings_view(input@))
                && spec_from_hex(old(self).target.signature.return_type, expected@) is Some ==> add_effect(
                old(self).cases@,
                final(self).cases@,
                observation_key(old(self).target.signature.arguments@, strings_view(input@)),
                spec_hex(spec_from_hex(old(self).target.signature.return_type, expected@)->0),
                r is Ok,
            ),
    {
        let ghost types = self.target.signature.arguments@;
        let ghost ret = self.target.signature.return_type;
        let ghost old_cases = self.cases@;
        let args = decode_input(&self.target.signature, &input)?;
        let key = hex_all(&args);
        let value = Value::from_hex(self.target.signature.return_type, expected.as_str())?;
        let canonical = value.hex();
        let ghost kv = strings_view(key@);
        assert(kv == observation_key(types, strings_view(input@)));
        let mut k: usize = 0;
        while k < self.cases.len() && compare_keys(&self.cases[k].input, &key) < 0
            invariant
                0 <= k <= self.cases@.len(),
                self.cases@ == old_cases,
                kv == strings_view(key@),
                forall|j: int| 0 <= j < k ==> key_less(case_key(#[trigger] old_cases[j]), kv),
            decreases self.cases@.len() - k,
        {
            k += 1;
        }
        proof {
            if k < old_cases.len() && case_key(old_cases[k as int]) != kv {
                assert(!key_less(case_key(old_cases[k as int]), kv));
                lemma_key_less_total(case_key(old_cases[k as int]), kv);
            }
        }
        let ghost found = k < old_cases.len() && case_key(old_cases[k as int]) == kv;
        proof {
            if cases_sorted(old_cases) {
                if !found {
                    assert forall|j: int| 0 <= j < old_cases.len() implies case_key(#[trigger] old_cases[j])
                        != kv by {
                        if j < k {
                            lemma_key_less_irreflexive(kv);
                        } else {
                            assert(key_less(kv, case_key(old_cases[k as int])));
                            if j > k {
                                assert(key_less(case_key(old_cases[k as int]), case_key(old_cases[j])));
                                lemma_key_less_transitive(kv, case_key(old_cases[k as int]), case_key(old_cases[j]));
                            }
                            lemma_key_less_irreflexive(kv);
                        }
                    }
                } else {
                    assert forall|j: int| 0 <= j < old_cases.len() && j != k implies case_key(
                        #[trigger] old_cases[j],
                    ) != kv by {
                        if j < k {
                            assert(key_less(case_key(old_cases[j]), case_key(old_cases[k as int])));
                        } else {
                            assert(key_less(case_key(old_cases[k as int]), case_key(old_cases[j])));
                        }
                        lemma_key_less_irreflexive(kv);
                    }
                }
            }
        }
        if k < self.cases.len() && same_strings(&self.cases[k].input, &key) {
            let here = chars_of(self.cases[k].expected.as_str());
            let want = chars_of(canonical.as_str());
            if !chars_eq(&here, &want) {
                proof {
                    assert(case_key(old_cases[k as int]) == kv);
                    assert(conflicts(old_cases, kv, canonical@));
                    assert(has_key(old_cases, kv));
                    if cases_sorted(old_cases) {
                        assert(add_effect(old_cases, self.cases@, kv, canonical@, false));
                        let mv = cases_model(old_cases);
                        assert(mv[k as int].0 == kv && mv[k as int].1 != canonical@);
                        assert(model_add(mv, kv, canonical@) is None);
                    }
                }
                return err("conflicting outputs for the same input");
            }
        } else {
            let case = Case { input: key.clone(), expected: canonical };
            self.cases.insert(k, case);
            proof {
                let after = self.cases@;
                if cases_sorted(old_cases) {
                    assert(inserted_at(old_cases, after, k as int, kv, canonical@));
                    assert forall|i: int, j: int| 0 <= i < j < after.len() implies key_less(
                        case_key(#[trigger] after[i]),
                        case_key(#[trigger] after[j]),
                    ) by {
                        if j == k {
                            assert(after[i] == old_cases[i]);
                        } else if i == k {
                            assert(after[j] == old_cases[j - 1]);
                            if j - 1 > k {
                                assert(key_less(case_key(old_cases[k as int]), case_key(old_cases[j - 1])));
                                lemma_key_less_transitive(kv, case_key(old_cases[k as int]), case_key(old_cases[j - 1]));
                            }
                        } else if j < k {
                            assert(after[i] == old_cases[i] && after[j] == old_cases[j]);
                        } else if i < k {
                            assert(after[i] == old_cases[i] && after[j] == old_cases[j - 1]);
                        } else {
                            assert(after[i] == old_cases[i - 1] && after[j] == old_cases[j - 1]);
                        }
                    }
                }
            }
        }
        assert(strings_view(self.cases@[k as int].input@) == hex_key(args@));
        assert(self.cases@[k as int].expected@ == canonical@);
        let ghost kk = k;
        let ghost cases_now = self.cases@;
        let mut p: usize = 0;
        while p < self.provenance.len() && compare_keys(&self.provenance[p].input, &key) < 0
            invariant
                0 <= p <= self.provenance@.len(),
            decreases self.provenance@.len() - p,
        {
            p += 1;
        }
        let ghost rv = record@;
        if p < self.provenance.len() && same_strings(&self.provenance[p].input, &key) {
            let mut records = self.provenance[p].records.clone();
            insert_record(&mut records, record);
            self.provenance.set(p, Provenance { input: key, records });
        } else {
            let mut records: Vec<String> = Vec::new();
            records.push(record);
            assert(strings_view(records@)[0] == rv);
            self.provenance.insert(p, Provenance { input: key, records });
        }
        assert(strings_view(self.provenance@[p as int].input@) == kv);
        assert(strings_view(self.provenance@[p as int].records@).contains(rv));
        assert(self.cases@ == cases_now);
        assert(strings_view(self.cases@[kk as int].input@) == hex_key(
            decoded(self.target.signature.arguments@, strings_view(input@)),
        ));
        proof {
            if cases_sorted(old_cases) {
                assert(!conflicts(old_cases, kv, canonical@));
                assert(cases_sorted(self.cases@));
                assert(has_key(old_cases, kv) ==> self.cases@ == old_cases);
                assert(!has_key(old_cases, kv) ==> exists|k: int| inserted_at(old_cases, self.cases@, k, kv, canonical@));
                assert(add_effect(old_cases, self.cases@, kv, canonical@, true));
                let mv = cases_model(old_cases);
                if found {
                    assert(mv[k as int].0 == kv);
                    assert(!(exists|j: int| 0 <= j < mv.len() && (#[trigger] mv[j]).0 == kv && mv[j].1 != canonical@)) by {
                        assert forall|j: int| 0 <= j < mv.len() && (#[trigger] mv[j]).0 == kv implies mv[j].1 == canonical@ by {
                            assert(mv[j] == case_view(old_cases[j]));
                        }
                    }
                    assert(cases_model(self.cases@) =~= mv);
                } else {
                    assert forall|j: int| 0 <= j < mv.len() implies (#[trigger] mv[j]).0 != kv by {
                        assert(mv[j] == case_view(old_cases[j]));
                    }
                    assert(splits_at(mv, kv, k as int)) by {
                        assert forall|j: int| 0 <= j < k implies key_less((#[trigger] mv[j]).0, kv) by {
                            assert(mv[j] == case_view(old_cases[j]));
                        }
                        assert forall|j: int| k <= j < mv.len() implies !key_less((#[trigger] mv[j]).0, kv) by {
                            assert(mv[j] == case_view(old_cases[j]));
                            assert(key_less(kv, case_key(old_cases[k as int])));
                            if j > k {
                                lemma_key_less_transitive(kv, case_key(old_cases[k as int]), case_key(old_cases[j]));
                            }
                            if key_less(mv[j].0, kv) {
                                lemma_key_less_transitive(kv, mv[j].0, kv);
                                lemma_key_less_irreflexive(kv);
                            }
                        }
                    }
                    lemma_split_unique(mv, kv, k as int, insert_index(mv, kv));
                    assert(cases_model(self.cases@) =~= mv.insert(k as int, (kv, canonical@)));
                }
            }
        }
        Ok(())
    }

    /// Checks that the corpus is well formed.
    pub fn validate(&self) -> (r: Result<(), String>)
        ensures
            r is Ok <==> corpus_ok(*self),
    {
        let ghost types = self.target.signature.arguments@;
        let ghost ret = self.target.signature.return_type;
        if self.schema_version != SCHEMA_VERSION {
            return err("unsupported corpus schema");
        }
        self.target.signature.validate()?;
        if self.cases.len() == 0 {
            return err("empty corpus");
        }
        let mut i: usize = 0;
        while i < self.cases.len()
            invariant
                0 <= i <= self.cases@.len(),
                types == self.target.signature.arguments@,
                ret == self.target.signature.return_type,
                forall|j: int|
                    0 <= j < i ==> {
                        let input = strings_view((#[trigger] self.cases@[j]).input@);
                        &&& decodes(types, input)
                        &&& hex_key(decoded(types, input)) == input
                        &&& spec_from_hex(ret, self.cases@[j].expected@) matches Some(v) && spec_hex(v)
                            == self.cases@[j].expected@
                    },
                forall|j: int|
                    0 < j < i ==> key_less(
                        strings_view(self.cases@[j - 1].input@),
                        strings_view((#[trigger] self.cases@[j]).input@),
                    ),
            decreases self.cases@.len() - i,
        {
            let c = &self.cases[i];
            let input = match decode_input(&self.target.signature, &c.input) {
                Ok(v) => v,
                Err(e) => {
                    return Err(e);
                },
            };
            let key = hex_all(&input);
            let value = match Value::from_hex(self.target.signature.return_type, c.expected.as_str()) {
                Ok(v) => v,
                Err(e) => {
                    return Err(e);
                },
            };
            let canonical = value.hex();
            let e1 = chars_of(canonical.as_str());
            let e2 = chars_of(c.expected.as_str());
            if !same_strings(&key, &c.input) || !chars_eq(&e1, &e2) {
                return err("corpus must use normalized lowercase hexadecimal");
            }
            if i > 0 && compare_keys(&self.cases[i - 1].input, &c.input) >= 0 {
                return err("corpus must have sorted unique inputs");
            }
            i += 1;
        }
        Ok(())
    }
}

/// Inserts a record into a sorted list of records, once.
fn insert_record(records: &mut Vec<String>, record: String)
    ensures
        strings_view(final(records)@).contains(record@),
        forall|t: Seq<char>| strings_view(old(records)@).contains(t) ==> strings_view(final(records)@).contains(t),
{
    let r = chars_of(record.as_str());
    let mut k: usize = 0;
    while k < records.len()
        invariant
            0 <= k <= records@.len(),
            records@ == old(records)@,
            r@ == record@,
        decreases records@.len() - k,
    {
        let here = chars_of(records[k].as_str());
        let c = compare_chars(&here, &r);
        if c == 0 {
            assert(strings_view(records@)[k as int] == record@);
            return;
        }
        if c > 0 {
            break;
        }
        k += 1;
    }
    records.insert(k, record);
    proof {
        let after = strings_view(records@);
        let before = strings_view(old(records)@);
        assert(after[k as int] == r@);
        assert forall|t: Seq<char>| before.contains(t) implies after.contains(t) by {
            let j = choose|j: int| 0 <= j < before.len() && before[j] == t;
            if j < k {
                assert(after[j] == t);
            } else {
                assert(after[j + 1] == t);
            }
        }
    }
}

/// `prefix` followed by the decimal digits of `n`.
fn labelled(prefix: &str, n: u64) -> (r: String)
    ensures
        r@ == prefix@ + crate::formal::dec(n as nat),
{
    let mut cs = chars_of(prefix);
    extend_chars(&mut cs, &decimal_u64(n));
    string_of(&cs)
}

/// The values of the patterns of a signature: one value per argument.
pub open spec fn typed(types: Seq<Type>, args: Seq<Value>) -> bool {
    &&& args.len() == types.len()
    &&& forall|i: int| 0 <= i < args.len() ==> (#[trigger] args[i]).ty == types[i] && args[i].wf()
}

/// Argument values of value 0.
fn zero_args(types: &Vec<Type>) -> (r: Vec<Value>)
    ensures
        typed(types@, r@),
{
    let mut out: Vec<Value> = Vec::new();
    let mut i: usize = 0;
    while i < types.len()
        invariant
            0 <= i <= types@.len(),
            out@.len() == i,
            forall|j: int| 0 <= j < i ==> (#[trigger] out@[j]).ty == types@[j] && out@[j].wf(),
        decreases types@.len() - i,
    {
        out.push(Value::new(types[i], 0));
        i += 1;
    }
    out
}

/// Copies of argument values.
fn copy_values(v: &Vec<Value>) -> (r: Vec<Value>)
    ensures
        r@ == v@,
{
    let mut out: Vec<Value> = Vec::new();
    let mut i: usize = 0;
    while i < v.len()
        invariant
            0 <= i <= v@.len(),
            out@ == v@.subrange(0, i as int),
        decreases v@.len() - i,
    {
        out.push(v[i]);
        i += 1;
        assert(out@ =~= v@.subrange(0, i as int));
    }
    assert(v@.subrange(0, v@.len() as int) =~= v@);
    out
}

/// Inputs that probe a signature: all zeros; each argument through its
/// boundary patterns with the others zero; the boundary patterns of all
/// arguments together, aligned and staggered; then `random` inputs drawn
/// from a generator seeded with `seed`. Each input comes with a record
/// of how it was made.
pub fn seed_inputs(s: &Signature, seed: u64, random: usize) -> (r: Vec<(Vec<Value>, String)>)
    ensures
        forall|i: int| 0 <= i < r@.len() ==> typed(s.arguments@, (#[trigger] r@[i]).0@),
        r@.len() >= 1 + random,
{
    let types = &s.arguments;
    let n = types.len();
    let mut result: Vec<(Vec<Value>, String)> = Vec::new();
    let zero = zero_args(types);
    result.push((copy_values(&zero), "boundary:zero".to_owned()));
    let mut patterns: Vec<Vec<u64>> = Vec::new();
    let mut i: usize = 0;
    while i < n
        invariant
            0 <= i <= n,
            n == types@.len(),
            patterns@.len() == i,
            forall|j: int| 0 <= j < i ==> (#[trigger] patterns@[j])@.len() > 0,
        decreases n - i,
    {
        let ps = boundary_patterns(types[i]);
        assert(ps@.to_set().contains(0u64));
        assert(ps@.len() > 0);
        patterns.push(ps);
        i += 1;
    }
    let mut i: usize = 0;
    while i < n
        invariant
            0 <= i <= n,
            n == types@.len(),
            patterns@.len() == n,
            typed(types@, zero@),
            forall|j: int| 0 <= j < result@.len() ==> typed(types@, (#[trigger] result@[j]).0@),
            result@.len() >= 1,
        decreases n - i,
    {
        let mut k: usize = 0;
        while k < patterns[i].len()
            invariant
                0 <= k <= patterns@[i as int]@.len(),
                i < n,
                n == types@.len(),
                patterns@.len() == n,
                typed(types@, zero@),
                forall|j: int| 0 <= j < result@.len() ==> typed(types@, (#[trigger] result@[j]).0@),
                result@.len() >= 1,
            decreases patterns@[i as int]@.len() - k,
        {
            let mut input = copy_values(&zero);
            input.set(i, Value::new(types[i], patterns[i][k]));
            result.push((input, labelled("boundary:argument:", i as u64)));
            k += 1;
        }
        i += 1;
    }
    let mut count: usize = 0;
    let mut i: usize = 0;
    while i < n
        invariant
            0 <= i <= n,
            patterns@.len() == n,
        decreases n - i,
    {
        if patterns[i].len() > count {
            count = patterns[i].len();
        }
        i += 1;
    }
    let mut i: usize = 0;
    while i < count
        invariant
            0 <= i <= count,
            n == types@.len(),
            n <= 4 || n == types@.len(),
            patterns@.len() == n,
            forall|j: int| 0 <= j < n ==> (#[trigger] patterns@[j])@.len() > 0,
            forall|j: int| 0 <= j < result@.len() ==> typed(types@, (#[trigger] result@[j]).0@),
            result@.len() >= 1,
        decreases count - i,
    {
        let mut stagger: usize = 0;
        while stagger < 2
            invariant
                0 <= stagger <= 2,
                n == types@.len(),
                patterns@.len() == n,
                forall|j: int| 0 <= j < n ==> (#[trigger] patterns@[j])@.len() > 0,
                forall|j: int| 0 <= j < result@.len() ==> typed(types@, (#[trigger] result@[j]).0@),
                result@.len() >= 1,
            decreases 2 - stagger,
        {
            let mut input: Vec<Value> = Vec::new();
            let mut j: usize = 0;
            while j < n
                invariant
                    0 <= j <= n,
                    n == types@.len(),
                    patterns@.len() == n,
                    forall|q: int| 0 <= q < n ==> (#[trigger] patterns@[q])@.len() > 0,
                    input@.len() == j,
                    forall|q: int| 0 <= q < j ==> (#[trigger] input@[q]).ty == types@[q] && input@[q].wf(),
                decreases n - j,
            {
                let len = patterns[j].len();
                let off = if stagger == 1 {
                    j % len
                } else {
                    0
                };
                let idx = (((i % len) as u128 + off as u128) % (len as u128)) as usize;
                input.push(Value::new(types[j], patterns[j][idx]));
                j += 1;
            }
            result.push((input, labelled("boundary:interaction:", stagger as u64)));
            stagger += 1;
        }
        i += 1;
    }
    let mut rng = Rng::new(seed);
    let mut c: usize = 0;
    let ghost before = result@.len();
    while c < random
        invariant
            0 <= c <= random,
            n == types@.len(),
            result@.len() >= 1 + c,
            forall|j: int| 0 <= j < result@.len() ==> typed(types@, (#[trigger] result@[j]).0@),
        decreases random - c,
    {
        let mut input: Vec<Value> = Vec::new();
        let mut j: usize = 0;
        while j < n
            invariant
                0 <= j <= n,
                n == types@.len(),
                input@.len() == j,
                forall|q: int| 0 <= q < j ==> (#[trigger] input@[q]).ty == types@[q] && input@[q].wf(),
            decreases n - j,
        {
            input.push(Value::new(types[j], rng.next_u64()));
            j += 1;
        }
        let mut label = chars_of("random:seed:");
        extend_chars(&mut label, &decimal_u64(seed));
        extend_chars(&mut label, &chars_of(":case:"));
        extend_chars(&mut label, &decimal_u64(c as u64));
        result.push((input, string_of(&label)));
        c += 1;
    }
    result
}

/// A corpus of a fixture oracle observed on the seed inputs.
pub fn fixture_corpus(name: &str, seed: u64, random: usize) -> (r: Result<Corpus, String>)
    ensures
        r matches Ok(c) ==> corpus_ok(c) && c.target.name@ == name@,
        crate::fixtures::fixture_args(name@) is None ==> r is Err,
{
    let target = TargetIdentity::fixture(name)?;
    let mut c = Corpus::new(target);
    let inputs = seed_inputs(&c.target.signature, seed, random);
    let mut i: usize = 0;
    while i < inputs.len()
        invariant
            0 <= i <= inputs@.len(),
            c.target.name@ == name@,
        decreases inputs@.len() - i,
    {
        let args = &inputs[i].0;
        let out = fixture_observe(name, args)?;
        c.add(hex_all(args), out.hex(), inputs[i].1.clone())?;
        i += 1;
    }
    c.validate()?;
    Ok(c)
}


/// Inputs kept apart from a corpus for evaluation.
#[derive(Clone, Debug, PartialEq, Eq)]
pub struct HoldoutInputs {
    pub seed: u64,
    pub requested: usize,
    pub domain_exhausted: bool,
    pub inputs: Vec<Vec<Value>>,
}

/// The keys of a list of string lists.
pub open spec fn keys_view(v: Seq<Vec<String>>) -> Seq<Seq<Seq<char>>> {
    v.map_values(|k: Vec<String>| strings_view(k@))
}

/// Whether `key` is among `seen`.
fn contains_key(seen: &Vec<Vec<String>>, key: &Vec<String>) -> (r: bool)
    ensures
        r == keys_view(seen@).contains(strings_view(key@)),
{
    let mut i: usize = 0;
    while i < seen.len()
        invariant
            0 <= i <= seen@.len(),
            forall|j: int| 0 <= j < i ==> keys_view(seen@)[j] != strings_view(key@),
        decreases seen@.len() - i,
    {
        if same_strings(&seen[i], key) {
            assert(keys_view(seen@)[i as int] == strings_view(key@));
            return true;
        }
        i += 1;
    }
    false
}

/// Inputs of the signature that are not in the corpus, each once, at
/// most `requested` of them. When the arguments together have at most
/// 16 bits the inputs enumerate the whole domain in a seeded odd-stride
/// order, and `domain_exhausted` says whether every input of the domain
/// is then in the corpus or the holdout; wider inputs are drawn from the
/// seeded generator, at most `64 * requested + 2^20` times.
pub fn holdout_inputs(s: &Signature, corpus: &Corpus, seed: u64, requested: usize) -> (r: HoldoutInputs)
    ensures
        r.seed == seed,
        r.requested == requested,
        r.inputs@.len() <= requested,
        forall|i: int| 0 <= i < r.inputs@.len() ==> typed(s.arguments@, (#[trigger] r.inputs@[i])@),
        forall|i: int, c: int|
            0 <= i < r.inputs@.len() && 0 <= c < corpus.cases@.len() ==> hex_key(
                (#[trigger] r.inputs@[i])@,
            ) != strings_view((#[trigger] corpus.cases@[c]).input@),
        forall|i: int, j: int|
            0 <= i < j < r.inputs@.len() ==> hex_key((#[trigger] r.inputs@[i])@) != hex_key(
                (#[trigger] r.inputs@[j])@,
            ),
{
    let types = &s.arguments;
    let n = types.len();
    let mut bits: u64 = 0;
    let mut i: usize = 0;
    while i < n
        invariant
            0 <= i <= n,
            n == types@.len(),
            bits <= 0xffff_ffff + 64,
        decreases n - i,
    {
        if bits <= 0xffff_ffff {
            bits = bits + types[i].width() as u64;
        }
        i += 1;
    }
    let mut seen: Vec<Vec<String>> = Vec::new();
    let mut c: usize = 0;
    while c < corpus.cases.len()
        invariant
            0 <= c <= corpus.cases@.len(),
            forall|k: int|
                0 <= k < c ==> keys_view(seen@).contains(
                    strings_view((#[trigger] corpus.cases@[k]).input@),
                ),
        decreases corpus.cases@.len() - c,
    {
        if !contains_key(&seen, &corpus.cases[c].input) {
            let ghost before = seen@;
            seen.push(corpus.cases[c].input.clone());
            proof {
                assert forall|k: int| 0 <= k <= c implies keys_view(seen@).contains(
                    strings_view((#[trigger] corpus.cases@[k]).input@),
                ) by {
                    if k < c {
                        let w = choose|w: int|
                            0 <= w < keys_view(before).len() && keys_view(before)[w] == strings_view(
                                corpus.cases@[k].input@,
                            );
                        assert(keys_view(seen@)[w] == keys_view(before)[w]);
                    } else {
                        assert(keys_view(seen@)[before.len() as int] == strings_view(
                            corpus.cases@[k].input@,
                        ));
                    }
                }
            }
        }
        c += 1;
    }
    let small = bits <= 16;
    let domain: u64 = if bits < 64 {
        1u64 << bits
    } else {
        0
    };
    let mut rng = Rng::new(seed);
    let (offset, stride) = if small {
        let o = rng.next_u64();
        let t = rng.next_u64() | 1;
        (o, t)
    } else {
        (0u64, 1u64)
    };
    let cap: u64 = if small {
        domain
    } else {
        let r64 = requested as u64;
        if r64 > (u64::MAX - 0x100000) / 64 {
            u64::MAX
        } else {
            r64 * 64 + 0x100000
        }
    };
    let mut inputs: Vec<Vec<Value>> = Vec::new();
    let mut cursor: u64 = 0;
    let mut tries: u64 = 0;
    while inputs.len() < requested && (bits >= 64 || (seen.len() as u64) < domain) && tries < cap
        invariant
            n == types@.len(),
            inputs@.len() <= requested,
            forall|i: int| 0 <= i < inputs@.len() ==> typed(types@, (#[trigger] inputs@[i])@),
            forall|k: int|
                0 <= k < corpus.cases@.len() ==> keys_view(seen@).contains(
                    strings_view((#[trigger] corpus.cases@[k]).input@),
                ),
            forall|i: int|
                0 <= i < inputs@.len() ==> keys_view(seen@).contains(hex_key((#[trigger] inputs@[i])@)),
            forall|i: int, k: int|
                0 <= i < inputs@.len() && 0 <= k < corpus.cases@.len() ==> hex_key(
                    (#[trigger] inputs@[i])@,
                ) != strings_view((#[trigger] corpus.cases@[k]).input@),
            forall|i: int, j: int|
                0 <= i < j < inputs@.len() ==> hex_key((#[trigger] inputs@[i])@) != hex_key(
                    (#[trigger] inputs@[j])@,
                ),
        decreases cap - tries,
    {
        tries += 1;
        let mut args: Vec<Value> = Vec::new();
        if small {
            let packed = offset.wrapping_add(cursor.wrapping_mul(stride));
            cursor = cursor.wrapping_add(1);
            let mut shift: u64 = 0;
            let mut j: usize = 0;
            while j < n
                invariant
                    0 <= j <= n,
                    n == types@.len(),
                    args@.len() == j,
                    forall|q: int| 0 <= q < j ==> (#[trigger] args@[q]).ty == types@[q] && args@[q].wf(),
                decreases n - j,
            {
                let part = if shift < 64 {
                    packed >> shift
                } else {
                    0
                };
                args.push(Value::new(types[j], part));
                if shift < 64 {
                    shift = shift + types[j].width() as u64;
                }
                j += 1;
            }
        } else {
            let mut j: usize = 0;
            while j < n
                invariant
                    0 <= j <= n,
                    n == types@.len(),
                    args@.len() == j,
                    forall|q: int| 0 <= q < j ==> (#[trigger] args@[q]).ty == types@[q] && args@[q].wf(),
                decreases n - j,
            {
                args.push(Value::new(types[j], rng.next_u64()));
                j += 1;
            }
        }
        let key = hex_all(&args);
        if !contains_key(&seen, &key) {
            let ghost before = seen@;
            let ghost old_inputs = inputs@;
            seen.push(key);
            inputs.push(args);
            proof {
                assert(keys_view(seen@) =~= keys_view(before).push(hex_key(args@)));
                assert forall|i: int| 0 <= i < inputs@.len() implies keys_view(seen@).contains(
                    hex_key((#[trigger] inputs@[i])@),
                ) by {
                    if i < old_inputs.len() {
                        assert(inputs@[i] == old_inputs[i]);
                        let w = choose|w: int|
                            0 <= w < keys_view(before).len() && keys_view(before)[w] == hex_key(
                                old_inputs[i]@,
                            );
                        assert(keys_view(seen@)[w] == keys_view(before)[w]);
                    } else {
                        assert(keys_view(seen@)[before.len() as int] == hex_key(args@));
                    }
                }
                assert forall|k: int| 0 <= k < corpus.cases@.len() implies keys_view(seen@).contains(
                    strings_view((#[trigger] corpus.cases@[k]).input@),
                ) by {
                    let w = choose|w: int|
                        0 <= w < keys_view(before).len() && keys_view(before)[w] == strings_view(
                            corpus.cases@[k].input@,
                        );
                    assert(keys_view(seen@)[w] == keys_view(before)[w]);
                }
                assert forall|i: int, k: int|
                    0 <= i < inputs@.len() && 0 <= k < corpus.cases@.len() implies hex_key(
                    (#[trigger] inputs@[i])@,
                ) != strings_view((#[trigger] corpus.cases@[k]).input@) by {
                    if i == old_inputs.len() {
                        assert(inputs@[i] == args);
                        assert(keys_view(before).contains(strings_view(corpus.cases@[k].input@)));
                    } else {
                        assert(inputs@[i] == old_inputs[i]);
                    }
                }
                assert forall|i: int, j: int| 0 <= i < j < inputs@.len() implies hex_key(
                    (#[trigger] inputs@[i])@,
                ) != hex_key((#[trigger] inputs@[j])@) by {
                    assert(inputs@[i] == old_inputs[i]);
                    if j == old_inputs.len() {
                        assert(inputs@[j] == args);
                        assert(keys_view(before).contains(hex_key(old_inputs[i]@)));
                    } else {
                        assert(inputs@[j] == old_inputs[j]);
                    }
                }
            }
        }
    }
    let exhausted = bits < 64 && seen.len() as u64 == domain;
    HoldoutInputs { seed, requested, domain_exhausted: exhausted, inputs }
}


/// A text as a field: its UTF-8 byte count as eight little-endian bytes,
/// then its UTF-8 bytes.
pub open spec fn field_bytes(s: Seq<char>) -> Seq<u8> {
    le_bytes(encode_utf8(s).len() as u64, 8) + encode_utf8(s)
}

/// The names of types, each as a field.
pub open spec fn names_bytes(ts: Seq<Type>) -> Seq<u8>
    decreases ts.len(),
{
    if ts.len() == 0 {
        seq![]
    } else {
        names_bytes(ts.drop_last()) + field_bytes(ts.last().spec_name())
    }
}

/// The canonical header of a corpus: the schema version in four bytes,
/// the target's name, its argument count in eight bytes, the argument
/// and result type names, the contract and the implementation
/// fingerprint, each text as a field.
pub open spec fn header_spec(c: Corpus) -> Seq<u8> {
    let t = c.target;
    le_bytes(c.schema_version as u64, 4) + field_bytes(t.name@) + le_bytes(
        t.signature.arguments@.len() as u64,
        8,
    ) + names_bytes(t.signature.arguments@) + field_bytes(t.signature.return_type.spec_name())
        + field_bytes(t.contract@) + field_bytes(t.implementation_fingerprint@)
}

/// One case in wire form: its arguments, then its result.
pub open spec fn case_bytes(types: Seq<Type>, ret: Type, c: Case) -> Seq<u8> {
    transport_bytes(decoded(types, strings_view(c.input@))) + le_bytes(
        spec_from_hex(ret, c.expected@)->0.bits,
        byte_width(ret),
    )
}

/// Cases in wire form, in order.
pub open spec fn cases_bytes(types: Seq<Type>, ret: Type, cs: Seq<Case>) -> Seq<u8>
    decreases cs.len(),
{
    if cs.len() == 0 {
        seq![]
    } else {
        cases_bytes(types, ret, cs.drop_last()) + case_bytes(types, ret, cs.last())
    }
}

/// The bytes whose digest is a corpus's content hash: a tag and a zero
/// byte, the header's length in eight bytes, the header, the case count
/// in eight bytes, then each case in wire form.
pub open spec fn content_bytes(c: Corpus) -> Seq<u8> {
    let h = header_spec(c);
    encode_utf8("gremlin-corpus-content-v1"@) + seq![0u8] + le_bytes(h.len() as u64, 8) + h
        + le_bytes(c.cases@.len() as u64, 8) + cases_bytes(
        c.target.signature.arguments@,
        c.target.signature.return_type,
        c.cases@,
    )
}

/// Appends the UTF-8 bytes of `text`.
fn push_text_bytes(out: &mut Vec<u8>, text: &str)
    ensures
        final(out)@ == old(out)@ + encode_utf8(text@),
{
    let bytes = text.as_bytes();
    let ghost start = out@;
    let mut i: usize = 0;
    while i < bytes.len()
        invariant
            0 <= i <= bytes@.len(),
            out@ == start + bytes@.take(i as int),
        decreases bytes@.len() - i,
    {
        out.push(bytes[i]);
        i += 1;
        assert(bytes@.take(i as int) =~= bytes@.take(i - 1) + seq![bytes@[i - 1]]);
    }
    assert(bytes@.take(i as int) =~= bytes@);
}

/// Appends `text` as a field.
pub(crate) fn push_field(out: &mut Vec<u8>, text: &str)
    ensures
        final(out)@ == old(out)@ + field_bytes(text@),
{
    let n = text.as_bytes().len();
    push_le(out, n as u64, 8);
    push_text_bytes(out, text);
    assert(final(out)@ =~= old(out)@ + field_bytes(text@)) by {
        assert(old(out)@ + le_bytes(n as u64, 8) + encode_utf8(text@) =~= old(out)@ + field_bytes(text@));
    }
}

/// Appends the bytes of `src`.
pub(crate) fn push_all(out: &mut Vec<u8>, src: &Vec<u8>)
    ensures
        final(out)@ == old(out)@ + src@,
{
    let ghost start = out@;
    let mut i: usize = 0;
    while i < src.len()
        invariant
            0 <= i <= src@.len(),
            out@ == start + src@.take(i as int),
        decreases src@.len() - i,
    {
        out.push(src[i]);
        i += 1;
        assert(src@.take(i as int) =~= src@.take(i - 1) + seq![src@[i - 1]]);
    }
    assert(src@.take(i as int) =~= src@);
}

impl Corpus {
    /// The canonical header of the corpus: schema version and target
    /// identity, each text preceded by its length.
    pub fn header_bytes(&self) -> (r: Vec<u8>)
        ensures
            r@ == header_spec(*self),
    {
        let ghost t = self.target;
        let ghost args = self.target.signature.arguments@;
        let mut out: Vec<u8> = Vec::new();
        push_le(&mut out, self.schema_version as u64, 4);
        push_field(&mut out, self.target.name.as_str());
        push_le(&mut out, self.target.signature.arguments.len() as u64, 8);
        let ghost base = out@;
        let mut i: usize = 0;
        while i < self.target.signature.arguments.len()
            invariant
                0 <= i <= args.len(),
                args == self.target.signature.arguments@,
                out@ == base + names_bytes(args.take(i as int)),
            decreases args.len() - i,
        {
            let name = self.target.signature.arguments[i].to_name();
            push_field(&mut out, name.as_str());
            i += 1;
            assert(args.take(i as int).drop_last() =~= args.take(i - 1));
            assert(base + names_bytes(args.take(i as int)) =~= base + names_bytes(args.take(i - 1))
                + field_bytes(args[i - 1].spec_name()));
        }
        assert(args.take(i as int) =~= args);
        let ret = self.target.signature.return_type.to_name();
        push_field(&mut out, ret.as_str());
        push_field(&mut out, self.target.contract.as_str());
        push_field(&mut out, self.target.implementation_fingerprint.as_str());
        assert(out@ =~= header_spec(*self));
        out
    }

    /// The SHA-256 of the content of a valid corpus: a tag, the header,
    /// the case count, then each case's input and result in wire form.
    /// Fails exactly when the corpus is not valid.
    #[verifier::spinoff_prover]
    pub fn content_hash(&self) -> (r: Result<String, String>)
        ensures
            r is Ok <==> corpus_ok(*self),
            r matches Ok(h) ==> h@ == sha256_hex(content_bytes(*self)),
    {
        self.validate()?;
        let ghost types = self.target.signature.arguments@;
        let ghost ret = self.target.signature.return_type;
        let header = self.header_bytes();
        let mut data: Vec<u8> = Vec::new();
        push_text_bytes(&mut data, "gremlin-corpus-content-v1");
        data.push(0);
        push_le(&mut data, header.len() as u64, 8);
        push_all(&mut data, &header);
        push_le(&mut data, self.cases.len() as u64, 8);
        let ghost base = data@;
        let mut k: usize = 0;
        while k < self.cases.len()
            invariant
                0 <= k <= self.cases@.len(),
                corpus_ok(*self),
                types == self.target.signature.arguments@,
                ret == self.target.signature.return_type,
                data@ == base + cases_bytes(types, ret, self.cases@.take(k as int)),
            decreases self.cases@.len() - k,
        {
            let ghost input = strings_view(self.cases@[k as int].input@);
            assert(decodes(types, input));
            let args = match decode_input(&self.target.signature, &self.cases[k].input) {
                Ok(a) => a,
                Err(e) => return Err(e),
            };
            proof {
                assert forall|i: int| 0 <= i < args@.len() implies (#[trigger] args@[i]).ty == types[i]
                    && args@[i].bits <= types[i].spec_mask() by {
                    lemma_from_hex_wf(types[i], input[i]);
                }
            }
            let wire = match encode_transport(&self.target.signature, &args) {
                Ok(w) => w,
                Err(e) => return Err(e),
            };
            proof {
                lemma_from_hex_wf(ret, self.cases@[k as int].expected@);
            }
            let result = match Value::from_hex(
                self.target.signature.return_type,
                self.cases[k].expected.as_str(),
            ) {
                Ok(v) => v,
                Err(e) => return Err(e),
            };
            let bytes = match encode_result(self.target.signature.return_type, result) {
                Ok(b) => b,
                Err(e) => return Err(e),
            };
            let ghost before = data@;
            push_all(&mut data, &wire);
            push_all(&mut data, &bytes);
            proof {
                let cs = self.cases@.take(k + 1);
                assert(cs.drop_last() =~= self.cases@.take(k as int));
                assert(cs.last() == self.cases@[k as int]);
                assert(data@ =~= base + cases_bytes(types, ret, cs));
            }
            k += 1;
        }
        assert(self.cases@.take(k as int) =~= self.cases@);
        assert(data@ =~= content_bytes(*self));
        Ok(crate::digest::hash(&data))
    }
}

} // verus!
