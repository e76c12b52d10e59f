//! The source syntax: tokens and the parse tree of a function.
use vstd::prelude::*;
use vstd::utf8::encode_utf8;

use crate::text::{chars_eq, chars_of, err};
use crate::literal::spec_parse_literal;
use crate::types::{Type, Value};

verus! {

/// Largest accepted source, in bytes.
pub const SOURCE_LIMIT: usize = 8000000;

/// The byte is ASCII whitespace (space, tab, line feed, form feed,
/// carriage return).
pub open spec fn spec_is_space(b: u8) -> bool {
    b == 32 || b == 9 || b == 10 || b == 12 || b == 13
}

/// The byte is an ASCII letter or digit.
pub open spec fn spec_is_alnum(b: u8) -> bool {
    (48 <= b <= 57) || (65 <= b <= 90) || (97 <= b <= 122)
}

/// The byte continues a word: a letter, a digit or `_`.
pub open spec fn spec_is_word(b: u8) -> bool {
    spec_is_alnum(b) || b == 95
}

/// The byte is one of the punctuation tokens `(),:{};=`.
pub open spec fn spec_is_punct(b: u8) -> bool {
    b == 40 || b == 41 || b == 44 || b == 58 || b == 123 || b == 125 || b == 59 || b == 61
}

fn is_space(b: u8) -> (r: bool)
    ensures
        r == spec_is_space(b),
{
    b == 32 || b == 9 || b == 10 || b == 12 || b == 13
}

fn is_word(b: u8) -> (r: bool)
    ensures
        r == spec_is_word(b),
{
    (48 <= b && b <= 57) || (65 <= b && b <= 90) || (97 <= b && b <= 122) || b == 95
}

fn is_punct(b: u8) -> (r: bool)
    ensures
        r == spec_is_punct(b),
{
    b == 40 || b == 41 || b == 44 || b == 58 || b == 123 || b == 125 || b == 59 || b == 61
}

/// The token made of `bytes[start..end]`, one ASCII character per byte.
fn token_of(bytes: &[u8], start: usize, end: usize) -> (r: Vec<char>)
    requires
        start <= end <= bytes@.len(),
    ensures
        r@.len() == end - start,
        forall|j: int| 0 <= j < r@.len() ==> (#[trigger] r@[j]) == (bytes@[start + j] as char),
{
    let mut out: Vec<char> = Vec::new();
    let mut i: usize = start;
    while i < end
        invariant
            start <= i <= end <= bytes@.len(),
            out@.len() == i - start,
            forall|j: int| 0 <= j < out@.len() ==> (#[trigger] out@[j]) == (bytes@[start + j] as char),
        decreases end - i,
    {
        out.push(bytes[i] as char);
        i += 1;
    }
    out
}

/// The first position from `i` whose byte does not continue a word.
pub open spec fn word_end(b: Seq<u8>, i: int) -> int
    decreases b.len() - i,
{
    if 0 <= i < b.len() && spec_is_word(b[i]) {
        word_end(b, i + 1)
    } else {
        i
    }
}

/// The first position from `i` that holds a line feed, or the end.
pub open spec fn line_end(b: Seq<u8>, i: int) -> int
    decreases b.len() - i,
{
    if 0 <= i < b.len() && b[i] != 10 {
        line_end(b, i + 1)
    } else {
        i
    }
}

/// The bytes `s..e` as characters, one per byte.
pub open spec fn byte_chars(b: Seq<u8>, s: int, e: int) -> Seq<char> {
    b.subrange(s, e).map_values(|x: u8| x as char)
}

/// `prefix` before the tokens, if there are tokens.
pub open spec fn tokens_after(prefix: Seq<Seq<char>>, rest: Option<Seq<Seq<char>>>) -> Option<Seq<Seq<char>>> {
    match rest {
        Some(ts) => Some(prefix + ts),
        None => None,
    }
}

/// The tokens of the bytes from position `i`, or none when a byte starts
/// no token: whitespace is skipped, `//` skips to the end of the line,
/// `->` and each of `(),:{};=` is a token, and a word starts with a
/// letter, a digit, `_` or `-` and goes on with letters, digits and `_`.
pub open spec fn lex_from(b: Seq<u8>, i: int) -> Option<Seq<Seq<char>>>
    decreases b.len() - i,
{
    if i < 0 || i >= b.len() {
        Some(seq![])
    } else if spec_is_space(b[i]) {
        lex_from(b, i + 1)
    } else if b[i] == 47 && i + 1 < b.len() && b[i + 1] == 47 {
        let e = line_end(b, i + 2);
        if e <= i || e > b.len() {
            None
        } else {
            lex_from(b, e)
        }
    } else if b[i] == 45 && i + 1 < b.len() && b[i + 1] == 62 {
        tokens_after(seq![seq!['-', '>']], lex_from(b, i + 2))
    } else if spec_is_punct(b[i]) {
        tokens_after(seq![seq![b[i] as char]], lex_from(b, i + 1))
    } else if spec_is_word(b[i]) || b[i] == 45 {
        let e = word_end(b, i + 1);
        if e <= i || e > b.len() {
            None
        } else {
            tokens_after(seq![byte_chars(b, i, e)], lex_from(b, e))
        }
    } else {
        None
    }
}

proof fn lemma_word_end(b: Seq<u8>, i: int)
    requires
        0 <= i <= b.len(),
    ensures
        i <= word_end(b, i) <= b.len(),
        forall|k: int| i <= k < word_end(b, i) ==> spec_is_word(#[trigger] b[k]),
    decreases b.len() - i,
{
    if i < b.len() && spec_is_word(b[i]) {
        lemma_word_end(b, i + 1);
    }
}

proof fn lemma_line_end(b: Seq<u8>, i: int)
    requires
        0 <= i <= b.len(),
    ensures
        i <= line_end(b, i) <= b.len(),
    decreases b.len() - i,
{
    if i < b.len() && b[i] != 10 {
        lemma_line_end(b, i + 1);
    }
}

/// The characters of token vectors.
pub open spec fn tokens_view(ts: Seq<Vec<char>>) -> Seq<Seq<char>> {
    ts.map_values(|t: Vec<char>| t@)
}

/// Splits a source into tokens: `->`, the punctuation `(),:{};=`, and
/// words that start with a letter, a digit, `_` or `-` and go on with
/// letters, digits and `_`. Whitespace separates tokens and `//` starts
/// a comment that runs to the end of the line. Any other byte is an error.
#[verifier::spinoff_prover]
pub fn lex(source: &str) -> (r: Result<Vec<Vec<char>>, String>)
    ensures
        r is Ok <==> lex_from(encode_utf8(source@), 0) is Some,
        r matches Ok(ts) ==> tokens_view(ts@) == lex_from(encode_utf8(source@), 0)->0,
        r matches Err(m) ==> m@ == "unexpected character in source"@,
        r matches Ok(ts) ==> forall|j: int| 0 <= j < ts@.len() ==> (#[trigger] ts@[j])@.len() > 0,
{
    let bytes = source.as_bytes();
    let ghost b = bytes@;
    assert(b == encode_utf8(source@));
    let n = bytes.len();
    let mut out: Vec<Vec<char>> = Vec::new();
    let mut i: usize = 0;
    assert(tokens_view(out@) + lex_from(b, 0)->0 =~= lex_from(b, 0)->0);
    while i < n
        invariant
            0 <= i <= n,
            n == bytes@.len(),
            b == bytes@,
            b == encode_utf8(source@),
            lex_from(b, 0) == tokens_after(tokens_view(out@), lex_from(b, i as int)),
            forall|j: int| 0 <= j < out@.len() ==> (#[trigger] out@[j])@.len() > 0,
        decreases n - i,
    {
        let c = bytes[i];
        let ghost before = tokens_view(out@);
        let ghost start = i as int;
        if is_space(c) {
            i += 1;
        } else if c == 47 && i + 1 < n && bytes[i + 1] == 47 {
            i += 2;
            while i < n && bytes[i] != 10
                invariant
                    start + 2 <= i <= n,
                    n == bytes@.len(),
                    b == bytes@,
                    line_end(b, i as int) == line_end(b, start + 2),
                decreases n - i,
            {
                i += 1;
            }
            proof {
                lemma_line_end(b, start + 2);
            }
        } else if c == 45 && i + 1 < n && bytes[i + 1] == 62 {
            out.push(vec!['-', '>']);
            i += 2;
            proof {
                assert(tokens_view(out@) =~= before + seq![seq!['-', '>']]);
            }
        } else if is_punct(c) {
            out.push(token_of(bytes, i, i + 1));
            i += 1;
            proof {
                assert(out@.last()@ =~= seq![c as char]);
                assert(tokens_view(out@) =~= before + seq![seq![c as char]]);
            }
        } else if is_word(c) || c == 45 {
            let word_start = i;
            i += 1;
            while i < n && is_word(bytes[i])
                invariant
                    start < i <= n,
                    n == bytes@.len(),
                    b == bytes@,
                    word_end(b, i as int) == word_end(b, start + 1),
                decreases n - i,
            {
                i += 1;
            }
            out.push(token_of(bytes, word_start, i));
            proof {
                lemma_word_end(b, start + 1);
                assert(out@.last()@ =~= byte_chars(b, start, i as int));
                assert(tokens_view(out@) =~= before + seq![byte_chars(b, start, i as int)]);
            }
        } else {
            assert(lex_from(b, i as int) is None);
            return err("unexpected character in source");
        }
        proof {
            let after = lex_from(b, i as int);
            match after {
                Some(ts) => {
                    assert(before + (tokens_view(out@).skip(before.len() as int) + ts) =~= tokens_view(out@) + ts);
                },
                None => {},
            }
        }
    }
    assert(lex_from(b, i as int) == Some(Seq::<Seq<char>>::empty()));
    assert(tokens_view(out@) + Seq::<Seq<char>>::empty() =~= tokens_view(out@));
    Ok(out)
}

/// An expression of the structured syntax.
pub enum Expression {
    Name(Vec<char>),
    Literal(Value),
    Apply(Vec<char>, Vec<Expression>),
}

/// A statement of the structured syntax.
pub enum Statement {
    Let(Vec<char>, Type, bool, Expression),
    Assign(Vec<char>, Expression),
    Return(Expression),
    If(Expression, Vec<Statement>, Vec<Statement>),
    While(Expression, Vec<Statement>),
    Loop(Vec<Statement>),
    Break,
    Continue,
}

/// The token at `pos` is `want`.
pub fn at(tokens: &Vec<Vec<char>>, pos: usize, want: &str) -> (r: bool)
    ensures
        r == (pos < tokens@.len() && tokens@[pos as int]@ == want@),
        r ==> pos < tokens.len(),
{
    if pos < tokens.len() {
        let w = chars_of(want);
        chars_eq(&tokens[pos], &w)
    } else {
        false
    }
}

/// The token at `pos`, which must exist.
pub fn take(tokens: &Vec<Vec<char>>, pos: usize) -> (r: Result<(Vec<char>, usize), String>)
    ensures
        r matches Ok((t, p)) ==> pos < tokens@.len() && p == pos + 1 && t@ == tokens@[pos as int]@,
        r is Err <==> pos >= tokens@.len(),
{
    if pos < tokens.len() {
        Ok((tokens[pos].clone(), pos + 1))
    } else {
        err("unexpected end of source")
    }
}

/// Consumes the token `want`.
pub fn expect(tokens: &Vec<Vec<char>>, pos: usize, want: &str) -> (r: Result<usize, String>)
    ensures
        r matches Ok(p) ==> p == pos + 1 && pos < tokens@.len() && tokens@[pos as int]@ == want@,
        r is Err <==> !(pos < tokens@.len() && tokens@[pos as int]@ == want@),
{
    if pos < tokens.len() && at(tokens, pos, want) {
        Ok(pos + 1)
    } else if pos < tokens.len() {
        err("unexpected token")
    } else {
        err("unexpected end of source")
    }
}

/// The words that cannot name a value or a function parameter.
pub open spec fn reserved() -> Seq<Seq<char>> {
    seq![
        "fn"@, "let"@, "mut"@, "return"@, "if"@, "else"@, "while"@, "loop"@, "break"@,
        "continue"@, "true"@, "false"@, "block"@, "jump"@, "branch"@,
    ]
}

/// A name: a letter or `_`, then letters, digits or `_`; not reserved.
pub open spec fn spec_is_identifier(s: Seq<char>) -> bool {
    &&& s.len() > 0
    &&& (('a' <= s[0] <= 'z') || ('A' <= s[0] <= 'Z') || s[0] == '_')
    &&& forall|j: int|
        0 <= j < s.len() ==> ('a' <= #[trigger] s[j] <= 'z') || ('A' <= s[j] <= 'Z') || ('0' <= s[j]
            <= '9') || s[j] == '_'
    &&& !reserved().contains(s)
}

fn is_reserved(s: &[char]) -> (r: bool)
    ensures
        r == reserved().contains(s@),
{
    let words = [
        "fn", "let", "mut", "return", "if", "else", "while", "loop", "break", "continue", "true",
        "false", "block", "jump", "branch",
    ];
    let mut k: usize = 0;
    while k < 15
        invariant
            0 <= k <= 15,
            forall|j: int| 0 <= j < 15 ==> (#[trigger] words@[j])@ == reserved()[j],
            forall|j: int| 0 <= j < k ==> reserved()[j] != s@,
        decreases 15 - k,
    {
        let w = chars_of(words[k]);
        if chars_eq(&w, s) {
            assert(reserved()[k as int] == s@);
            return true;
        }
        k += 1;
    }
    assert(!reserved().contains(s@)) by {
        if reserved().contains(s@) {
            let j = choose|j: int| 0 <= j < reserved().len() && reserved()[j] == s@;
            assert(reserved()[j] != s@);
        }
    }
    false
}

/// Whether `s` is a name.
pub fn is_identifier(s: &[char]) -> (r: bool)
    ensures
        r == spec_is_identifier(s@),
{
    if s.len() == 0 {
        return false;
    }
    let c = s[0];
    if !(('a' <= c && c <= 'z') || ('A' <= c && c <= 'Z') || c == '_') {
        return false;
    }
    let mut k: usize = 0;
    while k < s.len()
        invariant
            0 <= k <= s@.len(),
            forall|j: int|
                0 <= j < k ==> ('a' <= #[trigger] s@[j] <= 'z') || ('A' <= s@[j] <= 'Z') || ('0'
                    <= s@[j] <= '9') || s@[j] == '_',
        decreases s@.len() - k,
    {
        let d = s[k];
        if !(('a' <= d && d <= 'z') || ('A' <= d && d <= 'Z') || ('0' <= d && d <= '9') || d == '_') {
            return false;
        }
        k += 1;
    }
    !is_reserved(s)
}

/// Consumes a name.
pub fn identifier(tokens: &Vec<Vec<char>>, pos: usize) -> (r: Result<(Vec<char>, usize), String>)
    ensures
        r matches Ok((t, p)) ==> p == pos + 1 && pos < tokens@.len() && t@ == tokens@[pos as int]@
            && spec_is_identifier(t@),
        r is Err <==> !(pos < tokens@.len() && spec_is_identifier(tokens@[pos as int]@)),
{
    let (t, p) = take(tokens, pos)?;
    if is_identifier(&t) {
        Ok((t, p))
    } else {
        err("expected identifier")
    }
}

/// Consumes a type name.
pub fn read_type(tokens: &Vec<Vec<char>>, pos: usize) -> (r: Result<(Type, usize), String>)
    ensures
        r matches Ok((t, p)) ==> p == pos + 1 && pos < tokens@.len() && t.spec_name()
            == tokens@[pos as int]@,
        r is Err <==> !(pos < tokens@.len() && exists|t: Type| t.spec_name() == tokens@[pos as int]@),
{
    let (t, p) = take(tokens, pos)?;
    let ty = Type::parse_name(&t)?;
    Ok((ty, p))
}

/// The token starts a literal: `true`, `false`, or a digit or `-` first.
/// `e` is the name `t`.
pub open spec fn is_name(e: Expression, t: Seq<char>) -> bool {
    match e {
        Expression::Name(n) => n@ == t,
        _ => false,
    }
}

/// A token that starts a literal: a boolean, a digit or a minus sign first.
pub open spec fn spec_starts_literal(t: Seq<char>) -> bool {
    t == "true"@ || t == "false"@ || (t.len() > 0 && (('0' <= t[0] <= '9') || t[0] == '-'))
}

pub fn starts_literal(t: &[char]) -> (r: bool)
    ensures
        r == spec_starts_literal(t@),
{
    let tr = chars_of("true");
    let fl = chars_of("false");
    chars_eq(t, &tr) || chars_eq(t, &fl) || (t.len() > 0 && (('0' <= t[0] && t[0] <= '9') || t[0]
        == '-'))
}

/// Reads an expression: `op(args, ...)`, a literal or a name. Nesting
/// deeper than 128 is refused.
pub fn read_expression(tokens: &Vec<Vec<char>>, pos: usize, depth: usize) -> (r: Result<
    (Expression, usize),
    String,
>)
    ensures
        r matches Ok((_, p)) ==> pos < p <= tokens@.len(),
        depth > 128 || pos >= tokens@.len() ==> r is Err,
        depth <= 128 && pos < tokens@.len() && !(pos + 1 < tokens@.len() && tokens@[pos + 1]@ == "("@) ==> {
            let t = tokens@[pos as int]@;
            if spec_starts_literal(t) {
                &&& (r is Ok <==> spec_parse_literal(t) is Some)
                &&& r matches Ok((e, p)) ==> p == pos + 1 && e == Expression::Literal(spec_parse_literal(t)->0)
            } else {
                &&& r is Ok
                &&& r matches Ok((e, p)) ==> p == pos + 1 && is_name(e, t)
            }
        },
    decreases tokens@.len() - pos,
{
    if depth > 128 {
        return err("expression nesting exceeds 128");
    }
    let (token, p) = take(tokens, pos)?;
    if at(tokens, p, "(") {
        let mut q = p + 1;
        let mut args: Vec<Expression> = Vec::new();
        if !at(tokens, q, ")") {
            loop
                invariant
                    pos < q <= tokens@.len(),
                    depth <= 128,
                    pos + 1 < tokens@.len() && tokens@[pos + 1]@ == "("@,
                decreases tokens@.len() - q,
            {
                let (a, q2) = read_expression(tokens, q, depth + 1)?;
                args.push(a);
                q = q2;
                if !at(tokens, q, ",") {
                    break;
                }
                q = q + 1;
            }
        }
        let q = expect(tokens, q, ")")?;
        Ok((Expression::Apply(token, args), q))
    } else if starts_literal(&token) {
        let v = Value::parse_chars(&token)?;
        Ok((Expression::Literal(v), p))
    } else {
        Ok((Expression::Name(token), p))
    }
}

/// Reads a braced list of statements.
pub fn read_body(tokens: &Vec<Vec<char>>, pos: usize, depth: usize) -> (r: Result<
    (Vec<Statement>, usize),
    String,
>)
    ensures
        r matches Ok((_, p)) ==> pos < p <= tokens@.len(),
        depth > 128 || !(pos < tokens@.len() && tokens@[pos as int]@ == "{"@) ==> r is Err,
        depth <= 128 && pos + 1 < tokens@.len() && tokens@[pos as int]@ == "{"@ && tokens@[pos + 1]@ == "}"@
            ==> (r matches Ok((ss, p)) && ss@.len() == 0 && p == pos + 2),
    decreases tokens@.len() - pos, 0nat,
{
    if depth > 128 {
        return err("statement nesting exceeds 128");
    }
    let mut p = expect(tokens, pos, "{")?;
    let mut statements: Vec<Statement> = Vec::new();
    while !at(tokens, p, "}")
        invariant
            pos < p <= tokens@.len(),
            depth <= 128,
            pos + 1 < tokens@.len() && tokens@[pos + 1]@ == "}"@ ==> p == pos + 1 && statements@.len() == 0,
        decreases tokens@.len() - p,
    {
        if p >= tokens.len() {
            return err("unexpected end of source");
        }
        let (s, q) = read_statement(tokens, p, depth + 1)?;
        statements.push(s);
        p = q;
    }
    let p = expect(tokens, p, "}")?;
    Ok((statements, p))
}

/// Reads one statement.
pub fn read_statement(tokens: &Vec<Vec<char>>, pos: usize, depth: usize) -> (r: Result<
    (Statement, usize),
    String,
>)
    requires
        pos < tokens@.len(),
    ensures
        r matches Ok((_, p)) ==> pos < p <= tokens@.len(),
        ({
            let t = tokens@[pos as int]@;
            &&& t == "break"@ || t == "continue"@ ==> (r is Ok <==> pos + 1 < tokens@.len() && tokens@[pos
                + 1]@ == ";"@)
            &&& r matches Ok((st, p)) ==> if t == "let"@ {
                st is Let
            } else if t == "return"@ {
                st is Return
            } else if t == "if"@ {
                st is If
            } else if t == "while"@ {
                st is While
            } else if t == "loop"@ {
                st is Loop
            } else if t == "break"@ {
                st is Break && p == pos + 2
            } else if t == "continue"@ {
                st is Continue && p == pos + 2
            } else {
                st is Assign
            }
        }),
    decreases tokens@.len() - pos, 1nat,
{
    proof {
        reveal_strlit("let");
        reveal_strlit("return");
        reveal_strlit("if");
        reveal_strlit("while");
        reveal_strlit("loop");
        reveal_strlit("break");
        reveal_strlit("continue");
        assert("let"@.len() == 3);
        assert("return"@.len() == 6);
        assert("if"@.len() == 2);
        assert("while"@.len() == 5);
        assert("loop"@.len() == 4);
        assert("break"@.len() == 5);
        assert("continue"@.len() == 8);
        assert("let"@ != "break"@ && "let"@ != "continue"@);
        assert("return"@ != "break"@ && "return"@ != "continue"@);
        assert("if"@ != "break"@ && "if"@ != "continue"@);
        assert("while"@[0] != "break"@[0]);
        assert("while"@ != "break"@ && "while"@ != "continue"@);
        assert("loop"@ != "break"@ && "loop"@ != "continue"@);
        assert("break"@ != "continue"@);
    }
    if at(tokens, pos, "let") {
        let mut p = pos + 1;
        let mutable = at(tokens, p, "mut");
        if mutable {
            p = p + 1;
        }
        let (name, p) = identifier(tokens, p)?;
        let p = expect(tokens, p, ":")?;
        let (ty, p) = read_type(tokens, p)?;
        let p = expect(tokens, p, "=")?;
        let (e, p) = read_expression(tokens, p, 0)?;
        let p = expect(tokens, p, ";")?;
        Ok((Statement::Let(name, ty, mutable, e), p))
    } else if at(tokens, pos, "return") {
        let (e, p) = read_expression(tokens, pos + 1, 0)?;
        let p = expect(tokens, p, ";")?;
        Ok((Statement::Return(e), p))
    } else if at(tokens, pos, "if") {
        let (condition, p) = read_expression(tokens, pos + 1, 0)?;
        let (yes, p) = read_body(tokens, p, depth)?;
        if at(tokens, p, "else") {
            if at(tokens, p + 1, "if") {
                let deeper = if depth > 128 {
                    depth
                } else {
                    depth + 1
                };
                let (s, q) = read_statement(tokens, p + 1, deeper)?;
                let mut no: Vec<Statement> = Vec::new();
                no.push(s);
                Ok((Statement::If(condition, yes, no), q))
            } else {
                let (no, q) = read_body(tokens, p + 1, depth)?;
                Ok((Statement::If(condition, yes, no), q))
            }
        } else {
            Ok((Statement::If(condition, yes, Vec::new()), p))
        }
    } else if at(tokens, pos, "while") {
        let (condition, p) = read_expression(tokens, pos + 1, 0)?;
        let (body, p) = read_body(tokens, p, depth)?;
        Ok((Statement::While(condition, body), p))
    } else if at(tokens, pos, "loop") {
        let (body, p) = read_body(tokens, pos + 1, depth)?;
        Ok((Statement::Loop(body), p))
    } else if at(tokens, pos, "break") {
        let p = expect(tokens, pos + 1, ";")?;
        Ok((Statement::Break, p))
    } else if at(tokens, pos, "continue") {
        let p = expect(tokens, pos + 1, ";")?;
        Ok((Statement::Continue, p))
    } else {
        let (name, p) = identifier(tokens, pos)?;
        let p = expect(tokens, p, "=")?;
        let (e, p) = read_expression(tokens, p, 0)?;
        let p = expect(tokens, p, ";")?;
        Ok((Statement::Assign(name, e), p))
    }
}

} // verus!
