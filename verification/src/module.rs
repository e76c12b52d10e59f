//! Modules: named functions that call one another, their validation,
//! normalization, source syntax and printer.
use vstd::prelude::*;

use crate::builder::chars_lt;
use crate::corpus::{chars_less, lemma_chars_less_total};
use crate::ir::{callee_view, Function, FunctionM, Param};
use crate::eval::reg_count;
use crate::normalize::{normal_form, normalizable};
use crate::sig::{Signature};
use crate::source::{parse_tokens, print_named, source_text};
use crate::syntax::{lex, SOURCE_LIMIT};
use crate::text::{chars_eq, chars_of, err, string_of};
use crate::types::{Op, Type};
use crate::validate::{shape_ok, wf, SCHEMA_VERSION};

verus! {

/// A module: its functions, sorted by name, each name once, and the name
/// of its entry function.
#[derive(Clone, Debug, PartialEq, Eq)]
pub struct Module {
    pub schema_version: u32,
    pub entry: String,
    pub functions: Vec<(String, Function)>,
}

/// The model of a module.
pub struct ModuleM {
    pub schema_version: u32,
    pub entry: Seq<char>,
    pub functions: Seq<(Seq<char>, FunctionM)>,
}

pub open spec fn named_view(p: (String, Function)) -> (Seq<char>, FunctionM) {
    (p.0@, p.1@)
}

impl View for Module {
    type V = ModuleM;

    open spec fn view(&self) -> ModuleM {
        ModuleM {
            schema_version: self.schema_version,
            entry: self.entry@,
            functions: self.functions@.map_values(|p: (String, Function)| named_view(p)),
        }
    }
}

/// The signature of a function model: argument types and return type.
pub open spec fn fn_sig(f: FunctionM) -> (Seq<Type>, Type) {
    (f.parameters.map_values(|p: Param| p.ty), f.return_type)
}

/// A function name: letters, digits and `_`, not starting with a digit,
/// and not the name of an operator.
pub open spec fn valid_name(s: Seq<char>) -> bool {
    &&& s.len() > 0
    &&& !('0' <= s[0] <= '9')
    &&& forall|j: int|
        0 <= j < s.len() ==> ('a' <= #[trigger] s[j] <= 'z') || ('A' <= s[j] <= 'Z') || ('0' <= s[j]
            <= '9') || s[j] == '_'
    &&& forall|o: Op| o.spec_name() != s
}

/// The position of the function named `n`.
pub open spec fn has_function(m: ModuleM, n: Seq<char>) -> bool {
    exists|i: int| 0 <= i < m.functions.len() && (#[trigger] m.functions[i]).0 == n
}

/// What a valid module satisfies.
pub open spec fn module_ok(m: ModuleM) -> bool {
    &&& m.schema_version == SCHEMA_VERSION
    &&& m.functions.len() <= 256
    &&& has_function(m, m.entry)
    &&& forall|i: int, j: int|
        0 <= i < j < m.functions.len() ==> (#[trigger] m.functions[i]).0 != (#[trigger] m.functions[j]).0
    &&& forall|i: int|
        0 <= i < m.functions.len() ==> valid_name((#[trigger] m.functions[i]).0) && shape_ok(
            m.functions[i].1,
        ) && wf(m.functions[i].1)
    &&& forall|i: int, c: int|
        0 <= i < m.functions.len() && 0 <= c < m.functions[i].1.callees.len() ==> exists|j: int|
            0 <= j < m.functions.len() && (#[trigger] m.functions[j]).0 == (
            #[trigger] m.functions[i].1.callees[c]).0 && fn_sig(m.functions[j].1)
                == m.functions[i].1.callees[c].1
}

/// A valid module whose functions normalization accepts.
pub open spec fn module_normalizable(m: ModuleM) -> bool {
    &&& module_ok(m)
    &&& forall|i: int| 0 <= i < m.functions.len() ==> normalizable((#[trigger] m.functions[i]).1)
}

/// Whether `s` is a function name.
pub fn is_valid_name(s: &[char]) -> (r: bool)
    ensures
        r == valid_name(s@),
{
    if s.len() == 0 || ('0' <= s[0] && s[0] <= '9') {
        return false;
    }
    let mut k: usize = 0;
    while k < s.len()
        invariant
            0 <= k <= s@.len(),
            forall|j: int|
                0 <= j < k ==> ('a' <= #[trigger] s@[j] <= 'z') || ('A' <= s@[j] <= 'Z') || ('0'
                    <= s@[j] <= '9') || s@[j] == '_',
        decreases s@.len() - k,
    {
        let d = s[k];
        if !(('a' <= d && d <= 'z') || ('A' <= d && d <= 'Z') || ('0' <= d && d <= '9') || d == '_') {
            return false;
        }
        k += 1;
    }
    Op::from_chars(s).is_none()
}

/// The position of the function called `name`.
pub fn find_function(functions: &Vec<(String, Function)>, name: &[char]) -> (r: Option<usize>)
    ensures
        r matches Some(i) ==> i < functions@.len() && functions@[i as int].0@ == name@ && forall|j: int|
            0 <= j < i ==> (#[trigger] functions@[j]).0@ != name@,
        r is None ==> forall|j: int| 0 <= j < functions@.len() ==> (#[trigger] functions@[j]).0@ != name@,
{
    let mut i: usize = 0;
    while i < functions.len()
        invariant
            0 <= i <= functions@.len(),
            forall|j: int| 0 <= j < i ==> (#[trigger] functions@[j]).0@ != name@,
        decreases functions@.len() - i,
    {
        let n = chars_of(functions[i].0.as_str());
        if chars_eq(&n, name) {
            return Some(i);
        }
        i += 1;
    }
    None
}

/// The signature of a function matches `(types, ret)` exactly.
fn matches_signature(f: &Function, s: &Signature) -> (r: bool)
    ensures
        r == (fn_sig(f@) == s.view_pair()),
{
    let own = f.signature();
    proof {
        assert(own.arguments@ =~= f@.parameters.map_values(|p: Param| p.ty));
    }
    own.same(s)
}

impl Module {
    /// Checks the module: schema, entry, at most 256 functions, distinct
    /// valid names, valid functions, and every callee present with the
    /// signature its caller expects.
    pub fn validate(&self) -> (r: Result<(), String>)
        ensures
            r is Ok ==> module_ok(self@),
            r is Ok <==> module_ok(self@),
            self.schema_version != SCHEMA_VERSION ==> r is Err,
            !has_function(self@, self@.entry) ==> r is Err,
            self@.functions.len() > 256 ==> r is Err,
    {
        let ghost m = self@;
        if self.schema_version != SCHEMA_VERSION {
            return err("unsupported module schema");
        }
        let entry = chars_of(self.entry.as_str());
        match find_function(&self.functions, &entry) {
            Some(i) => {
                assert(m.functions[i as int].0 == m.entry);
            },
            None => {
                assert(!has_function(m, m.entry));
                return err("missing module entry");
            },
        }
        let n = self.functions.len();
        if n > 256 {
            return err("module exceeds 256 functions");
        }
        let mut i: usize = 0;
        while i < n
            invariant
                0 <= i <= n,
                n == m.functions.len(),
                m == self@,
                forall|a: int, b: int| 0 <= a < b < i ==> (#[trigger] m.functions[a]).0 != (#[trigger] m.functions[b]).0,
                forall|a: int|
                    0 <= a < i ==> valid_name((#[trigger] m.functions[a]).0) && shape_ok(
                        m.functions[a].1,
                    ) && wf(m.functions[a].1),
                forall|a: int, c: int|
                    0 <= a < i && 0 <= c < m.functions[a].1.callees.len() ==> exists|j: int|
                        0 <= j < m.functions.len() && (#[trigger] m.functions[j]).0 == (
                        #[trigger] m.functions[a].1.callees[c]).0 && fn_sig(m.functions[j].1)
                            == m.functions[a].1.callees[c].1,
            decreases n - i,
        {
            let name = chars_of(self.functions[i].0.as_str());
            assert(name@ == m.functions[i as int].0);
            if !is_valid_name(&name) {
                assert(!module_ok(m) || valid_name(m.functions[i as int].0));
                return err("invalid or reserved function name");
            }
            assert(m.functions[i as int] == named_view(self.functions@[i as int]));
            match find_function(&self.functions, &name) {
                Some(j) => {
                    if j != i {
                        proof {
                            assert(m.functions[j as int] == named_view(self.functions@[j as int]));
                            assert(m.functions[j as int].0 == m.functions[i as int].0);
                            if j < i {
                                assert(!module_ok(m) || m.functions[j as int].0 != m.functions[i as int].0);
                            } else {
                                assert(self.functions@[i as int].0@ != name@);
                            }
                        }
                        return err("duplicate function");
                    }
                },
                None => {
                    assert(self.functions@[i as int].0@ != name@);
                    return err("duplicate function");
                },
            }
            let f = &self.functions[i].1;
            assert(f@ == m.functions[i as int].1);
            match f.validate() {
                Ok(()) => {},
                Err(e) => {
                    assert(!module_ok(m) || wf(m.functions[i as int].1));
                    return Err(e);
                },
            }
            let mut c: usize = 0;
            while c < f.callees.len()
                invariant
                    0 <= c <= f.callees@.len(),
                    i < n,
                    n == m.functions.len(),
                    m == self@,
                    f@ == m.functions[i as int].1,
                    forall|cc: int|
                        0 <= cc < c ==> exists|j: int|
                            0 <= j < m.functions.len() && (#[trigger] m.functions[j]).0 == (
                            #[trigger] m.functions[i as int].1.callees[cc]).0 && fn_sig(m.functions[j].1)
                                == m.functions[i as int].1.callees[cc].1,
                decreases f.callees@.len() - c,
            {
                let callee = chars_of(f.callees[c].0.as_str());
                assert(callee_view(f.callees@[c as int]) == m.functions[i as int].1.callees[c as int]);
                match find_function(&self.functions, &callee) {
                    Some(j) => {
                        assert(m.functions[j as int] == named_view(self.functions@[j as int]));
                        if !matches_signature(&self.functions[j].1, &f.callees[c].1) {
                            proof {
                                if module_ok(m) {
                                    let jj = choose|jj: int|
                                        0 <= jj < m.functions.len() && (#[trigger] m.functions[jj]).0 == (
                                        #[trigger] m.functions[i as int].1.callees[c as int]).0 && fn_sig(m.functions[jj].1)
                                            == m.functions[i as int].1.callees[c as int].1;
                                    if jj < j {
                                        assert(m.functions[jj] == named_view(self.functions@[jj]));
                                    } else if jj > j {
                                        assert(m.functions[j as int].0 != m.functions[jj].0);
                                    }
                                }
                            }
                            return err("callee signature mismatch");
                        }
                        assert(m.functions[j as int].0 == m.functions[i as int].1.callees[c as int].0);
                    },
                    None => {
                        proof {
                            if module_ok(m) {
                                let jj = choose|jj: int|
                                    0 <= jj < m.functions.len() && (#[trigger] m.functions[jj]).0 == (
                                    #[trigger] m.functions[i as int].1.callees[c as int]).0 && fn_sig(m.functions[jj].1)
                                        == m.functions[i as int].1.callees[c as int].1;
                                assert(m.functions[jj] == named_view(self.functions@[jj]));
                            }
                        }
                        return err("missing callee");
                    },
                }
                c += 1;
            }
            i += 1;
        }
        Ok(())
    }

    /// The signature of the entry function.
    pub fn signature(&self) -> (r: Result<Signature, String>)
        ensures
            r is Ok <==> has_function(self@, self@.entry),
            r matches Ok(s) ==> exists|i: int|
                0 <= i < self@.functions.len() && (#[trigger] self@.functions[i]).0 == self@.entry
                    && s.view_pair() == fn_sig(self@.functions[i].1),
    {
        let entry = chars_of(self.entry.as_str());
        match find_function(&self.functions, &entry) {
            Some(i) => {
                let s = self.functions[i].1.signature();
                proof {
                    assert(self@.functions[i as int].0 == self@.entry);
                    assert(s.arguments@ =~= self@.functions[i as int].1.parameters.map_values(
                        |p: Param| p.ty,
                    ));
                }
                Ok(s)
            },
            None => err("missing entry"),
        }
    }

    /// The function called `name`.
    pub fn function(&self, name: &str) -> (r: Option<&Function>)
        ensures
            r matches Some(f) ==> exists|i: int|
                0 <= i < self@.functions.len() && (#[trigger] self@.functions[i]).0 == name@
                    && self@.functions[i].1 == f@,
            r is None ==> !has_function(self@, name@),
    {
        let n = chars_of(name);
        match find_function(&self.functions, &n) {
            Some(i) => {
                assert(self@.functions[i as int].0 == name@);
                Some(&self.functions[i].1)
            },
            None => None,
        }
    }

    /// Takes the function called `name` out of the module.
    pub fn remove_function(&mut self, name: &str) -> (r: Option<Function>)
        ensures
            r is None ==> final(self)@ == old(self)@,
            r is None <==> !has_function(old(self)@, name@),
            r is Some ==> final(self)@.functions.len() == old(self)@.functions.len() - 1,
            final(self)@.entry == old(self)@.entry,
    {
        let n = chars_of(name);
        match find_function(&self.functions, &n) {
            Some(i) => {
                assert(old(self)@.functions[i as int].0 == name@);
                let (_, f) = self.functions.remove(i);
                Some(f)
            },
            None => None,
        }
    }

    /// The valid module with every function normalized.
    pub fn normalized(&self) -> (r: Result<Module, String>)
        ensures
            r is Ok ==> module_ok(self@),
            r matches Ok(n) ==> n@.schema_version == SCHEMA_VERSION && n@.entry == self@.entry
                && n@.functions.len() == self@.functions.len() && forall|i: int|
                0 <= i < n@.functions.len() ==> (#[trigger] n@.functions[i]).0 == self@.functions[i].0
                    && normal_form(self@.functions[i].1, n@.functions[i].1) && reg_count(n@.functions[i].1) <= u32::MAX,
            module_normalizable(self@) ==> r is Ok,
    {
        self.validate()?;
        let mut out: Vec<(String, Function)> = Vec::new();
        let mut i: usize = 0;
        while i < self.functions.len()
            invariant
                0 <= i <= self.functions@.len(),
                out@.len() == i,
                forall|j: int|
                    0 <= j < i ==> (#[trigger] out@[j]).0@ == self@.functions[j].0 && normal_form(
                        self@.functions[j].1,
                        out@[j].1@,
                    ) && reg_count(out@[j].1@) <= u32::MAX,
            decreases self.functions@.len() - i,
        {
            assert(self@.functions[i as int] == named_view(self.functions@[i as int]));
            let g = match self.functions[i].1.normalized() {
                Ok(g) => g,
                Err(e) => {
                    assert(!module_normalizable(self@) || normalizable(self@.functions[i as int].1));
                    return Err(e);
                },
            };
            let name = self.functions[i].0.clone();
            out.push((name, g));
            i += 1;
        }
        let r = Module { schema_version: SCHEMA_VERSION, entry: self.entry.clone(), functions: out };
        proof {
            assert forall|j: int| 0 <= j < r@.functions.len() implies (#[trigger] r@.functions[j]).0
                == self@.functions[j].0 && normal_form(self@.functions[j].1, r@.functions[j].1) && reg_count(
                r@.functions[j].1,
            ) <= u32::MAX by {
                assert(r@.functions[j] == named_view(out@[j]));
            }
        }
        Ok(r)
    }
}

/// Inserts `(name, value)` in name order; `false` when the name is
/// already there.
fn insert_sorted<T>(v: &mut Vec<(String, T)>, name: String, value: T) -> (r: bool)
    ensures
        !r ==> final(v)@ == old(v)@ && exists|k: int| 0 <= k < old(v)@.len() && (#[trigger] old(v)@[k]).0@ == name@,
        r ==> exists|k: int|
            0 <= k <= old(v)@.len() && final(v)@ == old(v)@.insert(k, (name, value)) && (forall|j: int|
                0 <= j < k ==> chars_less((#[trigger] old(v)@[j]).0@, name@)) && (k < old(v)@.len()
                ==> chars_less(name@, old(v)@[k].0@)),
{
    let key = chars_of(name.as_str());
    let ghost nv = name@;
    let mut k: usize = 0;
    let mut stop = false;
    while k < v.len() && !stop
        invariant
            0 <= k <= v@.len(),
            v@ == old(v)@,
            key@ == nv,
            nv == name@,
            forall|j: int| 0 <= j < k ==> chars_less((#[trigger] v@[j]).0@, nv),
            stop ==> k < v@.len() && chars_less(nv, v@[k as int].0@),
        decreases v@.len() - k, if stop { 0int } else { 1int },
    {
        let here = chars_of(v[k].0.as_str());
        if chars_eq(&here, &key) {
            assert(v@[k as int].0@ == nv);
            return false;
        }
        if chars_lt(&key, &here) {
            stop = true;
        } else {
            proof {
                lemma_chars_less_total(v@[k as int].0@, nv);
            }
            k += 1;
        }
    }
    let ghost kk = k as int;
    let ghost entry = (name, value);
    v.insert(k, (name, value));
    assert(v@ == old(v)@.insert(kk, entry));
    assert(forall|j: int| 0 <= j < kk ==> chars_less((#[trigger] old(v)@[j]).0@, nv));
    assert(kk < old(v)@.len() ==> chars_less(nv, old(v)@[kk].0@));
    true
}

/// The tokens `tokens[start..end]`.
fn token_range(tokens: &Vec<Vec<char>>, start: usize, end: usize) -> (r: Vec<Vec<char>>)
    requires
        start <= end <= tokens@.len(),
    ensures
        r@.len() == end - start,
        forall|j: int| 0 <= j < r@.len() ==> (#[trigger] r@[j])@ == tokens@[start + j]@,
{
    let mut out: Vec<Vec<char>> = Vec::new();
    let mut i: usize = start;
    while i < end
        invariant
            start <= i <= end <= tokens@.len(),
            out@.len() == i - start,
            forall|j: int| 0 <= j < out@.len() ==> (#[trigger] out@[j])@ == tokens@[start + j]@,
        decreases end - i,
    {
        out.push(crate::text::chars_copy(tokens[i].as_slice()));
        i += 1;
    }
    out
}

/// The token at `pos` is `want`.
fn token_is(tokens: &Vec<Vec<char>>, pos: usize, want: &str) -> (r: bool)
    ensures
        r ==> pos < tokens@.len(),
{
    crate::syntax::at(tokens, pos, want)
}

/// Parses a module: one or more functions that may call each other. The
/// entry is `main` when there is one and the first function otherwise.
/// Sources longer than 8 MB are refused before anything else is read.
#[verifier::loop_isolation(false)]
pub fn parse_module(source: &str) -> (r: Result<Module, String>)
    ensures
        source.len() > SOURCE_LIMIT ==> (r matches Err(e) && e@ == "source exceeds 8 MB limit"@),
        r matches Ok(m) ==> m@.schema_version == SCHEMA_VERSION && has_function(m@, m@.entry),
{
    if source.len() > SOURCE_LIMIT {
        return Err("source exceeds 8 MB limit".to_owned());
    }
    let tokens = lex(source)?;
    let n = tokens.len();
    let mut pos: usize = 0;
    let mut declarations: Vec<(String, Vec<Vec<char>>)> = Vec::new();
    let mut signatures: Vec<(String, Signature)> = Vec::new();
    while pos < n
        invariant
            pos <= n,
            n == tokens@.len(),
        decreases n - pos,
    {
        let start = pos;
        if !token_is(&tokens, pos, "fn") {
            return err("expected function declaration");
        }
        pos += 1;
        if pos >= n {
            return err("missing function name");
        }
        let name = string_of(&tokens[pos]);
        pos += 1;
        if !token_is(&tokens, pos, "(") {
            return err("expected parameter list");
        }
        pos += 1;
        let mut arguments: Vec<Type> = Vec::new();
        while !token_is(&tokens, pos, ")")
            invariant
                start < pos <= n,
                n == tokens@.len(),
            decreases n - pos,
        {
            if pos >= n {
                return err("unterminated parameter list");
            }
            pos += 1;
            if !token_is(&tokens, pos, ":") {
                return err("expected parameter type");
            }
            pos += 1;
            if pos >= n {
                return err("missing parameter type");
            }
            let t = Type::parse_name(&tokens[pos])?;
            arguments.push(t);
            pos += 1;
            if token_is(&tokens, pos, ",") {
                pos += 1;
            } else {
                break;
            }
        }
        if !token_is(&tokens, pos, ")") {
            return err("expected ')'");
        }
        pos += 1;
        if !token_is(&tokens, pos, "->") {
            return err("expected return type");
        }
        pos += 1;
        if pos >= n {
            return err("missing return type");
        }
        let return_type = Type::parse_name(&tokens[pos])?;
        pos += 1;
        if !token_is(&tokens, pos, "{") {
            return err("expected function body");
        }
        let mut depth: usize = 0;
        loop
            invariant
                start < pos <= n,
                n == tokens@.len(),
                depth <= pos,
            decreases n - pos,
        {
            if pos >= n {
                return err("unterminated function body");
            }
            if token_is(&tokens, pos, "{") {
                depth += 1;
            } else if token_is(&tokens, pos, "}") {
                if depth == 0 {
                    return err("unbalanced braces");
                }
                depth -= 1;
            }
            pos += 1;
            if depth == 0 {
                break;
            }
        }
        if !insert_sorted(&mut signatures, name.clone(), Signature { arguments, return_type }) {
            return err("duplicate function");
        }
        declarations.push((name, token_range(&tokens, start, pos)));
    }
    let main = chars_of("main");
    let entry = if find_function_name(&signatures, &main) {
        string_of(&main)
    } else if declarations.len() > 0 {
        declarations[0].0.clone()
    } else {
        return err("empty module");
    };
    let mut functions: Vec<(String, Function)> = Vec::new();
    let mut d: usize = 0;
    while d < declarations.len()
        invariant
            0 <= d <= declarations@.len(),
        decreases declarations@.len() - d,
    {
        let f = parse_tokens(&declarations[d].1, &signatures)?;
        if !insert_sorted(&mut functions, declarations[d].0.clone(), f) {
            return err("duplicate function");
        }
        d += 1;
    }
    let m = Module { schema_version: SCHEMA_VERSION, entry, functions };
    let r = m.normalized()?;
    proof {
        let mm = m@;
        let i = choose|i: int| 0 <= i < mm.functions.len() && (#[trigger] mm.functions[i]).0 == mm.entry;
        assert(r@.functions[i].0 == r@.entry);
    }
    Ok(r)
}

/// Whether a signature list names `name`.
fn find_function_name(list: &Vec<(String, Signature)>, name: &[char]) -> (r: bool)
    ensures
        r == exists|i: int| 0 <= i < list@.len() && (#[trigger] list@[i]).0@ == name@,
{
    let mut i: usize = 0;
    while i < list.len()
        invariant
            0 <= i <= list@.len(),
            forall|j: int| 0 <= j < i ==> (#[trigger] list@[j]).0@ != name@,
        decreases list@.len() - i,
    {
        let n = chars_of(list[i].0.as_str());
        if chars_eq(&n, name) {
            return true;
        }
        i += 1;
    }
    false
}

/// `n` is the normalized form of `m`: the same entry and function names,
/// each function in normal form.
pub open spec fn module_normal_form(m: ModuleM, n: ModuleM) -> bool {
    &&& n.schema_version == SCHEMA_VERSION
    &&& n.entry == m.entry
    &&& n.functions.len() == m.functions.len()
    &&& forall|i: int|
        0 <= i < n.functions.len() ==> (#[trigger] n.functions[i]).0 == m.functions[i].0 && normal_form(
            m.functions[i].1,
            n.functions[i].1,
        )
}

/// The position of the first function called `name`.
pub open spec fn first_named(fs: Seq<(Seq<char>, FunctionM)>, name: Seq<char>) -> int {
    choose|i: int|
        0 <= i < fs.len() && fs[i].0 == name && forall|j: int| 0 <= j < i ==> (#[trigger] fs[j]).0 != name
}

/// The functions other than `entry`, each as source under its name and a
/// line break, in order.
pub open spec fn others_text(fs: Seq<(Seq<char>, FunctionM)>, entry: Seq<char>) -> Seq<char>
    decreases fs.len(),
{
    if fs.len() == 0 {
        seq![]
    } else {
        others_text(fs.drop_last(), entry) + if fs.last().0 != entry {
            source_text(fs.last().1, fs.last().0) + "\n"@
        } else {
            seq![]
        }
    }
}

/// The source of a module: the entry function, then the others in order.
pub open spec fn module_text(m: ModuleM) -> Seq<char> {
    source_text(m.functions[first_named(m.functions, m.entry)].1, m.entry) + "\n"@ + others_text(
        m.functions,
        m.entry,
    )
}

/// The source of a valid module: the entry function first, then the
/// others in name order, each normalized.
#[verifier::spinoff_prover]
pub fn print_module(module: &Module) -> (r: Result<String, String>)
    ensures
        r is Ok ==> module_ok(module@),
        r matches Ok(t) ==> exists|n: ModuleM| module_normal_form(module@, n) && t@ == #[trigger] module_text(n),
        module_normalizable(module@) ==> r is Ok,
{
    let m = module.normalized()?;
    let ghost mv = m@;
    let entry = chars_of(m.entry.as_str());
    let mut out: Vec<char> = Vec::new();
    match find_function(&m.functions, &entry) {
        Some(i) => {
            let text = print_named(&m.functions[i].1, &entry);
            crate::text::extend_chars(&mut out, &chars_of(text.as_str()));
            out.push('\n');
            proof {
                reveal_strlit("\n");
                let fs = mv.functions;
                assert(fs[i as int] == named_view(m.functions@[i as int]));
                assert(fs[i as int].0 == mv.entry);
                let c = first_named(fs, mv.entry);
                assert(0 <= i < fs.len() && fs[i as int].0 == mv.entry && forall|j: int|
                    0 <= j < i ==> (#[trigger] fs[j]).0 != mv.entry);
                if c < i {
                    assert(fs[c].0 != mv.entry);
                } else if c > i {
                    assert(fs[i as int].0 != mv.entry);
                }
                assert(c == i);
                assert(out@ =~= source_text(fs[c].1, mv.entry) + "\n"@);
            }
        },
        None => {
            proof {
                let j = choose|j: int| 0 <= j < module@.functions.len() && (#[trigger] module@.functions[j]).0 == module@.entry;
                assert(mv.functions[j].0 == mv.entry);
                assert(mv.functions[j] == named_view(m.functions@[j]));
            }
            return err("missing entry");
        },
    }
    let ghost head = out@;
    let mut k: usize = 0;
    while k < m.functions.len()
        invariant
            0 <= k <= m.functions@.len(),
            mv == m@,
            entry@ == mv.entry,
            out@ == head + others_text(mv.functions.take(k as int), mv.entry),
        decreases m.functions@.len() - k,
    {
        let name = chars_of(m.functions[k].0.as_str());
        let ghost before = out@;
        if !chars_eq(&name, &entry) {
            let text = print_named(&m.functions[k].1, &name);
            crate::text::extend_chars(&mut out, &chars_of(text.as_str()));
            out.push('\n');
        }
        proof {
            reveal_strlit("\n");
            let t = mv.functions.take(k + 1);
            assert(t.drop_last() =~= mv.functions.take(k as int));
            assert(t.last() == mv.functions[k as int]);
            assert(mv.functions[k as int] == named_view(m.functions@[k as int]));
            assert(out@ =~= head + others_text(t, mv.entry));
        }
        k += 1;
    }
    assert(mv.functions.take(k as int) =~= mv.functions);
    assert(out@ =~= module_text(mv));
    Ok(string_of(&out))
}

} // verus!
