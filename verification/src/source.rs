//! Parsing whole functions, in structured form or in block form, and
//! printing functions back as source.
//!
//! The block form states the IR directly:
//! `fn f(v0: u8) -> u8 { block b0() { let v1: u8 = add(v0, v0); jump b1(v1); } ... }`.
//! Values are written `v<n>` and blocks `b<n>`, by their identifiers.
use vstd::prelude::*;

use crate::builder::{Binding, Builder, PendingBlock};
use crate::eval::dense;
use crate::formal::dec;
use crate::ir::{
    callee_view, copy_instructions, copy_params, Block, BlockM, Edge, EdgeM, Expr, ExprM, Function, FunctionM, Id,
    Instruction, InstructionM, Param, Terminator, TerminatorM,
};
use crate::literal::{all_dec, dec_number, is_dec_char, lemma_dec_prefix_mono, spec_literal};
use crate::normalize::normal_form;
use crate::sig::{copy_types, Signature};
use crate::syntax::{
    spec_is_identifier,
    tokens_view, at, expect, identifier, lex, read_body, read_type, starts_literal, take, SOURCE_LIMIT,
};
use crate::text::{chars_eq, chars_of, err, extend_chars, string_of};
use crate::types::{Op, Type, Value};
use crate::validate::SCHEMA_VERSION;
use vstd::string::StringSliceAdditionalSpecFns;

verus! {

/// The instruction calls the function `name`.
pub open spec fn instruction_calls(x: InstructionM, name: Seq<char>) -> bool {
    x.expr matches ExprM::Call { function, .. } && function == name
}

/// Some instruction of the block calls `name`.
pub open spec fn block_calls(b: BlockM, name: Seq<char>) -> bool {
    exists|k: int| 0 <= k < b.instructions.len() && instruction_calls(#[trigger] b.instructions[k], name)
}

/// Some block calls `name`.
pub open spec fn calls(bs: Seq<BlockM>, name: Seq<char>) -> bool {
    exists|b: int| 0 <= b < bs.len() && block_calls(#[trigger] bs[b], name)
}

/// The callees, in order, that some block calls.
pub open spec fn callees_called(
    cs: Seq<(Seq<char>, (Seq<Type>, Type))>,
    bs: Seq<BlockM>,
) -> Seq<(Seq<char>, (Seq<Type>, Type))>
    decreases cs.len(),
{
    if cs.len() == 0 {
        seq![]
    } else if calls(bs, cs.last().0) {
        callees_called(cs.drop_last(), bs).push(cs.last())
    } else {
        callees_called(cs.drop_last(), bs)
    }
}

/// A function in the canonical form that normalization produces.
pub open spec fn canonical(g: FunctionM) -> bool {
    exists|f: FunctionM| #[trigger] normal_form(f, g)
}

/// The signature part of a function header: `fn name(p: t, ...) -> t`.
pub struct Header {
    pub name: Vec<char>,
    pub names: Vec<Vec<char>>,
    pub types: Vec<Type>,
    pub return_type: Type,
}

/// Some type is written `s`.
pub open spec fn names_type(s: Seq<char>) -> bool {
    exists|t: Type| t.spec_name() == s
}

/// Parameters `p: t, ...` from `p`, after the names `names` and the type
/// names `types` already read: all names, all type names, and the
/// position after the last type; `None` on a malformed or repeated one.
pub open spec fn params_from(ts: Seq<Seq<char>>, p: int, names: Seq<Seq<char>>, types: Seq<Seq<char>>) -> Option<
    (Seq<Seq<char>>, Seq<Seq<char>>, int),
>
    decreases ts.len() - p,
{
    if p < 0 || p + 2 >= ts.len() || !spec_is_identifier(ts[p]) || ts[p + 1] != ":"@ || !names_type(ts[p + 2])
        || names.contains(ts[p]) {
        None
    } else if p + 3 < ts.len() && ts[p + 3] == ","@ {
        params_from(ts, p + 4, names.push(ts[p]), types.push(ts[p + 2]))
    } else {
        Some((names.push(ts[p]), types.push(ts[p + 2]), p + 3))
    }
}

/// A header `fn name(p: t, ...) -> t` at `pos`: its name, parameter
/// names, parameter type names, return type name, and the position after
/// it.
pub open spec fn header_at(ts: Seq<Seq<char>>, pos: int) -> Option<
    (Seq<char>, Seq<Seq<char>>, Seq<Seq<char>>, Seq<char>, int),
> {
    if !(0 <= pos && pos + 3 < ts.len() && ts[pos] == "fn"@ && spec_is_identifier(ts[pos + 1]) && ts[pos + 2]
        == "("@) {
        None
    } else {
        let ps = if ts[pos + 3] == ")"@ {
            Some((Seq::<Seq<char>>::empty(), Seq::<Seq<char>>::empty(), pos + 3))
        } else {
            params_from(ts, pos + 3, seq![], seq![])
        };
        match ps {
            None => None,
            Some((ns, tys, q)) => if 0 <= q && q + 2 < ts.len() && ts[q] == ")"@ && ts[q + 1] == "->"@
                && names_type(ts[q + 2]) {
                Some((ts[pos + 1], ns, tys, ts[q + 2], q + 3))
            } else {
                None
            },
        }
    }
}

/// Reads `fn name(p: t, ...) -> t`; parameter names must be distinct.
pub fn read_header(tokens: &Vec<Vec<char>>, pos: usize) -> (r: Result<(Header, usize), String>)
    ensures
        r matches Ok((h, p)) ==> pos < p <= tokens@.len() && h.names@.len() == h.types@.len(),
        r is Ok <==> header_at(tokens@.map_values(|t: Vec<char>| t@), pos as int) is Some,
        r matches Ok((h, p)) ==> ({
            let (name, ns, tys, ret, q) = header_at(tokens@.map_values(|t: Vec<char>| t@), pos as int)->0;
            &&& h.name@ == name
            &&& h.names@.map_values(|n: Vec<char>| n@) == ns
            &&& h.types@.map_values(|t: Type| t.spec_name()) == tys
            &&& h.return_type.spec_name() == ret
            &&& p == q
        }),
{
    let ghost ts = tokens@.map_values(|t: Vec<char>| t@);
    let p = expect(tokens, pos, "fn")?;
    let (name, p) = identifier(tokens, p)?;
    let mut p = expect(tokens, p, "(")?;
    let mut names: Vec<Vec<char>> = Vec::new();
    let mut types: Vec<Type> = Vec::new();
    assert(ts[pos as int] == "fn"@ && ts[pos + 1] == name@ && ts[pos + 2] == "("@);
    if !at(tokens, p, ")") {
        assert(names@.map_values(|n: Vec<char>| n@) =~= Seq::<Seq<char>>::empty());
        assert(types@.map_values(|t: Type| t.spec_name()) =~= Seq::<Seq<char>>::empty());
        loop
            invariant_except_break
                params_from(ts, p as int, names@.map_values(|n: Vec<char>| n@), types@.map_values(
                    |t: Type| t.spec_name(),
                )) == params_from(ts, pos + 3, seq![], seq![]),
            invariant
                pos < p <= tokens@.len(),
                pos + 3 <= p,
                names@.len() == types@.len(),
                ts == tokens@.map_values(|t: Vec<char>| t@),
                ts[pos as int] == "fn"@ && spec_is_identifier(ts[pos + 1]) && ts[pos + 2] == "("@,
                !(pos + 3 < ts.len() && ts[pos + 3] == ")"@),
            ensures
                pos + 3 <= p <= tokens@.len(),
                names@.len() == types@.len(),
                params_from(ts, pos + 3, seq![], seq![]) == Some(
                    (names@.map_values(|n: Vec<char>| n@), types@.map_values(|t: Type| t.spec_name()), p as int),
                ),
            decreases tokens@.len() - p,
        {
            let ghost nv = names@.map_values(|n: Vec<char>| n@);
            let ghost tn = types@.map_values(|t: Type| t.spec_name());
            let (n, q) = match identifier(tokens, p) {
                Ok(x) => x,
                Err(e) => {
                    assert(params_from(ts, p as int, nv, tn) is None);
                    assert(header_at(ts, pos as int) is None);
                    return Err(e);
                },
            };
            assert(ts[p as int] == n@);
            let q = match expect(tokens, q, ":") {
                Ok(x) => x,
                Err(e) => {
                    assert(params_from(ts, p as int, nv, tn) is None);
                    assert(header_at(ts, pos as int) is None);
                    return Err(e);
                },
            };
            let (t, q) = match read_type(tokens, q) {
                Ok(x) => x,
                Err(e) => {
                    assert(params_from(ts, p as int, nv, tn) is None);
                    assert(header_at(ts, pos as int) is None);
                    return Err(e);
                },
            };
            assert(t.spec_name() == ts[p + 2]);
            assert(names_type(ts[p + 2]));
            let mut k: usize = 0;
            while k < names.len()
                invariant
                    0 <= k <= names@.len(),
                    nv == names@.map_values(|n: Vec<char>| n@),
                    forall|j: int| 0 <= j < k ==> nv[j] != n@,
                    ts == tokens@.map_values(|t: Vec<char>| t@),
                    pos + 3 <= p < ts.len(),
                    ts[p as int] == n@,
                    params_from(ts, p as int, nv, tn) == params_from(ts, pos + 3, seq![], seq![]),
                    ts[pos as int] == "fn"@ && spec_is_identifier(ts[pos + 1]) && ts[pos + 2] == "("@,
                    !(pos + 3 < ts.len() && ts[pos + 3] == ")"@),
                decreases names@.len() - k,
            {
                if chars_eq(&names[k], &n) {
                    assert(nv[k as int] == n@);
                    assert(nv.contains(ts[p as int]));
                    assert(params_from(ts, p as int, nv, tn) is None);
                    assert(header_at(ts, pos as int) is None);
                    return err("duplicate parameter");
                }
                k += 1;
            }
            assert(!nv.contains(ts[p as int]));
            names.push(n);
            types.push(t);
            assert(names@.map_values(|n: Vec<char>| n@) =~= nv.push(ts[p as int]));
            assert(types@.map_values(|t: Type| t.spec_name()) =~= tn.push(ts[p + 2]));
            p = q;
            if !at(tokens, p, ",") {
                break;
            }
            p = p + 1;
        }
    }
    let ghost ps = params_from(ts, pos + 3, seq![], seq![]);
    assert(ts[pos + 3] == ")"@ ==> names@.map_values(|n: Vec<char>| n@) =~= Seq::<Seq<char>>::empty()
        && types@.map_values(|t: Type| t.spec_name()) =~= Seq::<Seq<char>>::empty() && p == pos + 3);
    let p = expect(tokens, p, ")")?;
    let p = expect(tokens, p, "->")?;
    let (return_type, p) = match read_type(tokens, p) {
        Ok(x) => x,
        Err(e) => {
            assert(header_at(ts, pos as int) is None);
            return Err(e);
        },
    };
    assert(names_type(ts[p - 1]));
    Ok((Header { name, names, types, return_type }, p))
}

/// The callees, in order, that some instruction of `blocks` calls.
pub fn used_callees(blocks: &Vec<Block>, callees: &Vec<(String, Signature)>) -> (r: Vec<
    (String, Signature),
>)
    ensures
        r@.len() <= callees@.len(),
        r@.map_values(|c: (String, Signature)| callee_view(c)) == callees_called(
            callees@.map_values(|c: (String, Signature)| callee_view(c)),
            blocks@.map_values(|b: Block| b@),
        ),
{
    let ghost cv = callees@.map_values(|c: (String, Signature)| callee_view(c));
    let ghost bv = blocks@.map_values(|b: Block| b@);
    let mut out: Vec<(String, Signature)> = Vec::new();
    let mut c: usize = 0;
    while c < callees.len()
        invariant
            0 <= c <= callees@.len(),
            out@.len() <= c,
            cv == callees@.map_values(|c: (String, Signature)| callee_view(c)),
            bv == blocks@.map_values(|b: Block| b@),
            out@.map_values(|c: (String, Signature)| callee_view(c)) == callees_called(cv.take(c as int), bv),
        decreases callees@.len() - c,
    {
        let name = chars_of(callees[c].0.as_str());
        let mut used = false;
        let mut b: usize = 0;
        while b < blocks.len() && !used
            invariant
                0 <= b <= blocks@.len(),
                bv == blocks@.map_values(|b: Block| b@),
                used ==> calls(bv, name@),
                !used ==> forall|bb: int| 0 <= bb < b ==> !block_calls(#[trigger] bv[bb], name@),
            decreases blocks@.len() - b,
        {
            let xs = &blocks[b].instructions;
            assert(bv[b as int] == blocks@[b as int]@);
            let mut i: usize = 0;
            while i < xs.len() && !used
                invariant
                    0 <= i <= xs@.len(),
                    b < blocks@.len(),
                    bv == blocks@.map_values(|b: Block| b@),
                    xs@ == blocks@[b as int].instructions@,
                    bv[b as int] == blocks@[b as int]@,
                    used ==> calls(bv, name@),
                    !used ==> forall|k: int| 0 <= k < i ==> !instruction_calls(#[trigger] xs@[k]@, name@),
                decreases xs@.len() - i,
            {
                assert(bv[b as int].instructions[i as int] == xs@[i as int]@);
                if let Expr::Call { function, .. } = &xs[i].expr {
                    let f = chars_of(function.as_str());
                    if chars_eq(&f, &name) {
                        used = true;
                        assert(block_calls(bv[b as int], name@));
                    }
                }
                i += 1;
            }
            proof {
                if !used {
                    assert forall|k: int| 0 <= k < bv[b as int].instructions.len() implies !instruction_calls(
                        #[trigger] bv[b as int].instructions[k],
                        name@,
                    ) by {
                        assert(bv[b as int].instructions[k] == xs@[k]@);
                    }
                }
            }
            b += 1;
        }
        proof {
            assert(cv[c as int] == callee_view(callees@[c as int]));
            assert(cv.take(c + 1).drop_last() =~= cv.take(c as int));
        }
        if used {
            out.push((callees[c].0.clone(), callees[c].1.copy()));
            assert(out@.map_values(|c: (String, Signature)| callee_view(c)) =~= callees_called(
                cv.take(c as int),
                bv,
            ).push(cv[c as int]));
        }
        c += 1;
    }
    assert(cv.take(c as int) =~= cv);
    out
}

/// `b` is the terminated pending block `p`.
pub open spec fn from_pending(b: BlockM, p: PendingBlock) -> bool {
    &&& b.parameters == p.parameters@
    &&& b.instructions == p.instructions@.map_values(|i: Instruction| i@)
    &&& p.terminator matches Some(t) && b.terminator == t@
}

/// The blocks reachable from the first one, in order, each of them
/// terminated.
fn finish_blocks(pending: &Vec<PendingBlock>) -> (r: Result<Vec<Block>, String>)
    requires
        pending@.len() <= u32::MAX,
    ensures
        pending@.len() == 0 ==> r is Err,
        pending@.len() > 0 && pending@[0].terminator is None ==> r is Err,
        r matches Ok(bs) ==> {
            &&& bs@.len() > 0
            &&& bs@[0].id == 0
            &&& forall|j: int, k: int| 0 <= j < k < bs@.len() ==> bs@[j].id < bs@[k].id
            &&& forall|j: int|
                0 <= j < bs@.len() ==> (#[trigger] bs@[j]).id < pending@.len() && from_pending(
                    bs@[j]@,
                    pending@[bs@[j].id as int],
                )
        },
{
    let n = pending.len();
    if n == 0 {
        return err("missing entry block");
    }
    let mut seen: Vec<bool> = Vec::new();
    let mut k: usize = 0;
    while k < n
        invariant
            0 <= k <= n,
            seen@.len() == k,
            forall|q: int| 0 <= q < k ==> !(#[trigger] seen@[q]),
        decreases n - k,
    {
        seen.push(false);
        k += 1;
    }
    let mut work: Vec<usize> = Vec::new();
    work.push(0);
    let mut visited: usize = 0;
    while work.len() > 0
        invariant
            n == pending@.len(),
            n > 0,
            seen@.len() == n,
            visited <= n,
            forall|j: int| 0 <= j < work@.len() ==> (#[trigger] work@[j]) < n,
            visited == 0 ==> work@ == seq![0usize] && forall|q: int| 0 <= q < n ==> !(#[trigger] seen@[q]),
            visited > 0 ==> seen@[0],
            forall|q: int| 0 <= q < n && #[trigger] seen@[q] ==> pending@[q].terminator is Some,
        decreases n - visited, work@.len(),
    {
        let id = match work.pop() {
            Some(x) => x,
            None => return err("empty work list"),
        };
        if seen[id] {
            continue;
        }
        if visited >= n {
            return err("block count exceeded");
        }
        let t = match &pending[id].terminator {
            Some(t) => t,
            None => return err("unterminated reachable block"),
        };
        seen.set(id, true);
        visited += 1;
        let edges = t.edges();
        let mut e: usize = 0;
        while e < edges.len()
            invariant
                0 <= e <= edges@.len(),
                forall|j: int| 0 <= j < work@.len() ==> (#[trigger] work@[j]) < n,
                visited > 0,
            decreases edges@.len() - e,
        {
            let target = edges[e].block as usize;
            if target >= n {
                return err("missing block");
            }
            work.push(target);
            e += 1;
        }
    }
    let mut blocks: Vec<Block> = Vec::new();
    let mut b: usize = 0;
    while b < n
        invariant
            0 <= b <= n,
            n == pending@.len(),
            n <= u32::MAX,
            seen@.len() == n,
            seen@[0],
            forall|q: int| 0 <= q < n && #[trigger] seen@[q] ==> pending@[q].terminator is Some,
            b > 0 ==> blocks@.len() > 0 && blocks@[0].id == 0,
            forall|j: int| 0 <= j < blocks@.len() ==> (#[trigger] blocks@[j]).id < b,
            forall|j: int, k: int| 0 <= j < k < blocks@.len() ==> blocks@[j].id < blocks@[k].id,
            forall|j: int|
                0 <= j < blocks@.len() ==> (#[trigger] blocks@[j]).id < pending@.len() && from_pending(
                    blocks@[j]@,
                    pending@[blocks@[j].id as int],
                ),
        decreases n - b,
    {
        if seen[b] {
            let t = match &pending[b].terminator {
                Some(t) => t.copy(),
                None => return err("unterminated reachable block"),
            };
            blocks.push(
                Block {
                    id: b as u32,
                    parameters: copy_params(&pending[b].parameters),
                    instructions: copy_instructions(&pending[b].instructions),
                    terminator: t,
                },
            );
        }
        b += 1;
    }
    Ok(blocks)
}

/// The function of a token list in structured or block form, given the
/// signatures of the functions it may call; it comes out normalized.
pub fn parse_tokens(tokens: &Vec<Vec<char>>, callees: &Vec<(String, Signature)>) -> (r: Result<
    Function,
    String,
>)
    ensures
        r matches Ok(g) ==> canonical(g@) && g@.callees.len() <= callees@.len(),
        header_at(tokens@.map_values(|t: Vec<char>| t@), 0) is None ==> r is Err,
        r matches Ok(g) ==> header_at(tokens@.map_values(|t: Vec<char>| t@), 0) matches Some(
            (_, _, tys, ret, _),
        ) && g@.parameters.map_values(|q: Param| q.ty.spec_name()) == tys && g@.return_type.spec_name()
            == ret,
{
    let (header, p) = read_header(tokens, 0)?;
    proof {
        assert(header.types@.map_values(|t: Type| t.spec_name()).len() == header.types@.len());
    }
    if at(tokens, p, "{") && at(tokens, p + 1, "block") {
        let r = parse_blocks(tokens, p + 1, &header, callees);
        proof {
            if r is Ok {
                lemma_type_names(r->Ok_0@.parameters, header.types@);
            }
        }
        return r;
    }
    let (statements, p) = read_body(tokens, p, 0)?;
    if p != tokens.len() {
        return err("expected exactly one function");
    }
    let signature = Signature { arguments: copy_types(&header.types), return_type: header.return_type };
    signature.validate()?;
    let n = header.names.len();
    if n >= u32::MAX as usize {
        return err("too many parameters");
    }
    let mut env: Vec<(Vec<char>, Binding)> = Vec::new();
    let mut parameters: Vec<Param> = Vec::new();
    let mut k: usize = 0;
    while k < n
        invariant
            0 <= k <= n,
            n == header.names@.len(),
            n == header.types@.len(),
            n < u32::MAX,
            parameters@.len() == k,
            forall|j: int| 0 <= j < k ==> (#[trigger] parameters@[j]).ty == header.types@[j],
        decreases n - k,
    {
        let b = Binding { id: k as u32, ty: header.types[k], mutable: false };
        crate::builder::env_set(&mut env, &header.names[k], b);
        parameters.push(Param { id: k as u32, ty: header.types[k] });
        k += 1;
    }
    assert(parameters@.map_values(|q: Param| q.ty) =~= header.types@);
    let mut first: Vec<PendingBlock> = Vec::new();
    first.push(PendingBlock { parameters: Vec::new(), instructions: Vec::new(), terminator: None });
    let mut builder = Builder {
        callees: crate::ir::copy_callees(callees),
        blocks: first,
        current: Some(0),
        next_value: n as u32,
        return_type: header.return_type,
        loops: Vec::new(),
    };
    builder.statements(&statements, &mut env)?;
    if builder.current.is_some() {
        return err("function can fall through without returning");
    }
    let blocks = finish_blocks(&builder.blocks)?;
    let used = used_callees(&blocks, callees);
    let f = Function {
        callees: used,
        schema_version: SCHEMA_VERSION,
        parameters,
        return_type: header.return_type,
        entry: 0,
        blocks,
    };
    let g = f.normalized()?;
    assert(normal_form(f@, g@));
    proof {
        lemma_type_names(g@.parameters, header.types@);
    }
    Ok(g)
}

/// Parameters whose types are `types` have the names of `types` as type
/// names.
proof fn lemma_type_names(ps: Seq<Param>, types: Seq<Type>)
    requires
        ps.map_values(|q: Param| q.ty) == types,
    ensures
        ps.map_values(|q: Param| q.ty.spec_name()) == types.map_values(|t: Type| t.spec_name()),
{
    assert forall|i: int| 0 <= i < ps.len() implies #[trigger] ps[i].ty.spec_name() == types[i].spec_name() by {
        assert(ps.map_values(|q: Param| q.ty)[i] == types[i]);
    }
    assert(ps.map_values(|q: Param| q.ty.spec_name()) =~= types.map_values(|t: Type| t.spec_name()));
}

/// The identifier of a numbered name `<prefix><digits>`.
/// The number of a name `<prefix><digits>` that fits 32 bits.
pub open spec fn spec_numbered(t: Seq<char>, prefix: char) -> Option<u32> {
    if t.len() >= 2 && t[0] == prefix && all_dec(t.skip(1)) && dec_number(t.skip(1)) <= u32::MAX {
        Some(dec_number(t.skip(1)) as u32)
    } else {
        None
    }
}

pub fn numbered(t: &[char], prefix: char) -> (r: Option<u32>)
    ensures
        r == spec_numbered(t@, prefix),
{
    if t.len() < 2 || t[0] != prefix {
        return None;
    }
    let mut n: u64 = 0;
    let mut i: usize = 1;
    while i < t.len()
        invariant
            1 <= i <= t@.len(),
            n <= u32::MAX,
            n == dec_number(t@.subrange(1, i as int)),
            all_dec(t@.subrange(1, i as int)),
        decreases t@.len() - i,
    {
        let c = t[i];
        let ghost p = t@.subrange(1, i + 1);
        assert(p.drop_last() =~= t@.subrange(1, i as int));
        assert(p.last() == c);
        if !('0' <= c && c <= '9') {
            proof {
                assert(t@.skip(1)[i - 1] == c);
            }
            return None;
        }
        n = n * 10 + (c as u64 - '0' as u64);
        assert(all_dec(p)) by {
            assert forall|j: int| 0 <= j < p.len() implies is_dec_char(#[trigger] p[j]) by {
                if j < p.len() - 1 {
                    assert(p[j] == t@.subrange(1, i as int)[j]);
                }
            }
        }
        if n > u32::MAX as u64 {
            proof {
                if all_dec(t@.skip(1)) {
                    assert(t@.skip(1).subrange(0, i as int) =~= p);
                    lemma_dec_prefix_mono(t@.skip(1), i as int);
                }
            }
            return None;
        }
        i += 1;
    }
    assert(t@.subrange(1, i as int) =~= t@.skip(1));
    Some(n as u32)
}

/// The values of a list from position `p`, after those in `acc`: a
/// value name, then either `,` and more, or the end of the list; with the
/// position after the last value.
pub open spec fn args_from(ts: Seq<Seq<char>>, p: int, acc: Seq<Id>) -> Option<(Seq<Id>, int)>
    decreases ts.len() - p,
{
    if p < 0 || p >= ts.len() {
        None
    } else {
        match spec_numbered(ts[p], 'v') {
            None => None,
            Some(v) => if p + 1 < ts.len() && ts[p + 1] == ","@ {
                args_from(ts, p + 2, acc.push(v))
            } else {
                Some((acc.push(v), p + 1))
            },
        }
    }
}

/// A list `(v<a>, v<b>, ...)` at `pos`, possibly empty: its values and
/// the position after it.
pub open spec fn args_at(ts: Seq<Seq<char>>, pos: int) -> Option<(Seq<Id>, int)> {
    if !(0 <= pos < ts.len() && ts[pos] == "("@) {
        None
    } else if pos + 1 < ts.len() && ts[pos + 1] == ")"@ {
        Some((seq![], pos + 2))
    } else {
        match args_from(ts, pos + 1, seq![]) {
            Some((a, q)) => if 0 <= q < ts.len() && ts[q] == ")"@ {
                Some((a, q + 1))
            } else {
                None
            },
            None => None,
        }
    }
}

/// Reads a value name `v<n>`.
fn read_value(tokens: &Vec<Vec<char>>, pos: usize) -> (r: Result<(Id, usize), String>)
    ensures
        r matches Ok((_, p)) ==> p == pos + 1 && pos < tokens@.len(),
        r is Ok <==> pos < tokens@.len() && spec_numbered(tokens@[pos as int]@, 'v') is Some,
        r matches Ok((id, _)) ==> spec_numbered(tokens@[pos as int]@, 'v') == Some(id),
{
    let (t, p) = take(tokens, pos)?;
    match numbered(&t, 'v') {
        Some(id) => Ok((id, p)),
        None => err("unknown value"),
    }
}

/// Reads `(v<a>, v<b>, ...)`.
fn read_args(tokens: &Vec<Vec<char>>, pos: usize) -> (r: Result<(Vec<Id>, usize), String>)
    ensures
        r matches Ok((_, p)) ==> pos < p <= tokens@.len(),
        r is Ok <==> args_at(tokens_view(tokens@), pos as int) is Some,
        r matches Ok((a, p)) ==> args_at(tokens_view(tokens@), pos as int) == Some((a@, p as int)),
{
    let ghost ts = tokens_view(tokens@);
    let mut p = expect(tokens, pos, "(")?;
    assert(ts[pos as int] == tokens@[pos as int]@);
    let mut args: Vec<Id> = Vec::new();
    if pos + 1 < tokens.len() {
        assert(ts[pos + 1] == tokens@[pos + 1]@);
    }
    if !at(tokens, p, ")") {
        loop
            invariant_except_break
                pos < p <= tokens@.len(),
                ts == tokens_view(tokens@),
                ts[pos as int] == "("@,
                !(pos + 1 < ts.len() && ts[pos + 1] == ")"@),
                args_from(ts, pos + 1, seq![]) == args_from(ts, p as int, args@),
            ensures
                pos < p <= tokens@.len(),
                ts == tokens_view(tokens@),
                ts[pos as int] == "("@,
                !(pos + 1 < ts.len() && ts[pos + 1] == ")"@),
                args_from(ts, pos + 1, seq![]) == Some((args@, p as int)),
            decreases tokens@.len() - p,
        {
            if p < tokens.len() {
                assert(ts[p as int] == tokens@[p as int]@);
            }
            let (v, q) = match read_value(tokens, p) {
                Ok(x) => x,
                Err(e) => {
                    return Err(e);
                },
            };
            assert(ts[p as int] == tokens@[p as int]@);
            args.push(v);
            if q < tokens.len() {
                assert(ts[q as int] == tokens@[q as int]@);
            }
            p = q;
            if !at(tokens, p, ",") {
                break;
            }
            p = p + 1;
        }
    } else {
        assert(ts[p as int] == tokens@[p as int]@);
    }
    if p < tokens.len() {
        assert(ts[p as int] == tokens@[p as int]@);
    }
    let p = expect(tokens, p, ")")?;
    Ok((args, p))
}

/// Reads an edge `b<n>(v<a>, ...)`.
fn read_edge(tokens: &Vec<Vec<char>>, pos: usize) -> (r: Result<(Edge, usize), String>)
    ensures
        r matches Ok((_, p)) ==> pos < p <= tokens@.len(),
        r is Ok <==> pos < tokens@.len() && spec_numbered(tokens@[pos as int]@, 'b') is Some && args_at(
            tokens_view(tokens@),
            pos + 1,
        ) is Some,
        r matches Ok((e, p)) ==> spec_numbered(tokens@[pos as int]@, 'b') == Some(e.block) && args_at(
            tokens_view(tokens@),
            pos + 1,
        ) == Some((e.args@, p as int)),
{
    let (t, p) = take(tokens, pos)?;
    let block = match numbered(&t, 'b') {
        Some(b) => b,
        None => return err("unknown block"),
    };
    let (args, p) = read_args(tokens, p)?;
    Ok((Edge { block, args }, p))
}

/// Reads one block of the block form, from the word `block` on.
fn read_block(tokens: &Vec<Vec<char>>, pos: usize, callees: &Vec<(String, Signature)>) -> (r: Result<
    (Block, usize),
    String,
>)
    ensures
        r matches Ok((_, p)) ==> pos < p <= tokens@.len(),
        !(pos + 1 < tokens@.len() && tokens@[pos as int]@ == "block"@ && spec_numbered(tokens@[pos + 1]@, 'b')
            is Some) ==> r is Err,
        r matches Ok((b, _)) ==> spec_numbered(tokens@[pos + 1]@, 'b') == Some(b.id),
{
    let p = expect(tokens, pos, "block")?;
    let (t, p) = take(tokens, p)?;
    let id = match numbered(&t, 'b') {
        Some(b) => b,
        None => return err("unknown block"),
    };
    let mut p = expect(tokens, p, "(")?;
    let mut parameters: Vec<Param> = Vec::new();
    if !at(tokens, p, ")") {
        loop
            invariant
                pos < p <= tokens@.len(),
            decreases tokens@.len() - p,
        {
            let (v, q) = read_value(tokens, p)?;
            let q = expect(tokens, q, ":")?;
            let (ty, q) = read_type(tokens, q)?;
            parameters.push(Param { id: v, ty });
            p = q;
            if !at(tokens, p, ",") {
                break;
            }
            p = p + 1;
        }
    }
    let p = expect(tokens, p, ")")?;
    let mut p = expect(tokens, p, "{")?;
    let mut instructions: Vec<Instruction> = Vec::new();
    while at(tokens, p, "let")
        invariant
            pos < p <= tokens@.len(),
        decreases tokens@.len() - p,
    {
        let (id, q) = read_value(tokens, p + 1)?;
        let q = expect(tokens, q, ":")?;
        let (ty, q) = read_type(tokens, q)?;
        let q = expect(tokens, q, "=")?;
        let (head, q) = take(tokens, q)?;
        let (expr, q) = if starts_literal(&head) {
            let value = Value::parse_chars(&head)?;
            (Expr::Const { value }, q)
        } else {
            let (args, q) = read_args(tokens, q)?;
            match Op::from_chars(&head) {
                Some(op) => (Expr::Apply { op, args }, q),
                None => {
                    let mut known = false;
                    let mut c: usize = 0;
                    while c < callees.len()
                        invariant
                            0 <= c <= callees@.len(),
                        decreases callees@.len() - c,
                    {
                        let name = chars_of(callees[c].0.as_str());
                        if chars_eq(&name, &head) {
                            known = true;
                        }
                        c += 1;
                    }
                    if !known {
                        return err("unknown function");
                    }
                    (Expr::Call { function: string_of(&head), args }, q)
                },
            }
        };
        let q = expect(tokens, q, ";")?;
        instructions.push(Instruction { id, ty, expr });
        p = q;
    }
    let (terminator, p) = if at(tokens, p, "return") {
        let (value, q) = read_value(tokens, p + 1)?;
        (Terminator::Return { value }, q)
    } else if at(tokens, p, "jump") {
        let (edge, q) = read_edge(tokens, p + 1)?;
        (Terminator::Jump { edge }, q)
    } else if at(tokens, p, "branch") {
        let (condition, q) = read_value(tokens, p + 1)?;
        let (if_true, q) = read_edge(tokens, q)?;
        let (if_false, q) = read_edge(tokens, q)?;
        (Terminator::Branch { condition, if_true, if_false }, q)
    } else {
        return err("expected a terminator");
    };
    let p = expect(tokens, p, ";")?;
    let p = expect(tokens, p, "}")?;
    Ok((Block { id, parameters, instructions, terminator }, p))
}

/// The block form of a function body, from its first `block` on.
fn parse_blocks(
    tokens: &Vec<Vec<char>>,
    pos: usize,
    header: &Header,
    callees: &Vec<(String, Signature)>,
) -> (r: Result<Function, String>)
    requires
        header.names@.len() == header.types@.len(),
        pos <= tokens@.len(),
    ensures
        r matches Ok(g) ==> canonical(g@) && g@.callees.len() <= callees@.len(),
        r matches Ok(g) ==> g@.parameters.map_values(|q: Param| q.ty) == header.types@ && g@.return_type
            == header.return_type,
        (exists|k: int|
            0 <= k < header.names@.len() && spec_numbered((#[trigger] header.names@[k])@, 'v') is None)
            ==> r is Err,
{
    let mut parameters: Vec<Param> = Vec::new();
    let mut k: usize = 0;
    while k < header.names.len()
        invariant
            0 <= k <= header.names@.len(),
            header.names@.len() == header.types@.len(),
            parameters@.len() == k,
            forall|j: int| 0 <= j < k ==> (#[trigger] parameters@[j]).ty == header.types@[j],
            forall|j: int| 0 <= j < k ==> spec_numbered((#[trigger] header.names@[j])@, 'v') is Some,
        decreases header.names@.len() - k,
    {
        match numbered(&header.names[k], 'v') {
            Some(id) => parameters.push(Param { id, ty: header.types[k] }),
            None => return err("block form parameters are named v<n>"),
        }
        k += 1;
    }
    assert(parameters@.map_values(|q: Param| q.ty) =~= header.types@);
    let mut p = pos;
    let mut blocks: Vec<Block> = Vec::new();
    while at(tokens, p, "block")
        invariant
            pos <= p <= tokens@.len(),
        decreases tokens@.len() - p,
    {
        let (b, q) = read_block(tokens, p, callees)?;
        blocks.push(b);
        p = q;
    }
    let p = expect(tokens, p, "}")?;
    if p != tokens.len() {
        return err("expected exactly one function");
    }
    let used = used_callees(&blocks, callees);
    let f = Function {
        callees: used,
        schema_version: SCHEMA_VERSION,
        parameters,
        return_type: header.return_type,
        entry: 0,
        blocks,
    };
    let g = f.normalized()?;
    assert(normal_form(f@, g@));
    Ok(g)
}

/// Parses one function in structured or block form. Sources longer than
/// 8 MB are refused before anything else is read.
pub fn parse(source: &str) -> (r: Result<Function, String>)
    ensures
        source.len() > SOURCE_LIMIT ==> (r matches Err(e) && e@
            == "source exceeds 8 MB limit"@),
        r matches Ok(g) ==> canonical(g@) && g@.callees.len() == 0,
{
    if source.len() > SOURCE_LIMIT {
        return Err("source exceeds 8 MB limit".to_owned());
    }
    let tokens = lex(source)?;
    let none: Vec<(String, Signature)> = Vec::new();
    let g = parse_tokens(&tokens, &none)?;
    Ok(g)
}

/// Parses a function from tokens, given the signatures of the functions
/// it may call.
pub fn parse_structured(tokens: Vec<String>, callees: &Vec<(String, Signature)>) -> (r: Result<
    Function,
    String,
>)
    ensures
        r matches Ok(g) ==> canonical(g@) && g@.callees.len() <= callees@.len(),
        header_at(tokens@.map_values(|t: String| t@), 0) is None ==> r is Err,
        r matches Ok(g) ==> header_at(tokens@.map_values(|t: String| t@), 0) matches Some(
            (_, _, tys, ret, _),
        ) && g@.parameters.map_values(|q: Param| q.ty.spec_name()) == tys && g@.return_type.spec_name()
            == ret,
{
    let mut ts: Vec<Vec<char>> = Vec::new();
    let mut i: usize = 0;
    while i < tokens.len()
        invariant
            0 <= i <= tokens@.len(),
            ts@.len() == i,
            forall|j: int| 0 <= j < i ==> (#[trigger] ts@[j])@ == tokens@[j]@,
        decreases tokens@.len() - i,
    {
        ts.push(chars_of(tokens[i].as_str()));
        i += 1;
    }
    assert(ts@.map_values(|t: Vec<char>| t@) =~= tokens@.map_values(|t: String| t@));
    parse_tokens(&ts, callees)
}


/// The decimal digits of `n`.
pub fn decimal(n: u32) -> (r: Vec<char>)
    ensures
        r@ == crate::formal::dec(n as nat),
        r@.len() > 0,
{
    crate::formal::decimal_u64(n as u64)
}

/// `<prefix><n>`, the number in decimal.
pub open spec fn numbered_text(prefix: char, n: u32) -> Seq<char> {
    seq![prefix] + dec(n as nat)
}

/// `v<a>, v<b>, ...`.
pub open spec fn values_text(ids: Seq<Id>) -> Seq<char>
    decreases ids.len(),
{
    if ids.len() == 0 {
        seq![]
    } else if ids.len() == 1 {
        numbered_text('v', ids[0])
    } else {
        values_text(ids.drop_last()) + ", "@ + numbered_text('v', ids.last())
    }
}

/// `v<a>: t, v<b>: t, ...`.
pub open spec fn params_text(ps: Seq<Param>) -> Seq<char>
    decreases ps.len(),
{
    if ps.len() == 0 {
        seq![]
    } else if ps.len() == 1 {
        numbered_text('v', ps[0].id) + ": "@ + ps[0].ty.spec_name()
    } else {
        params_text(ps.drop_last()) + ", "@ + numbered_text('v', ps.last().id) + ": "@
            + ps.last().ty.spec_name()
    }
}

/// The right-hand side of an instruction: a literal, or an operator or a
/// function applied to values.
pub open spec fn rhs_text(e: ExprM) -> Seq<char> {
    match e {
        ExprM::Const { value } => spec_literal(value),
        ExprM::Apply { op, args } => op.spec_name() + "("@ + values_text(args) + ")"@,
        ExprM::Call { function, args } => function + "("@ + values_text(args) + ")"@,
    }
}

/// `let v<id>: t = rhs;` and a line break, after `indent`.
pub open spec fn instruction_text(x: InstructionM, indent: Seq<char>) -> Seq<char> {
    indent + "let "@ + numbered_text('v', x.id) + ": "@ + x.ty.spec_name() + " = "@ + rhs_text(x.expr)
        + ";\n"@
}

/// Instructions, one per line.
pub open spec fn instructions_text(xs: Seq<InstructionM>, indent: Seq<char>) -> Seq<char>
    decreases xs.len(),
{
    if xs.len() == 0 {
        seq![]
    } else {
        instructions_text(xs.drop_last(), indent) + instruction_text(xs.last(), indent)
    }
}

/// `b<n>(v<a>, ...)`.
pub open spec fn edge_text(e: EdgeM) -> Seq<char> {
    numbered_text('b', e.block) + "("@ + values_text(e.args) + ")"@
}

/// A block's terminator, indented, without its semicolon.
pub open spec fn terminator_text(t: TerminatorM) -> Seq<char> {
    match t {
        TerminatorM::Return { value } => "        return "@ + numbered_text('v', value),
        TerminatorM::Jump { edge } => "        jump "@ + edge_text(edge),
        TerminatorM::Branch { condition, if_true, if_false } => "        branch "@ + numbered_text(
            'v',
            condition,
        ) + " "@ + edge_text(if_true) + " "@ + edge_text(if_false),
    }
}

/// A block of the block form.
pub open spec fn block_text(b: BlockM) -> Seq<char> {
    "    block "@ + numbered_text('b', b.id) + "("@ + params_text(b.parameters) + ") {\n"@
        + instructions_text(b.instructions, "        "@) + terminator_text(b.terminator) + ";\n    }\n"@
}

/// Blocks of the block form, in order.
pub open spec fn blocks_text(bs: Seq<BlockM>) -> Seq<char>
    decreases bs.len(),
{
    if bs.len() == 0 {
        seq![]
    } else {
        blocks_text(bs.drop_last()) + block_text(bs.last())
    }
}

/// A single block without parameters that returns.
pub open spec fn straight_line(g: FunctionM) -> bool {
    g.blocks.len() == 1 && g.blocks[0].parameters.len() == 0 && g.blocks[0].terminator is Return
}

/// The source of a function under a name: its header, then a
/// straight-line body or the block form.
pub open spec fn source_text(g: FunctionM, name: Seq<char>) -> Seq<char> {
    "fn "@ + name + "("@ + params_text(g.parameters) + ") -> "@ + g.return_type.spec_name() + " {\n"@ + (
    if straight_line(g) {
        instructions_text(g.blocks[0].instructions, "    "@) + "    return "@ + numbered_text(
            'v',
            g.blocks[0].terminator->value,
        ) + ";\n"@
    } else {
        blocks_text(g.blocks)
    }) + "}\n"@
}

/// Appends `<prefix><n>`.
fn push_numbered(out: &mut Vec<char>, prefix: char, n: u32)
    ensures
        final(out)@ == old(out)@ + numbered_text(prefix, n),
{
    out.push(prefix);
    extend_chars(out, &decimal(n));
    assert(final(out)@ =~= old(out)@ + numbered_text(prefix, n));
}

/// Appends `text`.
fn push_text(out: &mut Vec<char>, text: &str)
    ensures
        final(out)@ == old(out)@ + text@,
{
    let cs = chars_of(text);
    extend_chars(out, &cs);
}

/// Appends `v<a>, v<b>, ...`.
fn push_values(out: &mut Vec<char>, ids: &[Id])
    ensures
        final(out)@ == old(out)@ + values_text(ids@),
{
    let ghost start = out@;
    let mut i: usize = 0;
    while i < ids.len()
        invariant
            0 <= i <= ids@.len(),
            out@ == start + values_text(ids@.take(i as int)),
        decreases ids@.len() - i,
    {
        let ghost before = out@;
        if i > 0 {
            push_text(out, ", ");
        }
        push_numbered(out, 'v', ids[i]);
        proof {
            let t = ids@.take(i + 1);
            assert(t.drop_last() =~= ids@.take(i as int));
            assert(t.last() == ids@[i as int]);
            if i == 0 {
                assert(out@ =~= start + values_text(t));
            } else {
                assert(out@ =~= start + values_text(t));
            }
        }
        i += 1;
    }
    assert(ids@.take(i as int) =~= ids@);
}

/// Appends `v<a>: t, v<b>: t, ...`.
fn push_params(out: &mut Vec<char>, ps: &[Param])
    ensures
        final(out)@ == old(out)@ + params_text(ps@),
{
    let ghost start = out@;
    let mut i: usize = 0;
    while i < ps.len()
        invariant
            0 <= i <= ps@.len(),
            out@ == start + params_text(ps@.take(i as int)),
        decreases ps@.len() - i,
    {
        if i > 0 {
            push_text(out, ", ");
        }
        push_numbered(out, 'v', ps[i].id);
        push_text(out, ": ");
        extend_chars(out, &ps[i].ty.name_chars());
        proof {
            let t = ps@.take(i + 1);
            assert(t.drop_last() =~= ps@.take(i as int));
            assert(t.last() == ps@[i as int]);
            assert(out@ =~= start + params_text(t));
        }
        i += 1;
    }
    assert(ps@.take(i as int) =~= ps@);
}

/// Appends `let v<id>: t = rhs;` and a line break, indented by `indent`.
#[verifier::spinoff_prover]
fn push_instruction(out: &mut Vec<char>, x: &Instruction, indent: &str)
    ensures
        final(out)@ == old(out)@ + instruction_text(x@, indent@),
{
    push_text(out, indent);
    push_text(out, "let ");
    push_numbered(out, 'v', x.id);
    push_text(out, ": ");
    extend_chars(out, &x.ty.name_chars());
    push_text(out, " = ");
    let ghost mid = out@;
    match &x.expr {
        Expr::Const { value } => {
            let lit = value.literal();
            extend_chars(out, &chars_of(lit.as_str()));
        },
        Expr::Apply { op, args } => {
            extend_chars(out, &op.name_chars());
            push_text(out, "(");
            push_values(out, args.as_slice());
            push_text(out, ")");
        },
        Expr::Call { function, args } => {
            extend_chars(out, &chars_of(function.as_str()));
            push_text(out, "(");
            push_values(out, args.as_slice());
            push_text(out, ")");
        },
    }
    assert(out@ =~= mid + rhs_text(x@.expr));
    push_text(out, ";\n");
    assert(final(out)@ =~= old(out)@ + instruction_text(x@, indent@));
}

/// Appends the instructions, one per line, indented by `indent`.
fn push_instructions(out: &mut Vec<char>, xs: &Vec<Instruction>, indent: &str)
    ensures
        final(out)@ == old(out)@ + instructions_text(xs@.map_values(|x: Instruction| x@), indent@),
{
    let ghost start = out@;
    let ghost v = xs@.map_values(|x: Instruction| x@);
    let mut i: usize = 0;
    while i < xs.len()
        invariant
            0 <= i <= xs@.len(),
            v == xs@.map_values(|x: Instruction| x@),
            out@ == start + instructions_text(v.take(i as int), indent@),
        decreases xs@.len() - i,
    {
        push_instruction(out, &xs[i], indent);
        proof {
            let t = v.take(i + 1);
            assert(t.drop_last() =~= v.take(i as int));
            assert(t.last() == xs@[i as int]@);
            assert(out@ =~= start + instructions_text(t, indent@));
        }
        i += 1;
    }
    assert(v.take(i as int) =~= v);
}

/// Appends `b<n>(v<a>, ...)`.
fn push_edge(out: &mut Vec<char>, e: &Edge)
    ensures
        final(out)@ == old(out)@ + edge_text(e@),
{
    push_numbered(out, 'b', e.block);
    push_text(out, "(");
    push_values(out, e.args.as_slice());
    push_text(out, ")");
    assert(final(out)@ =~= old(out)@ + edge_text(e@));
}

/// Appends a block's terminator, indented, without its semicolon.
fn push_terminator(out: &mut Vec<char>, t: &Terminator)
    ensures
        final(out)@ == old(out)@ + terminator_text(t@),
{
    match t {
        Terminator::Return { value } => {
            push_text(out, "        return ");
            push_numbered(out, 'v', *value);
        },
        Terminator::Jump { edge } => {
            push_text(out, "        jump ");
            push_edge(out, edge);
        },
        Terminator::Branch { condition, if_true, if_false } => {
            push_text(out, "        branch ");
            push_numbered(out, 'v', *condition);
            push_text(out, " ");
            push_edge(out, if_true);
            push_text(out, " ");
            push_edge(out, if_false);
        },
    }
    assert(final(out)@ =~= old(out)@ + terminator_text(t@));
}

/// Appends a block of the block form.
#[verifier::spinoff_prover]
fn push_block(out: &mut Vec<char>, b: &Block)
    ensures
        final(out)@ == old(out)@ + block_text(b@),
{
    push_text(out, "    block ");
    push_numbered(out, 'b', b.id);
    push_text(out, "(");
    push_params(out, b.parameters.as_slice());
    push_text(out, ") {\n");
    push_instructions(out, &b.instructions, "        ");
    push_terminator(out, &b.terminator);
    push_text(out, ";\n    }\n");
    assert(final(out)@ =~= old(out)@ + block_text(b@));
}

/// The source of a function under the name `name`: a straight-line body
/// when it has a single block without parameters that returns, the
/// block form otherwise.
#[verifier::spinoff_prover]
pub fn print_named(g: &Function, name: &[char]) -> (r: String)
    ensures
        r@ == source_text(g@, name@),
{
    let mut out: Vec<char> = Vec::new();
    push_text(&mut out, "fn ");
    extend_chars(&mut out, name);
    push_text(&mut out, "(");
    push_params(&mut out, g.parameters.as_slice());
    push_text(&mut out, ") -> ");
    extend_chars(&mut out, &g.return_type.name_chars());
    push_text(&mut out, " {\n");
    let ghost head = out@;
    let straight = g.blocks.len() == 1 && g.blocks[0].parameters.len() == 0 && matches!(
        g.blocks[0].terminator,
        Terminator::Return { .. }
    );
    if straight {
        let b = &g.blocks[0];
        push_instructions(&mut out, &b.instructions, "    ");
        if let Terminator::Return { value } = &b.terminator {
            push_text(&mut out, "    return ");
            push_numbered(&mut out, 'v', *value);
            push_text(&mut out, ";\n");
        }
        assert(straight_line(g@));
        assert(out@ =~= head + instructions_text(g@.blocks[0].instructions, "    "@) + "    return "@
            + numbered_text('v', g@.blocks[0].terminator->value) + ";\n"@);
    } else {
        let ghost bv = g@.blocks;
        let mut k: usize = 0;
        while k < g.blocks.len()
            invariant
                0 <= k <= g.blocks@.len(),
                bv == g@.blocks,
                bv.len() == g.blocks@.len(),
                forall|j: int| 0 <= j < bv.len() ==> bv[j] == (#[trigger] g.blocks@[j])@,
                out@ == head + blocks_text(bv.take(k as int)),
            decreases g.blocks@.len() - k,
        {
            push_block(&mut out, &g.blocks[k]);
            proof {
                let t = bv.take(k + 1);
                assert(t.drop_last() =~= bv.take(k as int));
                assert(t.last() == g.blocks@[k as int]@);
                assert(out@ =~= head + blocks_text(t));
            }
            k += 1;
        }
        assert(bv.take(k as int) =~= bv);
        assert(!straight_line(g@));
    }
    push_text(&mut out, "}\n");
    assert(out@ =~= source_text(g@, name@));
    string_of(&out)
}

/// The source of a valid function, named `candidate`; it parses back to
/// the normalized function.
pub fn print_source(f: &Function) -> (r: Result<String, String>)
    ensures
        r is Ok ==> crate::validate::shape_ok(f@) && crate::validate::wf(f@),
        r matches Ok(t) ==> exists|g: FunctionM|
            normal_form(f@, g) && t@ == #[trigger] source_text(g, "candidate"@),
        crate::normalize::normalizable(f@) ==> r is Ok,
{
    let g = f.normalized()?;
    let name = chars_of("candidate");
    Ok(print_named(&g, &name))
}

} // verus!
