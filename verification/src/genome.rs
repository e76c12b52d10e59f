//! Candidate programs of the search: a straight-line list of genes over
//! the arguments, or a whole block program, and the ways to make and
//! change them.
use vstd::prelude::*;

use crate::ir::{copy_ids, Block, Expr, ExprM, Function, FunctionM, Id, Instruction, Param, Terminator};
use crate::literal::spec_parse_literal;
use crate::rng::Rng;
use crate::search_config::{constants_ok, parse_constants, SearchConfig};
use crate::sig::{Signature};
use crate::types::{spec_result, Op, Type, Value};
use crate::validate::{shape_ok, wf, SCHEMA_VERSION};

verus! {

/// One straight-line instruction: its type and computation. Its value
/// identifier is its position after the arguments.
#[derive(Clone, Debug, PartialEq, Eq)]
pub struct Gene {
    pub ty: Type,
    pub expr: Expr,
}

/// A candidate program: a block program when `cfg` is set, the
/// straight-line `genes` returning `output` otherwise.
#[derive(Clone, Debug, PartialEq, Eq)]
pub struct Genome {
    pub cfg: Option<Function>,
    pub genes: Vec<Gene>,
    pub output: Id,
}

/// The model of a gene.
pub open spec fn gene_view(g: Gene) -> (Type, ExprM) {
    (g.ty, g.expr@)
}

/// The instructions of straight-line genes after `n` arguments.
pub open spec fn gene_instructions(genes: Seq<(Type, ExprM)>, n: nat) -> Seq<crate::ir::InstructionM> {
    Seq::new(
        genes.len(),
        |i: int| crate::ir::InstructionM { id: (n + i) as u32, ty: genes[i].0, expr: genes[i].1 },
    )
}

/// The parameters of a signature: one per argument, numbered in order.
pub open spec fn signature_params(args: Seq<Type>) -> Seq<Param> {
    Seq::new(args.len(), |i: int| Param { id: i as u32, ty: args[i] })
}

/// The one-block function of straight-line genes.
pub open spec fn straight_line(args: Seq<Type>, ret: Type, genes: Seq<(Type, ExprM)>, output: Id) -> FunctionM {
    FunctionM {
        callees: seq![],
        schema_version: SCHEMA_VERSION,
        parameters: signature_params(args),
        return_type: ret,
        entry: 0,
        blocks: seq![
            crate::ir::BlockM {
                id: 0,
                parameters: seq![],
                instructions: gene_instructions(genes, args.len()),
                terminator: crate::ir::TerminatorM::Return { value: output },
            },
        ],
    }
}

/// The function a genome stands for under a signature.
pub open spec fn lowered(g: Genome, s: Signature) -> FunctionM {
    match g.cfg {
        Some(f) => f@,
        None => straight_line(s.arguments@, s.return_type, genes_view(g), g.output),
    }
}

/// Number of instructions of a function model.
pub open spec fn instruction_total(bs: Seq<crate::ir::BlockM>) -> nat
    decreases bs.len(),
{
    if bs.len() == 0 {
        0
    } else {
        instruction_total(bs.drop_last()) + bs.last().instructions.len()
    }
}

/// The instructions of a prefix of the blocks are at most all of them.
pub proof fn lemma_instruction_total_prefix(bs: Seq<crate::ir::BlockM>, b: int)
    requires
        0 <= b <= bs.len(),
    ensures
        instruction_total(bs.subrange(0, b)) <= instruction_total(bs),
    decreases bs.len(),
{
    if b < bs.len() {
        lemma_instruction_total_prefix(bs.drop_last(), b);
        assert(bs.drop_last().subrange(0, b) =~= bs.subrange(0, b));
    } else {
        assert(bs.subrange(0, b) =~= bs);
    }
}

/// A genome the search may keep: its function is valid with the
/// signature's types, and it is within the instruction and block limits.
pub open spec fn genome_ok(g: Genome, s: Signature, c: SearchConfig) -> bool {
    let f = lowered(g, s);
    &&& shape_ok(f)
    &&& wf(f)
    &&& f.arg_types() == s.arguments@
    &&& f.return_type == s.return_type
    &&& f.callees.len() == 0
    &&& instruction_total(f.blocks) <= c.max_instructions
    &&& f.blocks.len() <= c.max_blocks || g.cfg is None
}

impl Gene {
    /// A copy of the gene.
    pub fn copy(&self) -> (r: Gene)
        ensures
            gene_view(r) == gene_view(*self),
    {
        Gene { ty: self.ty, expr: self.expr.copy() }
    }
}

/// Copies of genes.
pub fn copy_genes(genes: &Vec<Gene>) -> (r: Vec<Gene>)
    ensures
        r@.map_values(|x: Gene| gene_view(x)) == genes@.map_values(|x: Gene| gene_view(x)),
{
    let mut out: Vec<Gene> = Vec::new();
    let mut i: usize = 0;
    while i < genes.len()
        invariant
            0 <= i <= genes@.len(),
            out@.len() == i,
            forall|j: int| 0 <= j < i ==> gene_view(#[trigger] out@[j]) == gene_view(genes@[j]),
        decreases genes@.len() - i,
    {
        out.push(genes[i].copy());
        i += 1;
    }
    assert(out@.map_values(|x: Gene| gene_view(x)) =~= genes@.map_values(|x: Gene| gene_view(x)));
    out
}

impl Genome {
    /// A copy of the genome with the same meaning.
    pub fn copy(&self) -> (r: Genome)
        ensures
            r.output == self.output,
            r.genes@.map_values(|x: Gene| gene_view(x)) == self.genes@.map_values(|x: Gene| gene_view(x)),
            r.cfg is Some <==> self.cfg is Some,
            r.cfg matches Some(f) ==> f@ == self.cfg->0@,
            forall|s: Signature| lowered(r, s) == lowered(*self, s),
    {
        let cfg = match &self.cfg {
            Some(f) => Some(f.copy()),
            None => None,
        };
        Genome { cfg, genes: copy_genes(&self.genes), output: self.output }
    }

    /// The function of the genome under a signature.
    pub fn lower(&self, s: &Signature) -> (r: Function)
        ensures
            r@ == lowered(*self, *s),
    {
        if let Some(f) = &self.cfg {
            return f.copy();
        }
        let n = s.arguments.len();
        let mut parameters: Vec<Param> = Vec::new();
        let mut i: usize = 0;
        while i < n
            invariant
                0 <= i <= n,
                n == s.arguments@.len(),
                parameters@.len() == i,
                forall|j: int| 0 <= j < i ==> #[trigger] parameters@[j] == signature_params(s.arguments@)[j],
            decreases n - i,
        {
            parameters.push(Param { id: i as u32, ty: s.arguments[i] });
            i += 1;
        }
        let mut instructions: Vec<Instruction> = Vec::new();
        let mut k: usize = 0;
        let ghost genes = self.genes@.map_values(|x: Gene| gene_view(x));
        while k < self.genes.len()
            invariant
                0 <= k <= self.genes@.len(),
                n == s.arguments@.len(),
                genes == self.genes@.map_values(|x: Gene| gene_view(x)),
                instructions@.len() == k,
                forall|j: int|
                    0 <= j < k ==> (#[trigger] instructions@[j])@ == gene_instructions(genes, n as nat)[j],
            decreases self.genes@.len() - k,
        {
            let id = (n as u128 + k as u128) as u32;
            instructions.push(
                Instruction { id, ty: self.genes[k].ty, expr: self.genes[k].expr.copy() },
            );
            k += 1;
        }
        let block = Block {
            id: 0,
            parameters: Vec::new(),
            instructions,
            terminator: Terminator::Return { value: self.output },
        };
        let r = Function {
            callees: Vec::new(),
            schema_version: SCHEMA_VERSION,
            parameters,
            return_type: s.return_type,
            entry: 0,
            blocks: vec![block],
        };
        proof {
            assert(r@.parameters =~= signature_params(s.arguments@));
            assert(block@.instructions =~= gene_instructions(genes, n as nat));
            assert(block@.parameters =~= Seq::<Param>::empty());
            assert(r@.callees =~= Seq::<(Seq<char>, (Seq<Type>, Type))>::empty());
            assert(r@.blocks =~= seq![block@]);
        }
        r
    }

    /// The types of the values a new gene may use: the arguments, then
    /// every gene.
    pub fn types(&self, s: &Signature) -> (r: Vec<Type>)
        ensures
            r@ == s.arguments@ + self.genes@.map_values(|x: Gene| x.ty),
    {
        let mut out = crate::sig::copy_types(&s.arguments);
        let mut i: usize = 0;
        while i < self.genes.len()
            invariant
                0 <= i <= self.genes@.len(),
                out@ == s.arguments@ + self.genes@.map_values(|x: Gene| x.ty).subrange(0, i as int),
            decreases self.genes@.len() - i,
        {
            out.push(self.genes[i].ty);
            i += 1;
            assert(out@ =~= s.arguments@ + self.genes@.map_values(|x: Gene| x.ty).subrange(0, i as int));
        }
        assert(self.genes@.map_values(|x: Gene| x.ty).subrange(0, self.genes@.len() as int)
            =~= self.genes@.map_values(|x: Gene| x.ty));
        out
    }

    /// Number of instructions of the genome's program.
    pub fn instruction_count(&self) -> (r: usize)
        ensures
            self.cfg is None ==> r == self.genes@.len(),
            self.cfg matches Some(f) ==> r as nat == instruction_total(f@.blocks) || (r == usize::MAX
                && instruction_total(f@.blocks) >= usize::MAX),
    {
        match &self.cfg {
            None => self.genes.len(),
            Some(f) => {
                let mut total: usize = 0;
                let mut b: usize = 0;
                while b < f.blocks.len()
                    invariant
                        0 <= b <= f.blocks@.len(),
                        self.cfg is Some && self.cfg->0 == *f,
                        total as nat == instruction_total(f@.blocks.subrange(0, b as int)),
                    decreases f.blocks@.len() - b,
                {
                    let n = f.blocks[b].instructions.len();
                    if n > usize::MAX - total {
                        proof {
                            assert(f@.blocks.subrange(0, b + 1 as int).drop_last() =~= f@.blocks.subrange(0, b as int));
                            assert(f.blocks@[b as int]@ == f@.blocks[b as int]);
                            lemma_instruction_total_prefix(f@.blocks, b + 1);
                        }
                        return usize::MAX;
                    }
                    total = total + n;
                    b += 1;
                    proof {
                        assert(f@.blocks.subrange(0, b as int).drop_last() =~= f@.blocks.subrange(
                            0,
                            b - 1 as int,
                        ));
                    }
                }
                assert(f@.blocks.subrange(0, f@.blocks.len() as int) =~= f@.blocks);
                total
            },
        }
    }

    /// Whether the genome may be kept by a search with this signature and
    /// configuration.
    pub fn valid(&self, s: &Signature, c: &SearchConfig) -> (r: bool)
        ensures
            r ==> genome_ok(*self, *s, *c),
            r == (genome_ok(*self, *s, *c) && instruction_total(lowered(*self, *s).blocks) < usize::MAX),
    {
        let f = self.lower(s);
        proof {
            if self.cfg is None {
                let b = f@.blocks[0];
                assert(f@.blocks.len() == 1);
                assert(f@.blocks.drop_last() =~= Seq::<crate::ir::BlockM>::empty());
                assert(instruction_total(Seq::<crate::ir::BlockM>::empty()) == 0);
                assert(f@.blocks.last() == b);
                assert(instruction_total(f@.blocks) == b.instructions.len());
            }
        }
        let count = self.instruction_count();
        if count > c.max_instructions {
            return false;
        }
        if count == usize::MAX {
            return false;
        }
        if self.cfg.is_some() && f.blocks.len() > c.max_blocks {
            return false;
        }
        let sig = f.signature();
        if !sig.same(s) || f.callees.len() != 0 {
            return false;
        }
        if self.cfg.is_none() {
            proof {
                let gm = self.genes@.map_values(|x: Gene| gene_view(x));
                let b = f@.blocks[0];
                assert(f@.blocks.len() == 1);
                assert(f@.blocks.drop_last() =~= Seq::<crate::ir::BlockM>::empty());
                assert(instruction_total(Seq::<crate::ir::BlockM>::empty()) == 0);
                assert(f@.blocks.last() == b);
                assert(instruction_total(f@.blocks) == b.instructions.len());
            }
        }
        f.validate().is_ok()
    }
}

/// The positions of `types` before `limit` that hold `t`, in order.
pub fn matching(types: &Vec<Type>, limit: usize, t: Type) -> (r: Vec<Id>)
    requires
        limit <= types@.len(),
        types@.len() <= u32::MAX,
    ensures
        forall|k: int| 0 <= k < r@.len() ==> (#[trigger] r@[k]) < limit && types@[r@[k] as int] == t,
        forall|i: int| 0 <= i < limit && types@[i] == t ==> r@.contains(i as u32),
        forall|a: int, b: int| 0 <= a < b < r@.len() ==> r@[a] < r@[b],
{
    let mut out: Vec<Id> = Vec::new();
    let mut i: usize = 0;
    while i < limit
        invariant
            0 <= i <= limit <= types@.len(),
            types@.len() <= u32::MAX,
            forall|k: int| 0 <= k < out@.len() ==> (#[trigger] out@[k]) < i && types@[out@[k] as int] == t,
            forall|j: int| 0 <= j < i && types@[j] == t ==> out@.contains(j as u32),
            forall|a: int, b: int| 0 <= a < b < out@.len() ==> out@[a] < out@[b],
        decreases limit - i,
    {
        if types[i] == t {
            let ghost before = out@;
            out.push(i as u32);
            proof {
                assert forall|j: int| 0 <= j < i + 1 && types@[j] == t implies out@.contains(j as u32) by {
                    if j < i {
                        let w = choose|w: int| 0 <= w < before.len() && before[w] == j as u32;
                        assert(out@[w] == j as u32);
                    } else {
                        assert(out@[before.len() as int] == j as u32);
                    }
                }
            }
        }
        i += 1;
    }
    out
}

/// A gene over values of `types`: a constant (always, when there are no
/// operators; otherwise one time in four when there are constants) or an
/// operator applied to values of one randomly chosen type (`select`
/// takes a boolean first).
pub fn random_gene(types: &Vec<Type>, c: &SearchConfig, constants: &Vec<Value>, rng: &mut Rng) -> (r:
    Option<Gene>)
    requires
        types@.len() <= u32::MAX,
    ensures
        r matches Some(g) ==> match g.expr@ {
            ExprM::Const { value } => value.ty == g.ty && constants@.contains(value),
            ExprM::Apply { op, args } => (forall|k: int|
                0 <= k < args.len() ==> (#[trigger] args[k]) < types@.len()) && spec_result(
                op,
                args.map_values(|a: Id| types@[a as int]),
            ) == Some(g.ty),
            ExprM::Call { .. } => false,
        },
        constants@.len() > 0 && c.operators@.len() == 0 ==> r is Some,
        constants@.len() == 0 && (c.operators@.len() == 0 || types@.len() == 0) ==> r is None,
{
    if constants.len() > 0 && (c.operators.len() == 0 || rng.index(4) == 0) {
        let v = constants[rng.index(constants.len())];
        return Some(Gene { ty: v.ty, expr: Expr::Const { value: v } });
    }
    if c.operators.len() == 0 || types.len() == 0 {
        return None;
    }
    let op = c.operators[rng.index(c.operators.len())];
    let t = types[rng.index(types.len())];
    let mut args: Vec<Id> = Vec::new();
    if op == Op::Select {
        let b = matching(types, types.len(), Type::Bool);
        if b.len() == 0 {
            return None;
        }
        args.push(b[rng.index(b.len())]);
    }
    let ids = matching(types, types.len(), t);
    if ids.len() == 0 {
        return None;
    }
    let arity = op.arity();
    while args.len() < arity
        invariant
            forall|k: int| 0 <= k < args@.len() ==> (#[trigger] args@[k]) < types@.len(),
            forall|k: int| 0 <= k < ids@.len() ==> (#[trigger] ids@[k]) < types@.len(),
            ids@.len() > 0,
        decreases arity - args@.len(),
    {
        args.push(ids[rng.index(ids.len())]);
    }
    let mut arg_types: Vec<Type> = Vec::new();
    let mut k: usize = 0;
    while k < args.len()
        invariant
            0 <= k <= args@.len(),
            forall|q: int| 0 <= q < args@.len() ==> (#[trigger] args@[q]) < types@.len(),
            arg_types@ == args@.map_values(|a: Id| types@[a as int]).subrange(0, k as int),
        decreases args@.len() - k,
    {
        arg_types.push(types[args[k] as usize]);
        k += 1;
        assert(arg_types@ =~= args@.map_values(|a: Id| types@[a as int]).subrange(0, k as int));
    }
    assert(args@.map_values(|a: Id| types@[a as int]).subrange(0, args@.len() as int) =~= args@.map_values(
        |a: Id| types@[a as int],
    ));
    match op.result(&arg_types) {
        Ok(ty) => Some(Gene { ty, expr: Expr::Apply { op, args } }),
        Err(_) => None,
    }
}


/// An argument or constant gene reference: the identifier of argument
/// `pick`, or of the gene holding constant `pick - arguments`, added to
/// the genes when it is not there yet.
fn pick_operand(g: &mut Genome, nargs: usize, constants: &Vec<Value>, pick: usize) -> (r: Option<Id>)
    requires
        pick < nargs + constants@.len(),
    ensures
        final(g).cfg == old(g).cfg,
        final(g).output == old(g).output,
        pick < nargs ==> final(g).genes@ == old(g).genes@ && r == (if pick <= u32::MAX {
            Some(pick as u32)
        } else {
            None::<Id>
        }),
        pick >= nargs ==> ({
            let v = constants@[pick - nargs];
            ||| exists|i: int|
                0 <= i < old(g).genes@.len() && (#[trigger] old(g).genes@[i]).expr@ == (ExprM::Const { value: v })
                    && final(g).genes@ == old(g).genes@ && r == Some((nargs + i) as u32) && forall|j: int|
                    0 <= j < i ==> (#[trigger] old(g).genes@[j]).expr@ != (ExprM::Const { value: v })
            ||| (forall|j: int|
                0 <= j < old(g).genes@.len() ==> (#[trigger] old(g).genes@[j]).expr@ != (ExprM::Const {
                    value: v,
                })) && final(g).genes@.len() == old(g).genes@.len() + 1 && final(g).genes@.drop_last()
                == old(g).genes@ && final(g).genes@.last().ty == v.ty && final(g).genes@.last().expr@
                == (ExprM::Const { value: v }) && r == Some((nargs + old(g).genes@.len()) as u32)
        }),
{
    if pick < nargs {
        if pick > u32::MAX as usize {
            return None;
        }
        return Some(pick as u32);
    }
    let v = constants[pick - nargs];
    let mut i: usize = 0;
    while i < g.genes.len()
        invariant
            0 <= i <= g.genes@.len(),
            g.genes@ == old(g).genes@,
            g.cfg == old(g).cfg,
            g.output == old(g).output,
            v == constants@[pick - nargs],
            nargs <= pick < nargs + constants@.len(),
            forall|j: int| 0 <= j < i ==> (#[trigger] old(g).genes@[j]).expr@ != (ExprM::Const { value: v }),
        decreases g.genes@.len() - i,
    {
        if let Expr::Const { value } = &g.genes[i].expr {
            if *value == v {
                let id = (nargs as u128 + i as u128) as u32;
                assert(id == (nargs + i) as u32) by (bit_vector)
                    requires
                        id == (nargs as u128 + i as u128) as u32,
                ;
                return Some(id);
            }
        }
        i += 1;
    }
    let at = g.genes.len();
    g.genes.push(Gene { ty: v.ty, expr: Expr::Const { value: v } });
    assert(g.genes@.drop_last() =~= old(g).genes@);
    let id = (nargs as u128 + at as u128) as u32;
    assert(id == (nargs + at) as u32) by (bit_vector)
        requires
            id == (nargs as u128 + at as u128) as u32,
    ;
    Some(id)
}

/// The straight-line genome of `genes` returning `output` may be kept: it
/// lowers to a well-formed function of the signature within the limits.
pub open spec fn straight_ok(s: Signature, c: SearchConfig, genes: Seq<(Type, ExprM)>, output: Id) -> bool {
    let f = straight_line(s.arguments@, s.return_type, genes, output);
    &&& shape_ok(f)
    &&& wf(f)
    &&& f.arg_types() == s.arguments@
    &&& f.return_type == s.return_type
    &&& f.callees.len() == 0
    &&& instruction_total(f.blocks) <= c.max_instructions
    &&& instruction_total(f.blocks) < usize::MAX
}

/// Some genome of `gs` is the straight-line genome of `genes` returning
/// `output`.
pub open spec fn holds_straight(gs: Seq<Genome>, genes: Seq<(Type, ExprM)>, output: Id) -> bool {
    exists|k: int|
        0 <= k < gs.len() && (#[trigger] gs[k]).cfg is None && genes_view(gs[k]) == genes && gs[k].output == output
}

/// The models of a genome's genes.
pub open spec fn genes_view(g: Genome) -> Seq<(Type, ExprM)> {
    g.genes@.map_values(|x: Gene| gene_view(x))
}

/// The first seeds of a search: every argument of the return type
/// returned as is, every constant of the return type, and every single
/// operator of the return type over arguments and constants; only valid
/// ones are kept.
pub fn seeds(s: &Signature, c: &SearchConfig) -> (r: Vec<Genome>)
    requires
        constants_ok(*c),
    ensures
        forall|i: int| 0 <= i < r@.len() ==> genome_ok(#[trigger] r@[i], *s, *c),
        forall|i: int|
            0 <= i < s.arguments@.len() && i <= u32::MAX && (#[trigger] s.arguments@[i]) == s.return_type && straight_ok(
                *s,
                *c,
                seq![],
                i as u32,
            ) ==> holds_straight(r@, Seq::<(Type, ExprM)>::empty(), i as u32),
        forall|q: int|
            0 <= q < c.constants@.len() && (spec_parse_literal((#[trigger] c.constants@[q])@) matches Some(v) && v.ty
                == s.return_type && straight_ok(*s, *c, seq![(v.ty, ExprM::Const { value: v })], s.arguments@.len() as u32))
                ==> holds_straight(
                r@,
                seq![(spec_parse_literal(c.constants@[q]@)->0.ty, ExprM::Const { value: spec_parse_literal(c.constants@[q]@)->0 })],
                s.arguments@.len() as u32,
            ),
{
    let constants = match parse_constants(c) {
        Ok(v) => v,
        Err(_) => return Vec::new(),
    };
    let nargs = s.arguments.len();
    let mut out: Vec<Genome> = Vec::new();
    let mut i: usize = 0;
    while i < nargs
        invariant
            0 <= i <= nargs,
            nargs == s.arguments@.len(),
            forall|k: int| 0 <= k < out@.len() ==> genome_ok(#[trigger] out@[k], *s, *c),
            forall|j: int|
                0 <= j < i && j <= u32::MAX && (#[trigger] s.arguments@[j]) == s.return_type && straight_ok(*s, *c, seq![], j as u32)
                    ==> holds_straight(out@, Seq::<(Type, ExprM)>::empty(), j as u32),
        decreases nargs - i,
    {
        let ghost before = out@;
        if s.arguments[i] == s.return_type && i <= u32::MAX as usize {
            let g = Genome { cfg: None, genes: Vec::new(), output: i as u32 };
            assert(genes_view(g) =~= Seq::<(Type, ExprM)>::empty());
            if g.valid(s, c) {
                out.push(g);
                assert(out@[before.len() as int] == g);
            }
        }
        proof {
            assert forall|j: int|
                0 <= j < i + 1 && j <= u32::MAX && (#[trigger] s.arguments@[j]) == s.return_type && straight_ok(*s, *c, seq![], j as u32)
                    implies holds_straight(out@, Seq::<(Type, ExprM)>::empty(), j as u32) by {
                if j < i {
                    let w = choose|w: int|
                        0 <= w < before.len() && (#[trigger] before[w]).cfg is None && genes_view(before[w]) == Seq::<(Type, ExprM)>::empty() && before[w].output == j as u32;
                    assert(out@[w] == before[w]);
                }
            }
        }
        i += 1;
    }
    let mut k: usize = 0;
    while k < constants.len()
        invariant
            0 <= k <= constants@.len(),
            nargs == s.arguments@.len(),
            forall|q: int| 0 <= q < out@.len() ==> genome_ok(#[trigger] out@[q], *s, *c),
            constants@.len() == c.constants@.len(),
            forall|q: int|
                0 <= q < constants@.len() ==> spec_parse_literal(c.constants@[q]@) == Some(#[trigger] constants@[q]),
            forall|j: int|
                0 <= j < nargs && j <= u32::MAX && (#[trigger] s.arguments@[j]) == s.return_type && straight_ok(*s, *c, seq![], j as u32)
                    ==> holds_straight(out@, Seq::<(Type, ExprM)>::empty(), j as u32),
            forall|q: int|
                0 <= q < k && constants@[q].ty == s.return_type && straight_ok(
                    *s,
                    *c,
                    seq![(constants@[q].ty, ExprM::Const { value: constants@[q] })],
                    nargs as u32,
                ) ==> holds_straight(out@, seq![(#[trigger] constants@[q].ty, ExprM::Const { value: constants@[q] })], nargs as u32),
        decreases constants@.len() - k,
    {
        let ghost before = out@;
        let v = constants[k];
        if v.ty == s.return_type {
            let mut genes: Vec<Gene> = Vec::new();
            genes.push(Gene { ty: v.ty, expr: Expr::Const { value: v } });
            let g = Genome { cfg: None, genes, output: nargs as u32 };
            assert(genes_view(g) =~= seq![(v.ty, ExprM::Const { value: v })]);
            if g.valid(s, c) {
                out.push(g);
                assert(out@[before.len() as int] == g);
            }
        }
        proof {
            assert forall|j: int|
                0 <= j < nargs && j <= u32::MAX && (#[trigger] s.arguments@[j]) == s.return_type && straight_ok(*s, *c, seq![], j as u32)
                    implies holds_straight(out@, Seq::<(Type, ExprM)>::empty(), j as u32) by {
                let w = choose|w: int|
                    0 <= w < before.len() && (#[trigger] before[w]).cfg is None && genes_view(before[w]) == Seq::<(Type, ExprM)>::empty() && before[w].output == j as u32;
                assert(out@[w] == before[w]);
            }
            assert forall|q: int|
                0 <= q < k + 1 && constants@[q].ty == s.return_type && straight_ok(
                    *s,
                    *c,
                    seq![(constants@[q].ty, ExprM::Const { value: constants@[q] })],
                    nargs as u32,
                ) implies holds_straight(out@, seq![(#[trigger] constants@[q].ty, ExprM::Const { value: constants@[q] })], nargs as u32) by {
                if q < k {
                    let gv = seq![(constants@[q].ty, ExprM::Const { value: constants@[q] })];
                    let w = choose|w: int|
                        0 <= w < before.len() && (#[trigger] before[w]).cfg is None && genes_view(before[w]) == gv && before[w].output == nargs as u32;
                    assert(out@[w] == before[w]);
                }
            }
        }
        k += 1;
    }
    let ghost prefix = out@;
    proof {
        assert forall|q: int|
            0 <= q < c.constants@.len() && (spec_parse_literal((#[trigger] c.constants@[q])@) matches Some(v) && v.ty
                == s.return_type && straight_ok(*s, *c, seq![(v.ty, ExprM::Const { value: v })], s.arguments@.len() as u32))
                implies holds_straight(
                out@,
                seq![(spec_parse_literal(c.constants@[q]@)->0.ty, ExprM::Const { value: spec_parse_literal(c.constants@[q]@)->0 })],
                s.arguments@.len() as u32,
            ) by {
            assert(spec_parse_literal(c.constants@[q]@) == Some(constants@[q]));
            assert(holds_straight(out@, seq![(constants@[q].ty, ExprM::Const { value: constants@[q] })], nargs as u32));
        }
    }
    let mut pool: Vec<Type> = crate::sig::copy_types(&s.arguments);
    let mut k: usize = 0;
    while k < constants.len()
        invariant
            0 <= k <= constants@.len(),
            pool@.len() == nargs + k,
            nargs == s.arguments@.len(),
        decreases constants@.len() - k,
    {
        pool.push(constants[k].ty);
        k += 1;
    }
    let n = pool.len();
    let mut o: usize = 0;
    while o < c.operators.len()
        invariant
            0 <= o <= c.operators@.len(),
            n == pool@.len(),
            n == nargs + constants@.len(),
            nargs == s.arguments@.len(),
            forall|q: int| 0 <= q < out@.len() ==> genome_ok(#[trigger] out@[q], *s, *c),
            prefix.len() <= out@.len(),
            forall|j: int| 0 <= j < prefix.len() ==> #[trigger] out@[j] == prefix[j],
        decreases c.operators@.len() - o,
    {
        let op = c.operators[o];
        let arity = op.arity();
        let nb = if arity > 1 {
            n
        } else {
            1
        };
        let nd = if arity > 2 {
            n
        } else {
            1
        };
        let mut a: usize = 0;
        while a < n
            invariant
                0 <= a <= n,
                n == pool@.len(),
                n == nargs + constants@.len(),
                nargs == s.arguments@.len(),
                arity <= 3,
                nb <= n || nb == 1,
                nd <= n || nd == 1,
                forall|q: int| 0 <= q < out@.len() ==> genome_ok(#[trigger] out@[q], *s, *c),
                prefix.len() <= out@.len(),
                forall|j: int| 0 <= j < prefix.len() ==> #[trigger] out@[j] == prefix[j],
            decreases n - a,
        {
            let mut b: usize = 0;
            while b < nb
                invariant
                    0 <= b <= nb,
                    a < n,
                    n == pool@.len(),
                    n == nargs + constants@.len(),
                    nargs == s.arguments@.len(),
                    arity <= 3,
                    nb <= n || nb == 1,
                    nd <= n || nd == 1,
                    forall|q: int| 0 <= q < out@.len() ==> genome_ok(#[trigger] out@[q], *s, *c),
                    prefix.len() <= out@.len(),
                    forall|j: int| 0 <= j < prefix.len() ==> #[trigger] out@[j] == prefix[j],
                decreases nb - b,
            {
                let mut d: usize = 0;
                while d < nd
                    invariant
                        0 <= d <= nd,
                        a < n,
                        b < nb,
                        n == pool@.len(),
                        n == nargs + constants@.len(),
                        nargs == s.arguments@.len(),
                        arity <= 3,
                        nb <= n || nb == 1,
                        nd <= n || nd == 1,
                        forall|q: int| 0 <= q < out@.len() ==> genome_ok(#[trigger] out@[q], *s, *c),
                        prefix.len() <= out@.len(),
                        forall|j: int| 0 <= j < prefix.len() ==> #[trigger] out@[j] == prefix[j],
                    decreases nd - d,
                {
                    let picks = [a, b, d];
                    let mut types: Vec<Type> = Vec::new();
                    let mut j: usize = 0;
                    let mut fits = true;
                    while j < arity
                        invariant
                            0 <= j <= arity <= 3,
                            n == pool@.len(),
                        decreases arity - j,
                    {
                        let pk = picks[j];
                        if pk < n {
                            types.push(pool[pk]);
                        } else {
                            fits = false;
                        }
                        j += 1;
                    }
                    let wanted = match op.result(&types) {
                        Ok(t) => t == s.return_type,
                        Err(_) => false,
                    };
                    if fits && wanted {
                        let mut g = Genome { cfg: None, genes: Vec::new(), output: 0 };
                        let mut args: Vec<Id> = Vec::new();
                        let mut j: usize = 0;
                        let mut placed = true;
                        while j < arity
                            invariant
                                0 <= j <= arity <= 3,
                                n == nargs + constants@.len(),
                            decreases arity - j,
                        {
                            let pk = picks[j];
                            if pk < n {
                                match pick_operand(&mut g, nargs, &constants, pk) {
                                    Some(id) => args.push(id),
                                    None => {
                                        placed = false;
                                    },
                                }
                            } else {
                                placed = false;
                            }
                            j += 1;
                        }
                        g.output = (nargs as u128 + g.genes.len() as u128) as u32;
                        g.genes.push(Gene { ty: s.return_type, expr: Expr::Apply { op, args } });
                        if placed && g.valid(s, c) {
                            let ghost ob = out@;
                            out.push(g);
                            assert forall|j: int| 0 <= j < prefix.len() implies #[trigger] out@[j] == prefix[j] by {
                                assert(out@[j] == ob[j]);
                            }
                        }
                    }
                    d += 1;
                }
                b += 1;
            }
            a += 1;
        }
        o += 1;
    }
    proof {
        assert forall|i: int|
            0 <= i < s.arguments@.len() && i <= u32::MAX && (#[trigger] s.arguments@[i]) == s.return_type && straight_ok(
                *s,
                *c,
                seq![],
                i as u32,
            ) implies holds_straight(out@, Seq::<(Type, ExprM)>::empty(), i as u32) by {
            let w = choose|w: int|
                0 <= w < prefix.len() && (#[trigger] prefix[w]).cfg is None && genes_view(prefix[w]) == Seq::<(Type, ExprM)>::empty() && prefix[w].output == i as u32;
            assert(out@[w] == prefix[w]);
        }
        assert forall|q: int|
            0 <= q < c.constants@.len() && (spec_parse_literal((#[trigger] c.constants@[q])@) matches Some(v) && v.ty
                == s.return_type && straight_ok(*s, *c, seq![(v.ty, ExprM::Const { value: v })], s.arguments@.len() as u32))
                implies holds_straight(
                out@,
                seq![(spec_parse_literal(c.constants@[q]@)->0.ty, ExprM::Const { value: spec_parse_literal(c.constants@[q]@)->0 })],
                s.arguments@.len() as u32,
            ) by {
            let gv = seq![(spec_parse_literal(c.constants@[q]@)->0.ty, ExprM::Const { value: spec_parse_literal(c.constants@[q]@)->0 })];
            assert(holds_straight(prefix, gv, s.arguments@.len() as u32));
            let w = choose|w: int|
                0 <= w < prefix.len() && (#[trigger] prefix[w]).cfg is None && genes_view(prefix[w]) == gv && prefix[w].output == s.arguments@.len() as u32;
            assert(out@[w] == prefix[w]);
        }
    }
    out
}

/// A random straight-line genome of 1 to `max_instructions` genes that
/// returns a value of the return type, or a copy of `fallback` when no
/// value has that type.
pub fn random_genome(s: &Signature, c: &SearchConfig, rng: &mut Rng, fallback: &Genome) -> (r: Genome)
    requires
        c.max_instructions > 0,
        constants_ok(*c),
    ensures
        r.cfg is None || lowered(r, *s) == lowered(*fallback, *s),
        ({
            let types = s.arguments@ + r.genes@.map_values(|x: Gene| x.ty);
            &&& r.cfg is None
            &&& r.genes@.len() <= c.max_instructions
            &&& r.output < types.len()
            &&& types[r.output as int] == s.return_type
        }) || (r.output == fallback.output && r.genes@.map_values(|x: Gene| gene_view(x))
            == fallback.genes@.map_values(|x: Gene| gene_view(x)) && (r.cfg is Some <==> fallback.cfg is Some)),
{
    let constants = match parse_constants(c) {
        Ok(v) => v,
        Err(_) => return fallback.copy(),
    };
    let mut g = Genome { cfg: None, genes: Vec::new(), output: 0 };
    let count = 1 + rng.index(c.max_instructions);
    let mut i: usize = 0;
    while i < count
        invariant
            0 <= i <= count,
            count <= c.max_instructions,
            g.genes@.len() <= i,
            g.cfg is None,
        decreases count - i,
    {
        let types = g.types(s);
        if types.len() > u32::MAX as usize {
            break;
        }
        match random_gene(&types, c, &constants, rng) {
            Some(gene) => g.genes.push(gene),
            None => {},
        }
        i += 1;
    }
    let types = g.types(s);
    if types.len() > u32::MAX as usize {
        return fallback.copy();
    }
    let outputs = matching(&types, types.len(), s.return_type);
    if outputs.len() == 0 {
        fallback.copy()
    } else {
        g.output = outputs[rng.index(outputs.len())];
        g
    }
}

/// Shifts every reference at or after `at` by one, making room for a gene
/// inserted at identifier `at`.
pub fn remap_insert(g: &mut Genome, at: Id)
    ensures
        final(g).genes@.len() == old(g).genes@.len(),
        final(g).cfg == old(g).cfg,
        final(g).output == if old(g).output >= at { old(g).output.wrapping_add(1) } else { old(g).output },
{
    let mut i: usize = 0;
    while i < g.genes.len()
        invariant
            0 <= i <= g.genes@.len(),
            g.genes@.len() == old(g).genes@.len(),
            g.cfg == old(g).cfg,
            g.output == old(g).output,
        decreases g.genes@.len() - i,
    {
        let gene = g.genes[i].copy();
        if let Expr::Apply { op, args } = gene.expr {
            let mut moved: Vec<Id> = Vec::new();
            let mut k: usize = 0;
            while k < args.len()
                invariant
                    0 <= k <= args@.len(),
                decreases args@.len() - k,
            {
                let v = args[k];
                moved.push(
                    if v >= at {
                        v.wrapping_add(1)
                    } else {
                        v
                    },
                );
                k += 1;
            }
            g.genes.set(i, Gene { ty: gene.ty, expr: Expr::Apply { op, args: moved } });
        }
        i += 1;
    }
    if g.output >= at {
        g.output = g.output.wrapping_add(1);
    }
}

/// The first position before `limit` that holds `t`.
pub open spec fn first_of_type(types: Seq<Type>, limit: int, t: Type) -> int {
    choose|p: int| 0 <= p < limit && types[p] == t && forall|q: int| 0 <= q < p ==> types[q] != t
}

/// Some position before `limit` holds `t`.
pub open spec fn has_of_type(types: Seq<Type>, limit: int, t: Type) -> bool {
    exists|p: int| 0 <= p < limit && types[p] == t
}

/// A reference `v` after the value `id` is removed: `rep` in its place,
/// later ones one lower.
pub open spec fn shift_ref(v: Id, id: Id, rep: Id) -> Id {
    if v == id {
        rep
    } else if v > id {
        (v - 1) as Id
    } else {
        v
    }
}

/// An expression whose operator arguments are shifted by `shift_ref`.
pub open spec fn shift_expr(e: ExprM, id: Id, rep: Id) -> ExprM {
    match e {
        ExprM::Apply { op, args } => ExprM::Apply { op, args: args.map_values(|v: Id| shift_ref(v, id, rep)) },
        _ => e,
    }
}

/// The output, or an operator argument of a gene other than `index`,
/// refers to `id`.
pub open spec fn refers_to(g: Genome, index: int, id: Id) -> bool {
    ||| g.output == id
    ||| exists|j: int|
        0 <= j < g.genes@.len() && j != index && uses_value((#[trigger] g.genes@[j]).expr@, id)
}

/// `e` applies an operator to `id`.
pub open spec fn uses_value(e: ExprM, id: Id) -> bool {
    match e {
        ExprM::Apply { args, .. } => args.contains(id),
        _ => false,
    }
}

/// `args` with every reference shifted past the removed value `id`;
/// `None` when one refers to `id` and there is no replacement.
fn shift_args(args: &Vec<Id>, id: Id, replacement: Option<Id>, rep: Ghost<Id>) -> (r: Option<Vec<Id>>)
    requires
        replacement matches Some(x) ==> x == rep@,
    ensures
        r is None <==> replacement is None && args@.contains(id),
        r matches Some(m) ==> m@ == args@.map_values(|v: Id| shift_ref(v, id, rep@)),
{
    let mut moved: Vec<Id> = Vec::new();
    let mut k: usize = 0;
    while k < args.len()
        invariant
            0 <= k <= args@.len(),
            replacement matches Some(x) ==> x == rep@,
            moved@ == args@.subrange(0, k as int).map_values(|v: Id| shift_ref(v, id, rep@)),
            replacement is None ==> !args@.subrange(0, k as int).contains(id),
        decreases args@.len() - k,
    {
        let v = args[k];
        if v == id {
            match replacement {
                Some(x) => moved.push(x),
                None => {
                    assert(args@[k as int] == id);
                    return None;
                },
            }
        } else if v > id {
            moved.push(v - 1);
        } else {
            moved.push(v);
        }
        k += 1;
        proof {
            assert(moved@ =~= args@.subrange(0, k as int).map_values(|v: Id| shift_ref(v, id, rep@)));
            if replacement is None {
                assert forall|w: int| 0 <= w < k implies args@.subrange(0, k as int)[w] != id by {
                    if w < k - 1 {
                        assert(args@.subrange(0, k as int)[w] == args@.subrange(0, k - 1)[w]);
                    }
                }
            }
        }
    }
    assert(args@.subrange(0, args@.len() as int) =~= args@);
    Some(moved)
}

/// Removes gene `index` and repairs references to it with the first
/// earlier value of its type; `None` when the index is out of range or a
/// reference cannot be repaired.
pub fn delete(g: &Genome, s: &Signature, index: usize) -> (r: Option<Genome>)
    ensures
        ({
            let types = s.arguments@ + g.genes@.map_values(|x: Gene| x.ty);
            let id = (s.arguments@.len() + index) as Id;
            let t = g.genes@[index as int].ty;
            let rep = first_of_type(types, id as int, t) as Id;
            &&& r is None <==> index >= g.genes@.len() || s.arguments@.len() + g.genes@.len() > u32::MAX
                || (!has_of_type(types, id as int, t) && refers_to(*g, index as int, id))
            &&& r matches Some(d) ==> {
                &&& d.genes@.len() == g.genes@.len() - 1
                &&& (d.cfg is Some <==> g.cfg is Some)
                &&& (d.cfg matches Some(f) ==> f@ == g.cfg->0@)
                &&& d.output == shift_ref(g.output, id, rep)
                &&& forall|j: int|
                    0 <= j < d.genes@.len() ==> {
                        let from = if j < index { j } else { j + 1 };
                        &&& (#[trigger] d.genes@[j]).ty == g.genes@[from].ty
                        &&& d.genes@[j].expr@ == shift_expr(g.genes@[from].expr@, id, rep)
                    }
            }
        }),
{
    if index >= g.genes.len() {
        return None;
    }
    let nargs = s.arguments.len();
    let id = (nargs as u128 + index as u128) as u32;
    let ty = g.genes[index].ty;
    let types = g.types(s);
    if types.len() > u32::MAX as usize {
        return None;
    }
    assert(id == nargs + index);
    let ghost rep = first_of_type(types@, id as int, ty) as Id;
    let limit = if (id as usize) < types.len() {
        id as usize
    } else {
        types.len()
    };
    assert(limit == id);
    let candidates = matching(&types, limit, ty);
    let replacement: Option<Id> = if candidates.len() > 0 {
        Some(candidates[0])
    } else {
        None
    };
    proof {
        if candidates@.len() > 0 {
            let c0 = candidates@[0] as int;
            assert forall|q: int| 0 <= q < c0 implies types@[q] != ty by {
                if types@[q] == ty {
                    let w = choose|w: int| 0 <= w < candidates@.len() && candidates@[w] == q as u32;
                    if w > 0 {
                        assert(candidates@[0] < candidates@[w]);
                    }
                }
            }
            assert(has_of_type(types@, id as int, ty));
            let p = first_of_type(types@, id as int, ty);
            assert(0 <= p < id && types@[p] == ty && forall|q: int| 0 <= q < p ==> types@[q] != ty);
            assert(p == c0);
        } else {
            assert forall|p: int| 0 <= p < id implies types@[p] != ty by {
                if types@[p] == ty {
                    assert(candidates@.contains(p as u32));
                }
            }
        }
    }
    let mut genes: Vec<Gene> = Vec::new();
    let mut i: usize = 0;
    while i < g.genes.len()
        invariant
            0 <= i <= g.genes@.len(),
            index < g.genes@.len(),
            genes@.len() == if i <= index { i as int } else { i - 1 },
            replacement matches Some(x) ==> x == rep,
            replacement is None ==> !has_of_type(types@, id as int, ty),
            ty == g.genes@[index as int].ty,
            types@ == s.arguments@ + g.genes@.map_values(|x: Gene| x.ty),
            id == s.arguments@.len() + index,
            replacement is None ==> forall|j: int|
                0 <= j < i && j != index ==> !uses_value((#[trigger] g.genes@[j]).expr@, id),
            forall|j: int|
                0 <= j < genes@.len() ==> {
                    let from = if j < index { j } else { j + 1 };
                    &&& (#[trigger] genes@[j]).ty == g.genes@[from].ty
                    &&& genes@[j].expr@ == shift_expr(g.genes@[from].expr@, id, rep)
                },
        decreases g.genes@.len() - i,
    {
        if i != index {
            let gene = g.genes[i].copy();
            let ghost e = gene.expr@;
            let mapped = match gene.expr {
                Expr::Apply { op, args } => {
                    match shift_args(&args, id, replacement, Ghost(rep)) {
                        Some(moved) => Expr::Apply { op, args: moved },
                        None => {
                            assert(uses_value(g.genes@[i as int].expr@, id));
                            return None;
                        },
                    }
                },
                other => other,
            };
            assert(mapped@ == shift_expr(g.genes@[i as int].expr@, id, rep));
            genes.push(Gene { ty: gene.ty, expr: mapped });
        }
        i += 1;
    }
    let output = if g.output == id {
        match replacement {
            Some(x) => x,
            None => {
                return None;
            },
        }
    } else if g.output > id {
        g.output - 1
    } else {
        g.output
    };
    let cfg = match &g.cfg {
        Some(f) => Some(f.copy()),
        None => None,
    };
    Some(Genome { cfg, genes, output })
}


/// The types before `limit`.
fn prefix_types(types: &Vec<Type>, limit: usize) -> (r: Vec<Type>)
    ensures
        r@.len() <= types@.len(),
        r@ == types@.take(if limit < types@.len() { limit as int } else { types@.len() as int }),
{
    let mut out: Vec<Type> = Vec::new();
    let mut i: usize = 0;
    while i < limit && i < types.len()
        invariant
            0 <= i <= types@.len(),
            i <= limit,
            out@.len() == i,
            out@ == types@.take(i as int),
        decreases types@.len() - i,
    {
        out.push(types[i]);
        i += 1;
        assert(out@ =~= types@.take(i as int));
    }
    out
}

/// One attempt at a point mutation of a straight-line genome, in mode
/// `mode`: another output, another operator, another operand, another
/// constant, an inserted gene, a deleted gene or a replaced gene.
fn mutate_once(
    g: &mut Genome,
    s: &Signature,
    c: &SearchConfig,
    constants: &Vec<Value>,
    rng: &mut Rng,
    mode: usize,
) -> (ok: bool)
    ensures
        !ok ==> *final(g) == *old(g),
        ok && mode == 0 ==> final(g).genes@ == old(g).genes@ && final(g).cfg == old(g).cfg && ({
            let types = s.arguments@ + old(g).genes@.map_values(|x: Gene| x.ty);
            final(g).output < types.len() && types[final(g).output as int] == s.return_type
        }),
        ok && (mode == 1 || mode == 2 || mode == 3 || mode >= 6) ==> final(g).genes@.len()
            == old(g).genes@.len() && final(g).output == old(g).output && final(g).cfg == old(g).cfg,
        ok && mode == 4 ==> final(g).genes@.len() == old(g).genes@.len() + 1 && final(g).cfg == old(g).cfg,
        ok && mode == 5 ==> final(g).genes@.len() == old(g).genes@.len() - 1 && (final(g).cfg is Some
            <==> old(g).cfg is Some),
{
    let types = g.types(s);
    if types.len() > u32::MAX as usize {
        return false;
    }
    let nargs = s.arguments.len();
    let ngenes = g.genes.len();
    if mode == 0 {
        let ids = matching(&types, types.len(), s.return_type);
        if ids.len() == 0 {
            return false;
        }
        g.output = ids[rng.index(ids.len())];
        return true;
    }
    if mode == 1 {
        if ngenes == 0 || c.operators.len() == 0 {
            return false;
        }
        let i = rng.index(ngenes);
        let gene = g.genes[i].copy();
        if let Expr::Apply { args, .. } = gene.expr {
            let candidate = c.operators[rng.index(c.operators.len())];
            let mut ts: Vec<Type> = Vec::new();
            let mut k: usize = 0;
            while k < args.len()
                invariant
                    0 <= k <= args@.len(),
                    *g == *old(g),
                decreases args@.len() - k,
            {
                let a = args[k] as usize;
                if a >= types.len() {
                    return false;
                }
                ts.push(types[a]);
                k += 1;
            }
            return match candidate.result(&ts) {
                Ok(t) => {
                    if t == gene.ty {
                        g.genes.set(i, Gene { ty: gene.ty, expr: Expr::Apply { op: candidate, args } });
                        true
                    } else {
                        false
                    }
                },
                Err(_) => false,
            };
        }
        return false;
    }
    if mode == 2 {
        if ngenes == 0 {
            return false;
        }
        let i = rng.index(ngenes);
        let gene = g.genes[i].copy();
        if let Expr::Apply { op, args } = gene.expr {
            if args.len() == 0 {
                return false;
            }
            let j = rng.index(args.len());
            let a = args[j] as usize;
            if a >= types.len() {
                return false;
            }
            let limit = if nargs <= types.len() - i {
                nargs + i
            } else {
                types.len()
            };
            let ids = matching(&types, if limit <= types.len() { limit } else { types.len() }, types[a]);
            if ids.len() == 0 {
                return false;
            }
            let mut moved = args;
            moved.set(j, ids[rng.index(ids.len())]);
            g.genes.set(i, Gene { ty: gene.ty, expr: Expr::Apply { op, args: moved } });
            return true;
        }
        return false;
    }
    if mode == 3 {
        if ngenes == 0 {
            return false;
        }
        let i = rng.index(ngenes);
        let ty = g.genes[i].ty;
        if let Expr::Const { .. } = &g.genes[i].expr {
            let mut cs: Vec<Value> = Vec::new();
            let mut k: usize = 0;
            while k < constants.len()
                invariant
                    0 <= k <= constants@.len(),
                    *g == *old(g),
                decreases constants@.len() - k,
            {
                if constants[k].ty == ty {
                    cs.push(constants[k]);
                }
                k += 1;
            }
            if cs.len() == 0 {
                return false;
            }
            let v = cs[rng.index(cs.len())];
            g.genes.set(i, Gene { ty, expr: Expr::Const { value: v } });
            return true;
        }
        return false;
    }
    if mode == 4 {
        if ngenes >= c.max_instructions {
            return false;
        }
        let i = rng.index(ngenes + 1);
        let id = (nargs as u128 + i as u128) as u32;
        let prefix = prefix_types(&types, id as usize);
        match random_gene(&prefix, c, constants, rng) {
            Some(gene) => {
                let ty = gene.ty;
                remap_insert(g, id);
                g.genes.insert(i, gene);
                if ty == s.return_type && rng.index(2) == 0 {
                    g.output = id;
                }
                return true;
            },
            None => {
                return false;
            },
        }
    }
    if mode == 5 {
        if ngenes == 0 {
            return false;
        }
        let i = rng.index(ngenes);
        return match delete(g, s, i) {
            Some(n) => {
                *g = n;
                true
            },
            None => false,
        };
    }
    if ngenes == 0 {
        return false;
    }
    let i = rng.index(ngenes);
    let limit = if nargs <= types.len() - i {
        nargs + i
    } else {
        types.len()
    };
    let prefix = prefix_types(&types, limit);
    match random_gene(&prefix, c, constants, rng) {
        Some(gene) => {
            if gene.ty == g.genes[i].ty {
                g.genes.set(i, gene);
                true
            } else {
                false
            }
        },
        None => false,
    }
}

/// A mutation of a genome: a structural change of its block program
/// when the configuration allows blocks (always for a block program, one
/// time in four for a straight-line one), otherwise up to eight attempts
/// at a point change of the straight-line genes; the first valid result
/// is kept, and the parent is returned unchanged otherwise.
pub fn mutate(parent: &Genome, s: &Signature, c: &SearchConfig, rng: &mut Rng) -> (r: Genome)
    requires
        constants_ok(*c),
    ensures
        genome_ok(r, *s, *c) || lowered(r, *s) == lowered(*parent, *s),
        genome_ok(r, *s, *c) || crate::engine::genome_view(r) == crate::engine::genome_view(*parent),
{
    if c.max_blocks > 1 && (parent.cfg.is_some() || rng.index(4) == 0) {
        return crate::structural::mutate_cfg(parent, s, c, rng);
    }
    let constants = match parse_constants(c) {
        Ok(v) => v,
        Err(_) => return parent.copy(),
    };
    let mut attempt: usize = 0;
    while attempt < 8
        invariant
            0 <= attempt <= 8,
        decreases 8 - attempt,
    {
        let mut g = parent.copy();
        let mode = rng.index(7);
        let ok = mutate_once(&mut g, s, c, &constants, rng, mode);
        if ok && g.valid(s, c) {
            return g;
        }
        attempt += 1;
    }
    parent.copy()
}

/// Proposal number `cursor` of the exhaustive enumeration of two-step
/// chains `op2(op1(x, y), z)` over arguments and constants, in
/// mixed-radix order; `None` past the end or when the chain is not a
/// valid genome.
pub fn chain_proposal(s: &Signature, c: &SearchConfig, cursor: u64) -> (r: Option<Genome>)
    requires
        constants_ok(*c),
    ensures
        r matches Some(g) ==> genome_ok(g, *s, *c),
{
    let constants = match parse_constants(c) {
        Ok(v) => v,
        Err(_) => return None,
    };
    let nargs = s.arguments.len();
    let pool = (nargs as u128) + (constants.len() as u128);
    let ops = c.operators.len() as u128;
    if pool == 0 || ops == 0 || pool > 0xffff || ops > 0xffff {
        return None;
    }
    let mut rest = cursor as u128;
    let x = (rest % pool) as usize;
    rest = rest / pool;
    let y = (rest % pool) as usize;
    rest = rest / pool;
    let z = (rest % pool) as usize;
    rest = rest / pool;
    let o1 = (rest % ops) as usize;
    rest = rest / ops;
    let o2 = (rest % ops) as usize;
    rest = rest / ops;
    if rest != 0 {
        return None;
    }
    let n = nargs + constants.len();
    let mut g = Genome { cfg: None, genes: Vec::new(), output: 0 };
    let a = pick_operand(&mut g, nargs, &constants, x)?;
    let b = pick_operand(&mut g, nargs, &constants, y)?;
    let d = pick_operand(&mut g, nargs, &constants, z)?;
    let first = c.operators[o1];
    let second = c.operators[o2];
    let types = g.types(s);
    if (a as usize) >= types.len() || (b as usize) >= types.len() || (d as usize) >= types.len() {
        return None;
    }
    let t1 = match first.result(&vec![types[a as usize], types[b as usize]]) {
        Ok(t) => t,
        Err(_) => return None,
    };
    let inner = (nargs as u128 + g.genes.len() as u128) as u32;
    g.genes.push(Gene { ty: t1, expr: Expr::Apply { op: first, args: vec![a, b] } });
    let t2 = match second.result(&vec![t1, types[d as usize]]) {
        Ok(t) => t,
        Err(_) => return None,
    };
    g.output = (nargs as u128 + g.genes.len() as u128) as u32;
    g.genes.push(Gene { ty: t2, expr: Expr::Apply { op: second, args: vec![inner, d] } });
    if g.valid(s, c) {
        Some(g)
    } else {
        None
    }
}

} // verus!
