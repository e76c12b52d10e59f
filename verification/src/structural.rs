//! Mutations of the control flow of candidate programs: new branches and
//! bounded loops, swapped or collapsed branches, other return values and
//! changed instructions. Every result is normalized and checked before it
//! is kept.
use vstd::prelude::*;

use crate::engine::genome_view;
use crate::genome::{genome_ok, lowered, Genome};
use crate::validate::wf;
use crate::ir::{Block, BlockM, Edge, Expr, Function, Id, Instruction, Param, Terminator};
use crate::literal::spec_parse_literal;
use crate::rng::Rng;
use crate::search_config::{constants_ok, parse_constants, SearchConfig};
use crate::sig::Signature;
use crate::codegen::all_defs;
use crate::types::{spec_result, Op, Type, Value};

verus! {

/// The identifiers of the values of type `t`, in order.
pub open spec fn ids_of_type(vals: Seq<(Id, Type)>, t: Type) -> Seq<Id>
    decreases vals.len(),
{
    if vals.len() == 0 {
        seq![]
    } else if vals.last().1 == t {
        ids_of_type(vals.drop_last(), t).push(vals.last().0)
    } else {
        ids_of_type(vals.drop_last(), t)
    }
}

/// The type of the first value `id`, if any.
pub open spec fn first_type(vals: Seq<(Id, Type)>, id: Id) -> Option<Type>
    decreases vals.len(),
{
    if vals.len() == 0 {
        None
    } else if vals[0].0 == id {
        Some(vals[0].1)
    } else {
        first_type(vals.skip(1), id)
    }
}

/// The operators, in order, whose result on `types` is `want`.
pub open spec fn ops_giving(ops: Seq<Op>, types: Seq<Type>, want: Type) -> Seq<Op>
    decreases ops.len(),
{
    if ops.len() == 0 {
        seq![]
    } else if spec_result(ops.last(), types) == Some(want) {
        ops_giving(ops.drop_last(), types, want).push(ops.last())
    } else {
        ops_giving(ops.drop_last(), types, want)
    }
}


/// The values a function defines, with their types: parameters, then
/// each block's parameters and instructions.
pub fn values(f: &Function) -> (r: Vec<(Id, Type)>)
    ensures
        r@ == all_defs(f@),
{
    crate::codegen::definitions(f)
}

/// The values of type `t`.
fn of_type(vals: &Vec<(Id, Type)>, t: Type) -> (r: Vec<Id>)
    ensures
        r@ == ids_of_type(vals@, t),
{
    let mut out: Vec<Id> = Vec::new();
    let mut i: usize = 0;
    while i < vals.len()
        invariant
            0 <= i <= vals@.len(),
            out@ == ids_of_type(vals@.take(i as int), t),
        decreases vals@.len() - i,
    {
        assert(vals@.take(i + 1).drop_last() =~= vals@.take(i as int));
        if vals[i].1 == t {
            out.push(vals[i].0);
        }
        i += 1;
    }
    assert(vals@.take(i as int) =~= vals@);
    out
}

/// The type of value `id`.
fn type_of(vals: &Vec<(Id, Type)>, id: Id) -> (r: Option<Type>)
    ensures
        r == first_type(vals@, id),
{
    let mut i: usize = 0;
    assert(vals@.skip(0) =~= vals@);
    while i < vals.len()
        invariant
            0 <= i <= vals@.len(),
            first_type(vals@, id) == first_type(vals@.skip(i as int), id),
        decreases vals@.len() - i,
    {
        assert(vals@.skip(i as int)[0] == vals@[i as int]);
        assert(vals@.skip(i as int).skip(1) =~= vals@.skip(i + 1));
        if vals[i].0 == id {
            return Some(vals[i].1);
        }
        i += 1;
    }
    None
}

/// The operators whose result on `types` is `want`.
fn operators_giving(c: &SearchConfig, types: &Vec<Type>, want: Type) -> (r: Vec<Op>)
    ensures
        r@ == ops_giving(c.operators@, types@, want),
{
    let mut out: Vec<Op> = Vec::new();
    let mut i: usize = 0;
    while i < c.operators.len()
        invariant
            0 <= i <= c.operators@.len(),
            out@ == ops_giving(c.operators@.take(i as int), types@, want),
        decreases c.operators@.len() - i,
    {
        assert(c.operators@.take(i + 1).drop_last() =~= c.operators@.take(i as int));
        let o = c.operators[i];
        match o.result(types) {
            Ok(t) => {
                if t == want {
                    out.push(o);
                }
            },
            Err(_) => {},
        }
        i += 1;
    }
    assert(c.operators@.take(i as int) =~= c.operators@);
    out
}

/// Whether the configuration offers operator `o`.
fn offers(c: &SearchConfig, o: Op) -> (r: bool)
    ensures
        r == c.operators@.contains(o),
{
    let mut i: usize = 0;
    while i < c.operators.len()
        invariant
            0 <= i <= c.operators@.len(),
            forall|j: int| 0 <= j < i ==> c.operators@[j] != o,
        decreases c.operators@.len() - i,
    {
        if c.operators[i] == o {
            assert(c.operators@[i as int] == o);
            return true;
        }
        i += 1;
    }
    false
}

/// The position of the block with identifier `id`.
fn block_at(f: &Function, id: Id) -> (r: Option<usize>)
    ensures
        r matches Some(i) ==> i < f.blocks@.len() && f.blocks@[i as int].id == id && forall|j: int|
            0 <= j < i ==> (#[trigger] f.blocks@[j]).id != id,
        r is None ==> forall|j: int| 0 <= j < f.blocks@.len() ==> (#[trigger] f.blocks@[j]).id != id,
{
    let mut i: usize = 0;
    while i < f.blocks.len()
        invariant
            0 <= i <= f.blocks@.len(),
            forall|j: int| 0 <= j < i ==> (#[trigger] f.blocks@[j]).id != id,
        decreases f.blocks@.len() - i,
    {
        if f.blocks[i].id == id {
            return Some(i);
        }
        i += 1;
    }
    None
}

/// The blocks whose flag in `keep` is set, in order.
pub open spec fn masked(blocks: Seq<BlockM>, keep: Seq<bool>) -> Seq<BlockM>
    decreases blocks.len(),
{
    if blocks.len() == 0 {
        Seq::empty()
    } else {
        let rest = masked(blocks.drop_last(), keep.drop_last());
        if keep.last() {
            rest.push(blocks.last())
        } else {
            rest
        }
    }
}

/// Position `j` holds the first block with identifier `id`.
pub open spec fn first_block(blocks: Seq<BlockM>, id: Id, j: int) -> bool {
    &&& 0 <= j < blocks.len()
    &&& blocks[j].id == id
    &&& forall|q: int| 0 <= q < j ==> (#[trigger] blocks[q]).id != id
}

/// Removes the blocks that the entry cannot reach.
pub fn trim(f: &mut Function)
    ensures
        final(f)@.callees == old(f)@.callees,
        final(f).schema_version == old(f).schema_version,
        final(f).parameters@ == old(f).parameters@,
        final(f).return_type == old(f).return_type,
        final(f).entry == old(f).entry,
        exists|keep: Seq<bool>|
            keep.len() == old(f).blocks@.len() && final(f)@.blocks == masked(old(f)@.blocks, keep)
                && forall|j: int| first_block(old(f)@.blocks, old(f).entry, j) ==> #[trigger] keep[j],
{
    let n = f.blocks.len();
    let mut seen: Vec<bool> = Vec::new();
    let mut k: usize = 0;
    while k < n
        invariant
            0 <= k <= n,
            seen@.len() == k,
            forall|q: int| 0 <= q < k ==> !(#[trigger] seen@[q]),
        decreases n - k,
    {
        seen.push(false);
        k += 1;
    }
    let mut work: Vec<Id> = Vec::new();
    work.push(f.entry);
    let mut marked: usize = 0;
    while work.len() > 0
        invariant
            n == f.blocks@.len(),
            f == old(f),
            seen@.len() == n,
            marked <= n,
            marked == 0 ==> forall|q: int| 0 <= q < n ==> !(#[trigger] seen@[q]),
            marked == 0 ==> work@ == seq![f.entry] || forall|j: int| !first_block(f@.blocks, f.entry, j),
            marked > 0 ==> forall|j: int| first_block(f@.blocks, f.entry, j) ==> #[trigger] seen@[j],
        ensures
            marked > 0 || forall|j: int| !first_block(f@.blocks, f.entry, j),
        decreases n - marked, work@.len(),
    {
        let id = match work.pop() {
            Some(x) => x,
            None => break,
        };
        let at = match block_at(f, id) {
            Some(i) => i,
            None => {
                proof {
                    if marked == 0 {
                        assert forall|j: int| !first_block(f@.blocks, f.entry, j) by {
                            if first_block(f@.blocks, f.entry, j) {
                                assert(f.blocks@[j].id == f@.blocks[j].id);
                            }
                        }
                    }
                }
                continue;
            },
        };
        if seen[at] {
            continue;
        }
        if marked >= n {
            break;
        }
        seen.set(at, true);
        proof {
            if marked == 0 {
                assert forall|j: int| first_block(f@.blocks, f.entry, j) implies #[trigger] seen@[j] by {
                    assert(f@.blocks[j].id == f.blocks@[j].id);
                    if j < at {
                        assert(f@.blocks[j].id == f.entry);
                    } else if j > at {
                        assert(f@.blocks[at as int].id == f.blocks@[at as int].id);
                    }
                }
            }
        }
        marked += 1;
        let edges = f.blocks[at].terminator.edges();
        let mut e: usize = 0;
        while e < edges.len()
            invariant
                0 <= e <= edges@.len(),
                marked > 0,
            decreases edges@.len() - e,
        {
            work.push(edges[e].block);
            e += 1;
        }
    }
    let ghost keep = seen@;
    assert(forall|j: int| first_block(old(f)@.blocks, old(f).entry, j) ==> #[trigger] keep[j]);
    let mut kept: Vec<Block> = Vec::new();
    let mut b: usize = 0;
    while b < n
        invariant
            0 <= b <= n,
            n == f.blocks@.len(),
            f == old(f),
            seen@.len() == n,
            kept@.map_values(|x: Block| x@) == masked(f@.blocks.take(b as int), seen@.take(b as int)),
        decreases n - b,
    {
        proof {
            assert(f@.blocks.take(b + 1).drop_last() =~= f@.blocks.take(b as int));
            assert(seen@.take(b + 1).drop_last() =~= seen@.take(b as int));
        }
        if seen[b] {
            kept.push(f.blocks[b].copy());
            proof {
                assert(kept@.map_values(|x: Block| x@) =~= masked(f@.blocks.take(b + 1), seen@.take(b + 1)));
            }
        }
        b += 1;
    }
    proof {
        assert(f@.blocks.take(n as int) =~= f@.blocks);
        assert(seen@.take(n as int) =~= seen@);
    }
    f.blocks = kept;
    proof {
        assert(f@.blocks =~= masked(old(f)@.blocks, keep));
        assert(keep.len() == old(f).blocks@.len() && f@.blocks == masked(old(f)@.blocks, keep)
            && forall|j: int| first_block(old(f)@.blocks, old(f).entry, j) ==> #[trigger] keep[j]);
    }
}

/// One step of `mutate_cfg` on the normalized function `f`; whether it
/// changed anything.
#[verifier::rlimit(60)]
fn mutate_step(
    f: &mut Function,
    s: &Signature,
    c: &SearchConfig,
    constants: &Vec<Value>,
    rng: &mut Rng,
) -> (changed: bool)
    requires
        old(f).blocks@.len() > 0,
    ensures
        !changed ==> *final(f) == *old(f),
        final(f).entry == old(f).entry,
        final(f).parameters@ == old(f).parameters@,
        final(f).return_type == old(f).return_type,
        final(f).schema_version == old(f).schema_version,
        final(f)@.callees == old(f)@.callees,
{
    let vals = values(f);
    if vals.len() == 0 {
        return false;
    }
    let mut next: u32 = 0;
    let mut i: usize = 0;
    while i < vals.len()
        invariant
            0 <= i <= vals@.len(),
            *f == *old(f),
        decreases vals@.len() - i,
    {
        if vals[i].0 >= next {
            if vals[i].0 == u32::MAX {
                return false;
            }
            next = vals[i].0 + 1;
        }
        i += 1;
    }
    if next > u32::MAX - 16 {
        return false;
    }
    let nblocks = f.blocks.len();
    if nblocks > (u32::MAX - 8) as usize {
        return false;
    }
    let which = rng.index(nblocks);
    let mode = rng.index(6);
    if mode == 0 {
        if nblocks + 2 > c.max_blocks {
            return false;
        }
        let value = match &f.blocks[which].terminator {
            Terminator::Return { value } => *value,
            _ => return false,
        };
        let (a, ty) = vals[rng.index(vals.len())];
        let same = of_type(&vals, ty);
        if same.len() == 0 {
            return false;
        }
        let b = same[rng.index(same.len())];
        let operand_types = vec![ty, ty];
        let ops = operators_giving(c, &operand_types, Type::Bool);
        let alternatives = of_type(&vals, s.return_type);
        if ops.len() == 0 || alternatives.len() == 0 {
            return false;
        }
        let op = ops[rng.index(ops.len())];
        let other = alternatives[rng.index(alternatives.len())];
        let yes = nblocks as u32;
        let no = yes + 1;
        f.blocks[which].instructions.push(
            Instruction { id: next, ty: Type::Bool, expr: Expr::Apply { op, args: vec![a, b] } },
        );
        f.blocks[which].terminator = Terminator::Branch {
            condition: next,
            if_true: Edge { block: yes, args: Vec::new() },
            if_false: Edge { block: no, args: Vec::new() },
        };
        f.blocks.push(
            Block {
                id: yes,
                parameters: Vec::new(),
                instructions: Vec::new(),
                terminator: Terminator::Return { value },
            },
        );
        f.blocks.push(
            Block {
                id: no,
                parameters: Vec::new(),
                instructions: Vec::new(),
                terminator: Terminator::Return { value: other },
            },
        );
        return true;
    }
    if mode == 1 {
        if !(c.loop_bound > 0 && nblocks + 4 <= c.max_blocks && offers(c, Op::Add) && offers(
            c,
            Op::Ult,
        )) {
            return false;
        }
        let mut counters: Vec<Param> = Vec::new();
        let mut p: usize = 0;
        while p < f.parameters.len()
            invariant
                0 <= p <= f.parameters@.len(),
                *f == *old(f),
            decreases f.parameters@.len() - p,
        {
            let q = f.parameters[p];
            if !q.ty.signed() && q.ty.integer() {
                counters.push(q);
            }
            p += 1;
        }
        let ret_types = vec![s.return_type, s.return_type];
        let operations = operators_giving(c, &ret_types, s.return_type);
        let operands = of_type(&vals, s.return_type);
        let value = match &f.blocks[which].terminator {
            Terminator::Return { value } => *value,
            _ => return false,
        };
        if counters.len() == 0 || operations.len() == 0 || operands.len() == 0 {
            return false;
        }
        let counter = counters[rng.index(counters.len())];
        let ty = counter.ty;
        let count_parameter = counter.id;
        let op = operations[rng.index(operations.len())];
        let operand = operands[rng.index(operands.len())];
        let header = nblocks as u32;
        let cap = header + 1;
        let body = header + 2;
        let exit = header + 3;
        f.blocks[which].instructions.push(
            Instruction { id: next, ty, expr: Expr::Const { value: Value::new(ty, 0) } },
        );
        f.blocks[which].instructions.push(
            Instruction { id: next + 1, ty, expr: Expr::Const { value: Value::new(ty, 1) } },
        );
        f.blocks[which].instructions.push(
            Instruction { id: next + 2, ty, expr: Expr::Const { value: Value::new(ty, c.loop_bound) } },
        );
        f.blocks[which].terminator = Terminator::Jump {
            edge: Edge { block: header, args: vec![next, value] },
        };
        f.blocks.push(
            Block {
                id: header,
                parameters: vec![Param { id: next + 3, ty }, Param { id: next + 4, ty: s.return_type }],
                instructions: vec![
                    Instruction {
                        id: next + 5,
                        ty: Type::Bool,
                        expr: Expr::Apply { op: Op::Ult, args: vec![next + 3, count_parameter] },
                    },
                ],
                terminator: Terminator::Branch {
                    condition: next + 5,
                    if_true: Edge { block: cap, args: Vec::new() },
                    if_false: Edge { block: exit, args: vec![next + 4] },
                },
            },
        );
        f.blocks.push(
            Block {
                id: cap,
                parameters: Vec::new(),
                instructions: vec![
                    Instruction {
                        id: next + 6,
                        ty: Type::Bool,
                        expr: Expr::Apply { op: Op::Ult, args: vec![next + 3, next + 2] },
                    },
                ],
                terminator: Terminator::Branch {
                    condition: next + 6,
                    if_true: Edge { block: body, args: Vec::new() },
                    if_false: Edge { block: exit, args: vec![next + 4] },
                },
            },
        );
        f.blocks.push(
            Block {
                id: body,
                parameters: Vec::new(),
                instructions: vec![
                    Instruction {
                        id: next + 7,
                        ty,
                        expr: Expr::Apply { op: Op::Add, args: vec![next + 3, next + 1] },
                    },
                    Instruction {
                        id: next + 8,
                        ty: s.return_type,
                        expr: Expr::Apply { op, args: vec![next + 4, operand] },
                    },
                ],
                terminator: Terminator::Jump {
                    edge: Edge { block: header, args: vec![next + 7, next + 8] },
                },
            },
        );
        f.blocks.push(
            Block {
                id: exit,
                parameters: vec![Param { id: next + 9, ty: s.return_type }],
                instructions: Vec::new(),
                terminator: Terminator::Return { value: next + 9 },
            },
        );
        return true;
    }
    if mode == 2 {
        let swapped = match &f.blocks[which].terminator {
            Terminator::Branch { condition, if_true, if_false } => Some(
                Terminator::Branch { condition: *condition, if_true: if_false.copy(), if_false: if_true.copy() },
            ),
            _ => None,
        };
        return match swapped {
            Some(t) => {
                f.blocks[which].terminator = t;
                true
            },
            None => false,
        };
    }
    if mode == 3 {
        let jump = match &f.blocks[which].terminator {
            Terminator::Branch { if_true, if_false, .. } => Some(
                if rng.index(2) == 0 {
                    if_true.copy()
                } else {
                    if_false.copy()
                },
            ),
            _ => None,
        };
        return match jump {
            Some(edge) => {
                f.blocks[which].terminator = Terminator::Jump { edge };
                trim(f);
                true
            },
            None => false,
        };
    }
    if mode == 4 {
        let options = of_type(&vals, s.return_type);
        let ends_in_return = matches!(f.blocks[which].terminator, Terminator::Return { .. });
        if ends_in_return && options.len() > 0 {
            let v = options[rng.index(options.len())];
            f.blocks[which].terminator = Terminator::Return { value: v };
            return true;
        }
        return false;
    }
    let count = f.blocks[which].instructions.len();
    if count == 0 {
        return false;
    }
    let index = rng.index(count);
    let x = f.blocks[which].instructions[index].copy();
    match x.expr {
        Expr::Call { .. } => false,
        Expr::Const { .. } => {
            let mut options: Vec<Value> = Vec::new();
            let mut k: usize = 0;
            while k < constants.len()
                invariant
                    0 <= k <= constants@.len(),
                    *f == *old(f),
                decreases constants@.len() - k,
            {
                if constants[k].ty == x.ty {
                    options.push(constants[k]);
                }
                k += 1;
            }
            if options.len() == 0 {
                return false;
            }
            let value = options[rng.index(options.len())];
            f.blocks[which].instructions.set(
                index,
                Instruction { id: x.id, ty: x.ty, expr: Expr::Const { value } },
            );
            true
        },
        Expr::Apply { op, args } => {
            if rng.index(2) == 0 {
                let mut ts: Vec<Type> = Vec::new();
                let mut k: usize = 0;
                while k < args.len()
                    invariant
                        0 <= k <= args@.len(),
                        *f == *old(f),
                    decreases args@.len() - k,
                {
                    match type_of(&vals, args[k]) {
                        Some(t) => ts.push(t),
                        None => {
                            return false;
                        },
                    }
                    k += 1;
                }
                let ops = operators_giving(c, &ts, x.ty);
                if ops.len() == 0 {
                    return false;
                }
                let chosen = ops[rng.index(ops.len())];
                f.blocks[which].instructions.set(
                    index,
                    Instruction { id: x.id, ty: x.ty, expr: Expr::Apply { op: chosen, args } },
                );
                true
            } else {
                if args.len() == 0 {
                    return false;
                }
                let k = rng.index(args.len());
                let ty = match type_of(&vals, args[k]) {
                    Some(t) => t,
                    None => {
                        return false;
                    },
                };
                let options = of_type(&vals, ty);
                if options.len() == 0 {
                    return false;
                }
                let mut moved = args;
                moved.set(k, options[rng.index(options.len())]);
                f.blocks[which].instructions.set(
                    index,
                    Instruction { id: x.id, ty: x.ty, expr: Expr::Apply { op, args: moved } },
                );
                true
            }
        },
    }
}

/// A structural mutation of a genome: up to eight attempts at one change
/// of its normalized block program; the first that gives a valid genome
/// is kept, and the parent is returned unchanged otherwise.
pub fn mutate_cfg(parent: &Genome, s: &Signature, c: &SearchConfig, rng: &mut Rng) -> (r: Genome)
    requires
        constants_ok(*c),
    ensures
        genome_ok(r, *s, *c) || lowered(r, *s) == lowered(*parent, *s),
        genome_view(r) == genome_view(*parent) || (r.cfg is Some && r.genes@.len() == 0 && r.output == 0 && genome_ok(
            r,
            *s,
            *c,
        )),
        !wf(lowered(*parent, *s)) ==> genome_view(r) == genome_view(*parent) && *final(rng) == *old(rng),
{
    let constants = match parse_constants(c) {
        Ok(v) => v,
        Err(_) => return parent.copy(),
    };
    let mut attempt: usize = 0;
    while attempt < 8
        invariant
            0 <= attempt <= 8,
            !wf(lowered(*parent, *s)) ==> *rng == *old(rng),
        decreases 8 - attempt,
    {
        let mut f = match parent.lower(s).normalized() {
            Ok(f) => f,
            Err(_) => return parent.copy(),
        };
        if f.blocks.len() == 0 {
            return parent.copy();
        }
        if mutate_step(&mut f, s, c, &constants, rng) {
            match f.normalized() {
                Ok(g) => {
                    let candidate = Genome { cfg: Some(g), genes: Vec::new(), output: 0 };
                    if candidate.valid(s, c) {
                        return candidate;
                    }
                },
                Err(_) => {},
            }
        }
        attempt += 1;
    }
    parent.copy()
}

} // verus!
