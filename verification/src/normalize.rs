//! Canonical renumbering of validated functions: blocks in breadth-first
//! order from the entry, values numbered densely in definition order.
use std::collections::BTreeMap;
use vstd::prelude::*;

use crate::eval::{
    block_dense, block_values, dense, edge_dense, ids_below, inst_dense, params_below, reg_count,
    term_dense,
};
use crate::ir::{
    copy_callees, Block, BlockM, Edge, Expr, ExprM, Function, FunctionM, Id, Instruction, InstructionM, Param,
    Terminator, TerminatorM, EdgeM,
};
use crate::text::err;
use crate::validate::{
    block_ids_unique, block_index, closed, entry_index, fn_targets, has_block, lemma_block_index, lemma_closed_walk, reaches,
    shape_ok, site_count, site_id, site_valid, walk, wf, def_site, use_ok, uses_ok, types_of, edge_typed, block_typed,
    inst_typed, first_callee, SCHEMA_VERSION,
};
use crate::sig::sig_valid;

verus! {

/// No instruction of the function is a call.
pub open spec fn call_free(f: FunctionM) -> bool {
    forall|b: int, i: int|
        0 <= b < f.blocks.len() && 0 <= i < f.blocks[b].instructions.len() ==> !(
        #[trigger] f.blocks[b].instructions[i]).expr.is_call()
}

impl ExprM {
    pub open spec fn is_call(self) -> bool {
        self is Call
    }
}

/// The facts established by normalization.
pub open spec fn normal_form(f: FunctionM, g: FunctionM) -> bool {
    &&& dense(g, true)
    &&& (call_free(f) ==> dense(g, false))
    &&& g.entry == 0
    &&& g.schema_version == SCHEMA_VERSION
    &&& g.parameters.map_values(|p: Param| p.ty) == f.parameters.map_values(|p: Param| p.ty)
    &&& g.return_type == f.return_type
    &&& g.callees == f.callees
    &&& forall|i: int| 0 <= i < g.blocks.len() ==> (#[trigger] g.blocks[i]).id == i
}

/// The identifiers of parameters.
pub open spec fn param_ids(ps: Seq<Param>) -> Seq<Id> {
    ps.map_values(|p: Param| p.id)
}

/// Every identifier has a new number.
pub open spec fn all_mapped(vm: Map<u32, u32>, ids: Seq<Id>) -> bool {
    forall|i: int| 0 <= i < ids.len() ==> vm.contains_key(#[trigger] ids[i])
}

/// The identifiers renumbered.
pub open spec fn mapped(vm: Map<u32, u32>, ids: Seq<Id>) -> Seq<Id> {
    ids.map_values(|i: Id| vm[i])
}

/// An instruction with its value and its operands renumbered.
pub open spec fn mapped_instruction(vm: Map<u32, u32>, x: InstructionM) -> InstructionM {
    InstructionM {
        id: vm[x.id],
        ty: x.ty,
        expr: match x.expr {
            ExprM::Call { function, args } => ExprM::Call { function, args: mapped(vm, args) },
            ExprM::Const { value } => ExprM::Const { value },
            ExprM::Apply { op, args } => ExprM::Apply { op, args: mapped(vm, args) },
        },
    }
}

/// The new identifier of a value.
fn map_id(vm: &BTreeMap<u32, u32>, id: Id, bound: u32) -> (r: Result<Id, String>)
    requires
        forall|k: u32| #[trigger] vm@.contains_key(k) ==> vm@[k] < bound,
    ensures
        r matches Ok(x) ==> x < bound,
        r is Ok <==> vm@.contains_key(id),
        r matches Ok(x) ==> x == vm@[id],
{
    match vm.get(&id) {
        Some(x) => Ok(*x),
        None => err("unmapped value"),
    }
}

/// The new identifiers of values.
fn map_ids(vm: &BTreeMap<u32, u32>, ids: &[Id], bound: u32) -> (r: Result<Vec<Id>, String>)
    requires
        forall|k: u32| #[trigger] vm@.contains_key(k) ==> vm@[k] < bound,
    ensures
        r matches Ok(v) ==> v@.len() == ids@.len() && ids_below(v@, bound as nat),
        r is Ok <==> all_mapped(vm@, ids@),
        r matches Ok(v) ==> v@ == mapped(vm@, ids@),
{
    let mut out: Vec<Id> = Vec::new();
    let mut k: usize = 0;
    while k < ids.len()
        invariant
            0 <= k <= ids@.len(),
            out@.len() == k,
            ids_below(out@, bound as nat),
            out@ == mapped(vm@, ids@.take(k as int)),
            all_mapped(vm@, ids@.take(k as int)),
            forall|k: u32| #[trigger] vm@.contains_key(k) ==> vm@[k] < bound,
        decreases ids@.len() - k,
    {
        proof {
            if !vm@.contains_key(ids@[k as int]) {
                assert(!all_mapped(vm@, ids@));
            }
        }
        let x = map_id(vm, ids[k], bound)?;
        out.push(x);
        k += 1;
        assert(ids@.take(k as int).drop_last() =~= ids@.take(k - 1));
        assert(out@ =~= mapped(vm@, ids@.take(k as int)));
    }
    assert(ids@.take(k as int) =~= ids@);
    Ok(out)
}

/// The renumbered parameters.
fn map_params(vm: &BTreeMap<u32, u32>, ps: &[Param], bound: u32) -> (r: Result<Vec<Param>, String>)
    requires
        forall|k: u32| #[trigger] vm@.contains_key(k) ==> vm@[k] < bound,
    ensures
        r matches Ok(v) ==> v@.len() == ps@.len() && params_below(v@, bound as nat) && v@.map_values(
            |p: Param| p.ty,
        ) == ps@.map_values(|p: Param| p.ty),
        r is Ok <==> all_mapped(vm@, param_ids(ps@)),
        r matches Ok(v) ==> forall|j: int|
            0 <= j < v@.len() ==> (#[trigger] v@[j]).id == vm@[ps@[j].id],
{
    let mut out: Vec<Param> = Vec::new();
    let mut k: usize = 0;
    while k < ps.len()
        invariant
            0 <= k <= ps@.len(),
            out@.len() == k,
            params_below(out@, bound as nat),
            forall|j: int| 0 <= j < k ==> (#[trigger] out@[j]).ty == ps@[j].ty,
            forall|j: int| 0 <= j < k ==> (#[trigger] out@[j]).id == vm@[ps@[j].id],
            forall|j: int| 0 <= j < k ==> vm@.contains_key(#[trigger] ps@[j].id),
            forall|k: u32| #[trigger] vm@.contains_key(k) ==> vm@[k] < bound,
        decreases ps@.len() - k,
    {
        proof {
            if !vm@.contains_key(ps@[k as int].id) {
                assert(param_ids(ps@)[k as int] == ps@[k as int].id);
            }
        }
        let x = map_id(vm, ps[k].id, bound)?;
        out.push(Param { id: x, ty: ps[k].ty });
        k += 1;
    }
    assert(out@.map_values(|p: Param| p.ty) =~= ps@.map_values(|p: Param| p.ty));
    assert forall|i: int| 0 <= i < param_ids(ps@).len() implies vm@.contains_key(
        #[trigger] param_ids(ps@)[i],
    ) by {
        assert(param_ids(ps@)[i] == ps@[i].id);
    }
    Ok(out)
}

/// The renumbered edge; its target must have been placed.
fn map_edge(
    vm: &BTreeMap<u32, u32>,
    index: &BTreeMap<u32, usize>,
    newpos: &Vec<usize>,
    counts: &Vec<usize>,
    e: &Edge,
    bound: u32,
) -> (r: Result<Edge, String>)
    requires
        forall|k: u32| #[trigger] vm@.contains_key(k) ==> vm@[k] < bound,
        counts@.len() <= u32::MAX,
    ensures
        r matches Ok(x) ==> x.block < counts@.len() && x.args@.len() == counts@[x.block as int]
            && ids_below(x.args@, bound as nat),
        r is Ok <==> index@.contains_key(e.block) && index@[e.block] < newpos@.len() && newpos@[index@[e.block] as int]
            < counts@.len() && e.args@.len() == counts@[newpos@[index@[e.block] as int] as int] && all_mapped(
            vm@,
            e.args@,
        ),
        r matches Ok(x) ==> x.block == newpos@[index@[e.block] as int] && x.args@ == mapped(vm@, e.args@),
{
    let old = match index.get(&e.block) {
        Some(i) => *i,
        None => return err("missing block"),
    };
    if old >= newpos.len() {
        return err("missing block");
    }
    let t = newpos[old];
    if t >= counts.len() {
        return err("unreachable block");
    }
    if e.args.len() != counts[t] {
        return err("edge argument count mismatch");
    }
    let args = map_ids(vm, &e.args, bound)?;
    Ok(Edge { block: t as u32, args })
}

/// The renumbered instruction.
fn map_instruction(vm: &BTreeMap<u32, u32>, x: &Instruction, bound: u32) -> (r: Result<
    Instruction,
    String,
>)
    requires
        forall|k: u32| #[trigger] vm@.contains_key(k) ==> vm@[k] < bound,
    ensures
        r matches Ok(y) ==> inst_dense(y@, bound as nat, true) && (!x@.expr.is_call() ==> inst_dense(
            y@,
            bound as nat,
            false,
        )) && y.ty == x.ty,
        r is Ok <==> vm@.contains_key(x.id) && match x@.expr {
            ExprM::Call { args, .. } => args.len() <= 4 && all_mapped(vm@, args),
            ExprM::Const { .. } => true,
            ExprM::Apply { op, args } => args.len() == op.spec_arity() && all_mapped(vm@, args),
        },
        r matches Ok(y) ==> y@ == mapped_instruction(vm@, x@),
{
    let id = map_id(vm, x.id, bound)?;
    let expr = match &x.expr {
        Expr::Call { function, args } => {
            if args.len() > 4 {
                return err("call has too many arguments");
            }
            Expr::Call { function: function.clone(), args: map_ids(vm, args, bound)? }
        },
        Expr::Const { value } => Expr::Const { value: *value },
        Expr::Apply { op, args } => {
            if args.len() != op.arity() {
                return err("wrong operand count");
            }
            Expr::Apply { op: *op, args: map_ids(vm, args, bound)? }
        },
    };
    Ok(Instruction { id, ty: x.ty, expr })
}

/// Number of values defined by the blocks at positions `order`.
pub open spec fn order_values(bs: Seq<BlockM>, order: Seq<usize>) -> nat
    decreases order.len(),
{
    if order.len() == 0 {
        0
    } else {
        order_values(bs, order.drop_last()) + bs[order.last() as int].parameters.len()
            + bs[order.last() as int].instructions.len()
    }
}

/// The values of a prefix of the order are at most those of the whole.
pub proof fn lemma_order_values_prefix(bs: Seq<BlockM>, order: Seq<usize>, k: int)
    requires
        0 <= k <= order.len(),
    ensures
        order_values(bs, order.subrange(0, k)) <= order_values(bs, order),
    decreases order.len(),
{
    if k < order.len() {
        lemma_order_values_prefix(bs, order.drop_last(), k);
        assert(order.drop_last().subrange(0, k) =~= order.subrange(0, k));
    } else {
        assert(order.subrange(0, k) =~= order);
    }
}

/// Position of the first block with each identifier.
fn block_positions(f: &Function) -> (r: BTreeMap<u32, usize>)
    ensures
        forall|id: u32| #[trigger] r@.contains_key(id) ==> r@[id] < f.blocks@.len() && f@.blocks[r@[id] as int].id == id,
        forall|j: int| 0 <= j < f.blocks@.len() ==> #[trigger] r@.contains_key(f@.blocks[j].id),
{
    let n = f.blocks.len();
    let mut index: BTreeMap<u32, usize> = BTreeMap::new();
    let mut k: usize = 0;
    while k < n
        invariant
            0 <= k <= n,
            n == f.blocks@.len(),
            forall|id: u32| #[trigger] index@.contains_key(id) ==> index@[id] < n && f@.blocks[index@[id] as int].id == id,
            forall|j: int| 0 <= j < k ==> #[trigger] index@.contains_key(f@.blocks[j].id),
        decreases n - k,
    {
        assert(f.blocks@[k as int]@ == f@.blocks[k as int]);
        if !index.contains_key(&f.blocks[k].id) {
            index.insert(f.blocks[k].id, k);
        }
        k += 1;
    }
    index
}

/// The number of unset flags.
pub open spec fn unset_count(s: Seq<bool>) -> nat
    decreases s.len(),
{
    if s.len() == 0 {
        0
    } else {
        unset_count(s.drop_last()) + if s.last() { 0nat } else { 1nat }
    }
}

/// Setting an unset flag leaves one fewer unset.
pub proof fn lemma_unset_count_set(s: Seq<bool>, b: int)
    requires
        0 <= b < s.len(),
        !s[b],
    ensures
        unset_count(s) >= 1,
        unset_count(s.update(b, true)) + 1 == unset_count(s),
    decreases s.len(),
{
    let u = s.update(b, true);
    if b == s.len() - 1 {
        assert(u.drop_last() =~= s.drop_last());
    } else {
        lemma_unset_count_set(s.drop_last(), b);
        assert(u.drop_last() =~= s.drop_last().update(b, true));
    }
}

/// Every edge of every block names a block of `index`.
pub open spec fn edges_indexed(f: FunctionM, index: Map<u32, usize>) -> bool {
    forall|b: int, k: int|
        0 <= b < f.blocks.len() && 0 <= k < f.blocks[b].terminator.edges().len() ==> index.contains_key(
            (#[trigger] f.blocks[b].terminator.edges()[k]).block,
        )
}

/// Positions of the blocks in breadth-first order from `entry`.
fn bfs_order(f: &Function, index: &BTreeMap<u32, usize>, entry: usize) -> (r: Result<Vec<usize>, String>)
    requires
        entry < f.blocks@.len(),
        forall|id: u32| #[trigger] index@.contains_key(id) ==> index@[id] < f.blocks@.len(),
    ensures
        r matches Ok(order) ==> 0 < order@.len() <= f.blocks@.len() && forall|j: int|
            0 <= j < order@.len() ==> (#[trigger] order@[j]) < f.blocks@.len(),
        r matches Ok(order) ==> order@[0] == entry && order@.no_duplicates(),
        r matches Ok(order) ==> forall|j: int, k: int|
            0 <= j < order@.len() && 0 <= k < f@.blocks[order@[j] as int].terminator.edges().len() ==> index@.contains_key(
                (#[trigger] f@.blocks[order@[j] as int].terminator.edges()[k]).block,
            ) && order@.contains(index@[f@.blocks[order@[j] as int].terminator.edges()[k].block]),
        edges_indexed(f@, index@) ==> r is Ok,
{
    let n = f.blocks.len();
    let mut seen: Vec<bool> = Vec::new();
    let mut k: usize = 0;
    while k < n
        invariant
            0 <= k <= n,
            seen@.len() == k,
            unset_count(seen@) == k,
            forall|q: int| 0 <= q < k ==> !(#[trigger] seen@[q]),
        decreases n - k,
    {
        let ghost prev = seen@;
        seen.push(false);
        k += 1;
        assert(seen@.drop_last() =~= prev);
    }
    let mut order: Vec<usize> = Vec::new();
    let mut queue: Vec<usize> = vec![entry];
    let mut head: usize = 0;
    while head < queue.len()
        invariant
            0 <= head <= queue@.len(),
            n == f.blocks@.len(),
            seen@.len() == n,
            order@.len() <= n,
            queue@.len() <= 1 + 2 * order@.len(),
            forall|j: int| 0 <= j < queue@.len() ==> (#[trigger] queue@[j]) < n,
            forall|j: int| 0 <= j < order@.len() ==> (#[trigger] order@[j]) < n,
            forall|id: u32| #[trigger] index@.contains_key(id) ==> index@[id] < n,
            order@.len() + unset_count(seen@) == n,
            forall|j: int| 0 <= j < order@.len() ==> #[trigger] seen@[order@[j] as int],
            forall|q: int| 0 <= q < n && !(#[trigger] seen@[q]) ==> !order@.contains(q as usize),
            order@.no_duplicates(),
            head > 0 ==> order@.len() > 0,
            order@.len() == 0 ==> forall|q: int| 0 <= q < n ==> !(#[trigger] seen@[q]),
            order@.len() > 0 ==> order@[0] == entry,
            head == 0 ==> queue@ == seq![entry] && order@.len() == 0,
            forall|j: int| 0 <= j < head ==> #[trigger] seen@[queue@[j] as int],
            forall|q: int| 0 <= q < n && #[trigger] seen@[q] ==> order@.contains(q as usize),
            forall|j: int, k: int|
                0 <= j < order@.len() && 0 <= k < f@.blocks[order@[j] as int].terminator.edges().len() ==> index@.contains_key(
                    (#[trigger] f@.blocks[order@[j] as int].terminator.edges()[k]).block,
                ) && queue@.contains(index@[f@.blocks[order@[j] as int].terminator.edges()[k].block]),
        decreases 1 + 2 * n - head,
    {
        let b = queue[head];
        head += 1;
        if seen[b] {
            continue;
        }
        proof {
            lemma_unset_count_set(seen@, b as int);
        }
        let ghost before = order@;
        let ghost seen0 = seen@;
        seen.set(b, true);
        if order.len() >= n {
            return err("block order exceeds block count");
        }
        order.push(b);
        proof {
            assert(!before.contains(b));
            assert forall|i: int, j: int| 0 <= i < j < order@.len() implies order@[i] != order@[j] by {
                if j == order@.len() - 1 {
                    assert(before[i] == order@[i]);
                }
            }
            assert forall|q: int| 0 <= q < n && #[trigger] seen@[q] implies order@.contains(q as usize) by {
                if q != b {
                    assert(seen0[q]);
                    assert(before.contains(q as usize));
                    let w = choose|w: int| 0 <= w < before.len() && before[w] == q as usize;
                    assert(order@[w] == q as usize);
                } else {
                    assert(order@[before.len() as int] == b);
                }
            }
            assert forall|j: int| 0 <= j < head implies #[trigger] seen@[queue@[j] as int] by {
                if j < head - 1 {
                    assert(seen0[queue@[j] as int]);
                }
            }
            assert forall|q: int| 0 <= q < n && !(#[trigger] seen@[q]) implies !order@.contains(q as usize) by {
                if order@.contains(q as usize) {
                    let w = choose|w: int| 0 <= w < order@.len() && order@[w] == q as usize;
                    if w < before.len() {
                        assert(before.contains(q as usize));
                    }
                }
            }
        }
        let edges = f.blocks[b].terminator.edges();
        proof {
            assert(f.blocks@[b as int]@ == f@.blocks[b as int]);
            assert(edges@.len() == f@.blocks[b as int].terminator.edges().len());
        }
        let ghost q0 = queue@;
        proof {
            assert forall|j: int, k: int|
                0 <= j < order@.len() - 1 && 0 <= k < f@.blocks[order@[j] as int].terminator.edges().len() implies index@.contains_key(
                    (#[trigger] f@.blocks[order@[j] as int].terminator.edges()[k]).block,
                ) && q0.contains(index@[f@.blocks[order@[j] as int].terminator.edges()[k].block]) by {
                assert(order@[j] == before[j]);
            }
        }
        let mut e: usize = 0;
        while e < edges.len()
            invariant
                0 <= e <= edges@.len(),
                edges@.len() <= 2,
                head <= q0.len(),
                q0.len() <= queue@.len(),
                forall|j: int| 0 <= j < q0.len() ==> #[trigger] queue@[j] == q0[j],
                order@.len() > 0 && order@.last() == b,
                forall|j: int| 0 <= j < order@.len() ==> (#[trigger] order@[j]) < n,
                forall|j: int, k: int|
                    0 <= j < order@.len() - 1 && 0 <= k < f@.blocks[order@[j] as int].terminator.edges().len() ==> index@.contains_key(
                        (#[trigger] f@.blocks[order@[j] as int].terminator.edges()[k]).block,
                    ) && q0.contains(index@[f@.blocks[order@[j] as int].terminator.edges()[k].block]),
                forall|k: int|
                    0 <= k < e ==> index@.contains_key((#[trigger] f@.blocks[b as int].terminator.edges()[k]).block)
                        && queue@.contains(index@[f@.blocks[b as int].terminator.edges()[k].block]),
                queue@.len() <= 1 + 2 * (order@.len() - 1) + e,
                forall|j: int| 0 <= j < queue@.len() ==> (#[trigger] queue@[j]) < n,
                forall|id: u32| #[trigger] index@.contains_key(id) ==> index@[id] < n,
                b < n,
                n == f.blocks@.len(),
                edges@.map_values(|x: &Edge| x@) == f@.blocks[b as int].terminator.edges(),
            decreases edges@.len() - e,
        {
            assert(edges@.map_values(|x: &Edge| x@)[e as int] == edges@[e as int]@);
            match index.get(&edges[e].block) {
                Some(t) => {
                    let ghost qb = queue@;
                    queue.push(*t);
                    proof {
                        assert(queue@[qb.len() as int] == *t);
                        assert forall|k: int|
                            0 <= k < e + 1 implies index@.contains_key((#[trigger] f@.blocks[b as int].terminator.edges()[k]).block)
                            && queue@.contains(index@[f@.blocks[b as int].terminator.edges()[k].block]) by {
                            if k < e {
                                let w = choose|w: int| 0 <= w < qb.len() && qb[w] == index@[f@.blocks[b as int].terminator.edges()[k].block];
                                assert(queue@[w] == qb[w]);
                            }
                        }
                    }
                },
                None => {
                    proof {
                        assert(edges@.map_values(|x: &Edge| x@)[e as int] == edges@[e as int]@);
                        assert(!index@.contains_key(f@.blocks[b as int].terminator.edges()[e as int].block));
                    }
                    return err("missing block");
                },
            }
            e += 1;
        }
        proof {
            assert forall|j: int, k: int|
                0 <= j < order@.len() && 0 <= k < f@.blocks[order@[j] as int].terminator.edges().len() implies index@.contains_key(
                    (#[trigger] f@.blocks[order@[j] as int].terminator.edges()[k]).block,
                ) && queue@.contains(index@[f@.blocks[order@[j] as int].terminator.edges()[k].block]) by {
                if j < order@.len() - 1 {
                    let w = choose|w: int| 0 <= w < q0.len() && q0[w] == index@[f@.blocks[order@[j] as int].terminator.edges()[k].block];
                    assert(queue@[w] == q0[w]);
                } else {
                    assert(order@[j] == b);
                }
            }
        }
    }
    proof {
        assert forall|j: int, k: int|
            0 <= j < order@.len() && 0 <= k < f@.blocks[order@[j] as int].terminator.edges().len() implies index@.contains_key(
                (#[trigger] f@.blocks[order@[j] as int].terminator.edges()[k]).block,
            ) && order@.contains(index@[f@.blocks[order@[j] as int].terminator.edges()[k].block]) by {
            let t = index@[f@.blocks[order@[j] as int].terminator.edges()[k].block];
            let w = choose|w: int| 0 <= w < queue@.len() && queue@[w] == t;
            assert(seen@[queue@[w] as int]);
        }
    }
    if order.len() == 0 {
        return err("missing entry block");
    }
    Ok(order)
}

/// The new position of every block (`order.len()` for blocks that are not
/// placed) and the parameter count of every placed block.
fn placements(f: &Function, order: &Vec<usize>) -> (r: (Vec<usize>, Vec<usize>))
    requires
        forall|j: int| 0 <= j < order@.len() ==> (#[trigger] order@[j]) < f.blocks@.len(),
        order@.no_duplicates(),
    ensures
        forall|j: int| 0 <= j < order@.len() ==> #[trigger] r.0@[order@[j] as int] == j,
        r.0@.len() == f.blocks@.len(),
        r.1@.len() == order@.len(),
        forall|j: int| 0 <= j < order@.len() ==> #[trigger] r.1@[j] == f@.blocks[order@[j] as int].parameters.len(),
{
    let n = f.blocks.len();
    let m = order.len();
    let mut newpos: Vec<usize> = Vec::new();
    let mut k: usize = 0;
    while k < n
        invariant
            0 <= k <= n,
            newpos@.len() == k,
        decreases n - k,
    {
        newpos.push(m);
        k += 1;
    }
    let mut counts: Vec<usize> = Vec::new();
    let mut k: usize = 0;
    while k < m
        invariant
            0 <= k <= m,
            m == order@.len(),
            n == f.blocks@.len(),
            newpos@.len() == n,
            counts@.len() == k,
            forall|j: int| 0 <= j < order@.len() ==> (#[trigger] order@[j]) < f.blocks@.len(),
            forall|j: int| 0 <= j < k ==> #[trigger] counts@[j] == f@.blocks[order@[j] as int].parameters.len(),
            order@.no_duplicates(),
            forall|j: int| 0 <= j < k ==> #[trigger] newpos@[order@[j] as int] == j,
        decreases m - k,
    {
        proof {
            assert forall|j: int| 0 <= j < k implies order@[j] != order@[k as int] by {}
        }
        newpos.set(order[k], k);
        counts.push(f.blocks[order[k]].parameters.len());
        k += 1;
    }
    (newpos, counts)
}

/// How many values block `x` defines.
pub open spec fn block_size(bs: Seq<BlockM>, x: int) -> nat {
    bs[x].parameters.len() + bs[x].instructions.len()
}

/// How many values the blocks before position `m` define.
pub open spec fn blocks_total(bs: Seq<BlockM>, m: int) -> nat
    decreases m,
{
    if m <= 0 {
        0
    } else {
        blocks_total(bs, m - 1) + block_size(bs, m - 1)
    }
}

/// How many values a function defines: its arguments and every block's
/// parameters and instructions.
pub open spec fn value_count(f: FunctionM) -> nat {
    f.parameters.len() + blocks_total(f.blocks, f.blocks.len() as int)
}

/// A well-formed function with no callees makes no call.
pub proof fn lemma_wf_call_free(f: FunctionM)
    requires
        wf(f),
        f.callees.len() == 0,
    ensures
        call_free(f),
{
    assert forall|b: int, i: int|
        0 <= b < f.blocks.len() && 0 <= i < f.blocks[b].instructions.len() implies !(
        #[trigger] f.blocks[b].instructions[i]).expr.is_call() by {
        assert(crate::validate::block_typed(f, b));
        assert(inst_typed(f, b, i));
        if let ExprM::Call { function, args } = f.blocks[b].instructions[i].expr {
            assert(crate::validate::call_typed(f, function, args, b, i + 1, f.blocks[b].instructions[i].ty));
            let c = choose|c: int| #[trigger] first_callee(f.callees, function, c) && sig_valid(f.callees[c].1.0, f.callees[c].1.1)
                && uses_ok(f, args, b, i + 1) && types_of(f, args) == f.callees[c].1.0 && f.blocks[b].instructions[i].ty == f.callees[c].1.1;
        }
    }
}

/// A well-formed function whose blocks and values can be numbered in 32
/// bits: the functions that normalization accepts.
pub open spec fn normalizable(f: FunctionM) -> bool {
    &&& wf(f)
    &&& f.blocks.len() <= u32::MAX
    &&& value_count(f) <= u32::MAX
}

/// How many values the blocks before position `m` that `o` lists define.
spec fn listed_total(bs: Seq<BlockM>, o: Seq<usize>, m: int) -> nat
    decreases m,
{
    if m <= 0 {
        0
    } else {
        listed_total(bs, o, m - 1) + if o.contains((m - 1) as usize) { block_size(bs, m - 1) } else { 0 }
    }
}

proof fn lemma_listed_same(bs: Seq<BlockM>, o: Seq<usize>, p: Seq<usize>, m: int)
    requires
        forall|x: int| 0 <= x < m ==> (#[trigger] o.contains(x as usize) <==> p.contains(x as usize)),
    ensures
        listed_total(bs, o, m) == listed_total(bs, p, m),
    decreases m,
{
    if m > 0 {
        lemma_listed_same(bs, o, p, m - 1);
    }
}

proof fn lemma_listed_push(bs: Seq<BlockM>, p: Seq<usize>, y: usize, m: int)
    requires
        !p.contains(y),
        0 <= y < m,
        m <= usize::MAX + 1,
    ensures
        listed_total(bs, p.push(y), m) == listed_total(bs, p, m) + block_size(bs, y as int),
    decreases m,
{
    let o = p.push(y);
    assert forall|x: usize| x != y implies (o.contains(x) <==> p.contains(x)) by {
        if o.contains(x) {
            let w = choose|w: int| 0 <= w < o.len() && o[w] == x;
            assert(w < p.len());
            assert(p[w] == x);
        }
        if p.contains(x) {
            let w = choose|w: int| 0 <= w < p.len() && p[w] == x;
            assert(o[w] == x);
        }
    }
    assert(o[p.len() as int] == y);
    if y == m - 1 {
        lemma_listed_same(bs, o, p, m - 1);
    } else {
        lemma_listed_push(bs, p, y, m - 1);
    }
}

proof fn lemma_listed_empty(bs: Seq<BlockM>, o: Seq<usize>, m: int)
    requires
        o.len() == 0,
    ensures
        listed_total(bs, o, m) == 0,
    decreases m,
{
    if m > 0 {
        lemma_listed_empty(bs, o, m - 1);
    }
}

proof fn lemma_listed_le(bs: Seq<BlockM>, o: Seq<usize>, m: int)
    ensures
        listed_total(bs, o, m) <= blocks_total(bs, m),
    decreases m,
{
    if m > 0 {
        lemma_listed_le(bs, o, m - 1);
    }
}

/// The values of distinct listed blocks are at most all the values.
proof fn lemma_order_values_le(bs: Seq<BlockM>, order: Seq<usize>)
    requires
        order.no_duplicates(),
        forall|j: int| 0 <= j < order.len() ==> (#[trigger] order[j]) < bs.len(),
        bs.len() <= usize::MAX,
    ensures
        order_values(bs, order) == listed_total(bs, order, bs.len() as int),
        order_values(bs, order) <= blocks_total(bs, bs.len() as int),
    decreases order.len(),
{
    if order.len() > 0 {
        let p = order.drop_last();
        assert(p.no_duplicates());
        lemma_order_values_le(bs, p);
        assert(order == p.push(order.last()));
        if p.contains(order.last()) {
            let w = choose|w: int| 0 <= w < p.len() && p[w] == order.last();
            assert(order[w] == order[order.len() - 1]);
        }
        lemma_listed_push(bs, p, order.last(), bs.len() as int);
    } else {
        lemma_listed_empty(bs, order, bs.len() as int);
    }
    lemma_listed_le(bs, order, bs.len() as int);
}

/// Block `b` stands in `order`.
pub open spec fn placed(order: Seq<usize>, b: int) -> bool {
    exists|j: int| 0 <= j < order.len() && #[trigger] order[j] as int == b
}

/// Dense numbering of the values: arguments, then each placed block's
/// parameters and instructions.
fn number_values(f: &Function, order: &Vec<usize>) -> (r: Result<(BTreeMap<u32, u32>, u32), String>)
    requires
        forall|j: int| 0 <= j < order@.len() ==> (#[trigger] order@[j]) < f.blocks@.len(),
    ensures
        r matches Ok((vm, bound)) ==> bound == f.parameters@.len() + order_values(f@.blocks, order@)
            && forall|id: u32| #[trigger] vm@.contains_key(id) ==> vm@[id] < bound,
        r is Ok <==> f.parameters@.len() + order_values(f@.blocks, order@) <= u32::MAX,
        r matches Ok((vm, _)) ==> forall|b: int, k: int|
            site_valid(f@, b, k) && (b < 0 || placed(order@, b)) ==> vm@.contains_key(#[trigger] site_id(f@, b, k)),
{
    proof {
        lemma_order_values_prefix(f@.blocks, order@, 0);
    }
    let ghost fv = f@;
    let m = order.len();
    let mut vm: BTreeMap<u32, u32> = BTreeMap::new();
    let mut next: u32 = 0;
    let mut k: usize = 0;
    while k < f.parameters.len()
        invariant
            0 <= k <= f.parameters@.len(),
            next == k,
            forall|id: u32| #[trigger] vm@.contains_key(id) ==> vm@[id] < next,
            fv == f@,
            forall|q: int| 0 <= q < k ==> vm@.contains_key(#[trigger] site_id(fv, -1, q)),
        decreases f.parameters@.len() - k,
    {
        if next == u32::MAX {
            assert(order@.subrange(0, 0) =~= Seq::<usize>::empty());
            return err("too many values");
        }
        vm.insert(f.parameters[k].id, next);
        assert(site_id(fv, -1, k as int) == f.parameters[k as int].id);
        next += 1;
        k += 1;
    }
    let mut k: usize = 0;
    while k < m
        invariant
            0 <= k <= m,
            m == order@.len(),
            forall|j: int| 0 <= j < order@.len() ==> (#[trigger] order@[j]) < f.blocks@.len(),
            next == f.parameters@.len() + order_values(f@.blocks, order@.subrange(0, k as int)),
            forall|id: u32| #[trigger] vm@.contains_key(id) ==> vm@[id] < next,
            fv == f@,
            forall|q: int| 0 <= q < f.parameters@.len() ==> vm@.contains_key(#[trigger] site_id(fv, -1, q)),
            forall|jj: int, q: int|
                0 <= jj < k && 0 <= q < site_count(fv, order@[jj] as int) ==> vm@.contains_key(
                    #[trigger] site_id(fv, order@[jj] as int, q),
                ),
        decreases m - k,
    {
        let blk = &f.blocks[order[k]];
        proof {
            let o = order@.subrange(0, k + 1 as int);
            assert(o.drop_last() =~= order@.subrange(0, k as int));
            assert(o.last() == order@[k as int]);
            assert(blk@ == f@.blocks[order@[k as int] as int]);
            lemma_order_values_prefix(f@.blocks, order@, k + 1);
        }
        let ghost total = f.parameters@.len() + order_values(f@.blocks, order@);
        let base = next;
        let mut j: usize = 0;
        while j < blk.parameters.len()
            invariant
                0 <= j <= blk.parameters@.len(),
                next == base + j,
                forall|id: u32| #[trigger] vm@.contains_key(id) ==> vm@[id] < next,
                base + blk.parameters@.len() + blk.instructions@.len() <= total,
                total == f.parameters@.len() + order_values(f@.blocks, order@),
                fv == f@,
                k < m,
                blk@ == fv.blocks[order@[k as int] as int],
                forall|q: int| 0 <= q < f.parameters@.len() ==> vm@.contains_key(#[trigger] site_id(fv, -1, q)),
                forall|jj: int, q: int|
                    0 <= jj < k && 0 <= q < site_count(fv, order@[jj] as int) ==> vm@.contains_key(
                        #[trigger] site_id(fv, order@[jj] as int, q),
                    ),
                forall|q: int| 0 <= q < j ==> vm@.contains_key(#[trigger] site_id(fv, order@[k as int] as int, q)),
            decreases blk.parameters@.len() - j,
        {
            if next == u32::MAX {
                return err("too many values");
            }
            assert(site_id(fv, order@[k as int] as int, j as int) == blk.parameters@[j as int].id);
            vm.insert(blk.parameters[j].id, next);
            next += 1;
            j += 1;
        }
        let mid = next;
        assert(mid == base + blk.parameters@.len());
        let mut j: usize = 0;
        while j < blk.instructions.len()
            invariant
                0 <= j <= blk.instructions@.len(),
                next == mid + j,
                forall|id: u32| #[trigger] vm@.contains_key(id) ==> vm@[id] < next,
                mid + blk.instructions@.len() <= total,
                total == f.parameters@.len() + order_values(f@.blocks, order@),
                fv == f@,
                k < m,
                blk@ == fv.blocks[order@[k as int] as int],
                forall|q: int| 0 <= q < f.parameters@.len() ==> vm@.contains_key(#[trigger] site_id(fv, -1, q)),
                forall|jj: int, q: int|
                    0 <= jj < k && 0 <= q < site_count(fv, order@[jj] as int) ==> vm@.contains_key(
                        #[trigger] site_id(fv, order@[jj] as int, q),
                    ),
                forall|q: int| 0 <= q < blk.parameters@.len() + j ==> vm@.contains_key(#[trigger] site_id(fv, order@[k as int] as int, q)),
            decreases blk.instructions@.len() - j,
        {
            if next == u32::MAX {
                return err("too many values");
            }
            assert(fv.blocks[order@[k as int] as int].instructions[j as int] == blk.instructions@[j as int]@);
            assert(site_id(fv, order@[k as int] as int, blk.parameters@.len() + j) == blk.instructions@[j as int].id);
            vm.insert(blk.instructions[j].id, next);
            next += 1;
            j += 1;
        }
        k += 1;
        proof {
            let o = order@.subrange(0, k as int);
            assert(o.drop_last() =~= order@.subrange(0, k - 1 as int));
            assert(o.last() == order@[k - 1]);
            assert(blk@ == f@.blocks[order@[k - 1] as int]);
        }
    }
    assert(order@.subrange(0, m as int) =~= order@);
    proof {
        assert forall|b: int, q: int| site_valid(fv, b, q) && (b < 0 || placed(order@, b)) implies vm@.contains_key(
            #[trigger] site_id(fv, b, q),
        ) by {
            if b >= 0 {
                let jj = choose|jj: int| 0 <= jj < order@.len() && #[trigger] order@[jj] as int == b;
                assert(vm@.contains_key(site_id(fv, order@[jj] as int, q)));
            }
        }
    }
    Ok((vm, next))
}

/// `x` can be renumbered through `vm`.
pub open spec fn inst_maps(vm: Map<u32, u32>, x: InstructionM) -> bool {
    vm.contains_key(x.id) && match x.expr {
        ExprM::Call { args, .. } => args.len() <= 4 && all_mapped(vm, args),
        ExprM::Const { .. } => true,
        ExprM::Apply { op, args } => args.len() == op.spec_arity() && all_mapped(vm, args),
    }
}

/// `e` can be redirected to a placed block with its arguments renumbered.
pub open spec fn edge_maps(
    vm: Map<u32, u32>,
    index: Map<u32, usize>,
    newpos: Seq<usize>,
    counts: Seq<usize>,
    e: EdgeM,
) -> bool {
    &&& index.contains_key(e.block)
    &&& index[e.block] < newpos.len()
    &&& newpos[index[e.block] as int] < counts.len()
    &&& e.args.len() == counts[newpos[index[e.block] as int] as int]
    &&& all_mapped(vm, e.args)
}

/// Every value and edge of `b` can be renumbered.
pub open spec fn block_maps(
    vm: Map<u32, u32>,
    index: Map<u32, usize>,
    newpos: Seq<usize>,
    counts: Seq<usize>,
    b: BlockM,
) -> bool {
    &&& all_mapped(vm, param_ids(b.parameters))
    &&& forall|i: int| 0 <= i < b.instructions.len() ==> #[trigger] inst_maps(vm, b.instructions[i])
    &&& match b.terminator {
        TerminatorM::Return { value } => vm.contains_key(value),
        TerminatorM::Jump { edge } => edge_maps(vm, index, newpos, counts, edge),
        TerminatorM::Branch { condition, if_true, if_false } => vm.contains_key(condition) && edge_maps(
            vm,
            index,
            newpos,
            counts,
            if_true,
        ) && edge_maps(vm, index, newpos, counts, if_false),
    }
}

/// Every block at the positions `order` can be renumbered.
pub open spec fn order_maps(
    vm: Map<u32, u32>,
    index: Map<u32, usize>,
    newpos: Seq<usize>,
    counts: Seq<usize>,
    bs: Seq<BlockM>,
    order: Seq<usize>,
) -> bool {
    forall|j: int| 0 <= j < order.len() ==> block_maps(vm, index, newpos, counts, bs[#[trigger] order[j] as int])
}

/// The renumbered blocks, in the given order.
fn build_blocks(
    f: &Function,
    order: &Vec<usize>,
    index: &BTreeMap<u32, usize>,
    newpos: &Vec<usize>,
    counts: &Vec<usize>,
    vm: &BTreeMap<u32, u32>,
    bound: u32,
) -> (r: Result<Vec<Block>, String>)
    requires
        forall|j: int| 0 <= j < order@.len() ==> (#[trigger] order@[j]) < f.blocks@.len(),
        order@.len() <= u32::MAX,
        counts@.len() == order@.len(),
        forall|j: int| 0 <= j < order@.len() ==> #[trigger] counts@[j] == f@.blocks[order@[j] as int].parameters.len(),
        forall|id: u32| #[trigger] vm@.contains_key(id) ==> vm@[id] < bound,
    ensures
        r matches Ok(blocks) ==> {
            let bs = blocks@.map_values(|b: Block| b@);
            &&& bs.len() == order@.len()
            &&& block_values(bs) == order_values(f@.blocks, order@)
            &&& forall|j: int| 0 <= j < bs.len() ==> (#[trigger] bs[j]).id == j
            &&& forall|j: int| 0 <= j < bs.len() ==> (#[trigger] bs[j]).parameters.len() == counts@[j]
            &&& forall|j: int| 0 <= j < bs.len() ==> params_below((#[trigger] bs[j]).parameters, bound as nat)
            &&& forall|j: int, i: int| 0 <= j < bs.len() && 0 <= i < bs[j].instructions.len() ==>
                inst_dense(#[trigger] bs[j].instructions[i], bound as nat, true)
            &&& call_free(f@) ==> forall|j: int, i: int| 0 <= j < bs.len() && 0 <= i < bs[j].instructions.len() ==>
                inst_dense(#[trigger] bs[j].instructions[i], bound as nat, false)
            &&& forall|j: int| 0 <= j < bs.len() ==> term_ok(#[trigger] bs[j], counts@, bound as nat)
        },
        r is Ok <==> order_maps(vm@, index@, newpos@, counts@, f@.blocks, order@),
{
    let m = order.len();
    let mut blocks: Vec<Block> = Vec::new();
    let mut k: usize = 0;
    while k < m
        invariant
            0 <= k <= m,
            m == order@.len(),
            m == counts@.len(),
            m <= u32::MAX,
            blocks@.len() == k,
            forall|j: int| 0 <= j < order@.len() ==> (#[trigger] order@[j]) < f.blocks@.len(),
            forall|id: u32| #[trigger] vm@.contains_key(id) ==> vm@[id] < bound,
            forall|j: int| 0 <= j < m ==> #[trigger] counts@[j] == f@.blocks[order@[j] as int].parameters.len(),
            block_values(blocks@.map_values(|b: Block| b@)) == order_values(f@.blocks, order@.subrange(0, k as int)),
            forall|j: int| 0 <= j < k ==> (#[trigger] blocks@[j]).id == j,
            forall|j: int| 0 <= j < k ==> (#[trigger] blocks@[j])@.parameters.len() == counts@[j],
            forall|j: int| 0 <= j < k ==> params_below((#[trigger] blocks@[j])@.parameters, bound as nat),
            forall|j: int, i: int| 0 <= j < k && 0 <= i < blocks@[j]@.instructions.len() ==>
                inst_dense(#[trigger] blocks@[j]@.instructions[i], bound as nat, true),
            call_free(f@) ==> forall|j: int, i: int| 0 <= j < k && 0 <= i < blocks@[j]@.instructions.len() ==>
                inst_dense(#[trigger] blocks@[j]@.instructions[i], bound as nat, false),
            forall|j: int| 0 <= j < k ==> term_ok((#[trigger] blocks@[j])@, counts@, bound as nat),
            forall|j: int|
                0 <= j < k ==> block_maps(vm@, index@, newpos@, counts@, f@.blocks[#[trigger] order@[j] as int]),
        decreases m - k,
    {
        let src = &f.blocks[order[k]];
        let ghost si = order@[k as int] as int;
        assert(src@ == f@.blocks[si]);
        let ghost bm = block_maps(vm@, index@, newpos@, counts@, src@);
        proof {
            if !bm {
                assert(!block_maps(vm@, index@, newpos@, counts@, f@.blocks[order@[k as int] as int]));
            }
        }
        let ps = map_params(vm, &src.parameters, bound)?;
        let mut insts: Vec<Instruction> = Vec::new();
        let mut j: usize = 0;
        while j < src.instructions.len()
            invariant
                0 <= j <= src.instructions@.len(),
                insts@.len() == j,
                forall|id: u32| #[trigger] vm@.contains_key(id) ==> vm@[id] < bound,
                forall|i: int| 0 <= i < j ==> inst_dense((#[trigger] insts@[i])@, bound as nat, true),
                forall|i: int| 0 <= i < j && !src@.instructions[i].expr.is_call() ==> inst_dense(
                    (#[trigger] insts@[i])@,
                    bound as nat,
                    false,
                ),
                forall|i: int| 0 <= i < j ==> #[trigger] inst_maps(vm@, src@.instructions[i]),
                bm == block_maps(vm@, index@, newpos@, counts@, src@),
                !bm ==> !order_maps(vm@, index@, newpos@, counts@, f@.blocks, order@),
            decreases src.instructions@.len() - j,
        {
            assert(src@.instructions[j as int] == src.instructions@[j as int]@);
            proof {
                if !inst_maps(vm@, src@.instructions[j as int]) {
                    assert(!bm);
                }
            }
            let y = map_instruction(vm, &src.instructions[j], bound)?;
            insts.push(y);
            j += 1;
        }
        let terminator = match &src.terminator {
            Terminator::Return { value } => Terminator::Return { value: map_id(vm, *value, bound)? },
            Terminator::Jump { edge } => Terminator::Jump {
                edge: map_edge(vm, index, newpos, counts, edge, bound)?,
            },
            Terminator::Branch { condition, if_true, if_false } => Terminator::Branch {
                condition: map_id(vm, *condition, bound)?,
                if_true: map_edge(vm, index, newpos, counts, if_true, bound)?,
                if_false: map_edge(vm, index, newpos, counts, if_false, bound)?,
            },
        };
        assert(bm);
        let nb = Block { id: k as u32, parameters: ps, instructions: insts, terminator };
        proof {
            assert(nb@.instructions.len() == src@.instructions.len());
            assert forall|i: int| 0 <= i < nb@.instructions.len() implies inst_dense(
                #[trigger] nb@.instructions[i],
                bound as nat,
                true,
            ) by {
                assert(nb@.instructions[i] == insts@[i]@);
            }
            if call_free(f@) {
                assert forall|i: int| 0 <= i < nb@.instructions.len() implies inst_dense(
                    #[trigger] nb@.instructions[i],
                    bound as nat,
                    false,
                ) by {
                    assert(nb@.instructions[i] == insts@[i]@);
                    assert(!f@.blocks[si].instructions[i].expr.is_call());
                }
            }
        }
        let ghost before = blocks@.map_values(|b: Block| b@);
        blocks.push(nb);
        proof {
            let after = blocks@.map_values(|b: Block| b@);
            assert(after.drop_last() =~= before);
            assert(after.last() == nb@);
            let o = order@.subrange(0, k + 1 as int);
            assert(o.drop_last() =~= order@.subrange(0, k as int));
            assert(o.last() == order@[k as int]);
            assert forall|j: int, i: int| 0 <= j < k + 1 && 0 <= i < blocks@[j]@.instructions.len() implies
                inst_dense(#[trigger] blocks@[j]@.instructions[i], bound as nat, true) by {
                if j == k {
                    assert(blocks@[j] == nb);
                }
            }
            if call_free(f@) {
                assert forall|j: int, i: int| 0 <= j < k + 1 && 0 <= i < blocks@[j]@.instructions.len() implies
                    inst_dense(#[trigger] blocks@[j]@.instructions[i], bound as nat, false) by {
                    if j == k {
                        assert(blocks@[j] == nb);
                    }
                }
            }
        }
        k += 1;
    }
    assert(order@.subrange(0, m as int) =~= order@);
    proof {
        let bs = blocks@.map_values(|b: Block| b@);
        assert forall|j: int, i: int| 0 <= j < bs.len() && 0 <= i < bs[j].instructions.len() implies
            inst_dense(#[trigger] bs[j].instructions[i], bound as nat, true) by {
            assert(bs[j] == blocks@[j]@);
        }
        if call_free(f@) {
            assert forall|j: int, i: int| 0 <= j < bs.len() && 0 <= i < bs[j].instructions.len() implies
                inst_dense(#[trigger] bs[j].instructions[i], bound as nat, false) by {
                assert(bs[j] == blocks@[j]@);
            }
        }
    }
    Ok(blocks)
}

/// `index` holds the position of every block identifier.
spec fn index_ok(f: FunctionM, index: Map<u32, usize>) -> bool {
    &&& forall|id: u32| #[trigger] index.contains_key(id) ==> index[id] < f.blocks.len() && f.blocks[index[id] as int].id == id
    &&& forall|j: int| 0 <= j < f.blocks.len() ==> #[trigger] index.contains_key(f.blocks[j].id)
}

/// The position that `index` gives a block identifier is its position.
proof fn lemma_index_position(f: FunctionM, index: Map<u32, usize>, id: u32)
    requires
        index_ok(f, index),
        block_ids_unique(f.blocks),
        has_block(f.blocks, id),
    ensures
        index.contains_key(id),
        index[id] as int == block_index(f.blocks, id),
{
    let j = choose|j: int| 0 <= j < f.blocks.len() && f.blocks[j].id == id;
    assert(index.contains_key(f.blocks[j].id));
    lemma_block_index(f.blocks, id, index[id] as int);
}

/// A breadth-first order closed under successors holds every block of a
/// well-formed function.
proof fn lemma_all_placed(f: FunctionM, index: Map<u32, usize>, order: Seq<usize>)
    requires
        wf(f),
        index_ok(f, index),
        order.len() > 0,
        order[0] as int == index[f.entry],
        index.contains_key(f.entry),
        forall|j: int| 0 <= j < order.len() ==> (#[trigger] order[j]) < f.blocks.len(),
        forall|j: int, k: int|
            0 <= j < order.len() && 0 <= k < f.blocks[order[j] as int].terminator.edges().len() ==> index.contains_key(
                (#[trigger] f.blocks[order[j] as int].terminator.edges()[k]).block,
            ) && order.contains(index[f.blocks[order[j] as int].terminator.edges()[k].block]),
    ensures
        forall|x: int| 0 <= x < f.blocks.len() ==> #[trigger] placed(order, x),
{
    let n = f.blocks.len();
    let tv = fn_targets(f);
    let seen = Seq::new(n, |x: int| placed(order, x));
    lemma_index_position(f, index, f.entry);
    assert forall|x: int, k: int|
        0 <= x < seen.len() && seen[x] && 0 <= k < tv[x].len() && tv[x][k] != n implies seen[#[trigger] tv[x][k] as int] by {
        let j = choose|j: int| 0 <= j < order.len() && #[trigger] order[j] as int == x;
        let e = f.blocks[x].terminator.edges()[k];
        assert(f.blocks[order[j] as int].terminator.edges()[k] == e);
        lemma_index_position(f, index, e.block);
        let t = index[e.block];
        assert(order.contains(t));
        let w = choose|w: int| 0 <= w < order.len() && order[w] == t;
        assert(tv[x][k] == block_index(f.blocks, e.block) as usize);
        assert(order[w] as int == tv[x][k] as int);
        assert(placed(order, tv[x][k] as int));
    }
    assert(closed(tv, n as int, seen));
    assert(placed(order, order[0] as int));
    assert forall|x: int| 0 <= x < f.blocks.len() implies #[trigger] placed(order, x) by {
        assert(reaches(tv, entry_index(f), n as int, x));
        let p = choose|p: Seq<int>| #[trigger] walk(tv, n as int, p) && p[0] == entry_index(f) && p.last() == x;
        lemma_closed_walk(tv, n as int, seen, p);
    }
}

/// `vm` numbers the arguments and the values of every placed block.
spec fn vm_covers(f: FunctionM, vm: Map<u32, u32>, order: Seq<usize>) -> bool {
    forall|b: int, k: int|
        site_valid(f, b, k) && (b < 0 || placed(order, b)) ==> vm.contains_key(#[trigger] site_id(f, b, k))
}

/// A usable value is numbered.
proof fn lemma_use_mapped(f: FunctionM, vm: Map<u32, u32>, order: Seq<usize>, id: u32, b: int, pos: int)
    requires
        vm_covers(f, vm, order),
        forall|x: int| 0 <= x < f.blocks.len() ==> #[trigger] placed(order, x),
        use_ok(f, id, b, pos),
    ensures
        vm.contains_key(id),
{
    let (db, dk) = def_site(f, id);
    assert(site_valid(f, db, dk) && site_id(f, db, dk) == id);
    if db >= 0 {
        assert(placed(order, db));
    }
}

/// Usable values are all numbered.
proof fn lemma_uses_mapped(f: FunctionM, vm: Map<u32, u32>, order: Seq<usize>, ids: Seq<Id>, b: int, pos: int)
    requires
        vm_covers(f, vm, order),
        forall|x: int| 0 <= x < f.blocks.len() ==> #[trigger] placed(order, x),
        uses_ok(f, ids, b, pos),
    ensures
        all_mapped(vm, ids),
{
    assert forall|i: int| 0 <= i < ids.len() implies vm.contains_key(#[trigger] ids[i]) by {
        lemma_use_mapped(f, vm, order, ids[i], b, pos);
    }
}

/// An edge of a well-formed function can be redirected and renumbered.
proof fn lemma_edge_maps(
    f: FunctionM,
    vm: Map<u32, u32>,
    index: Map<u32, usize>,
    newpos: Seq<usize>,
    counts: Seq<usize>,
    order: Seq<usize>,
    b: int,
    e: EdgeM,
    pos: int,
)
    requires
        wf(f),
        index_ok(f, index),
        vm_covers(f, vm, order),
        forall|x: int| 0 <= x < f.blocks.len() ==> #[trigger] placed(order, x),
        forall|j: int| 0 <= j < order.len() ==> (#[trigger] order[j]) < f.blocks.len(),
        newpos.len() == f.blocks.len(),
        forall|j: int| 0 <= j < order.len() ==> #[trigger] newpos[order[j] as int] == j,
        counts.len() == order.len(),
        forall|j: int| 0 <= j < order.len() ==> #[trigger] counts[j] == f.blocks[order[j] as int].parameters.len(),
        has_block(f.blocks, e.block),
        edge_typed(f, b, e, pos),
    ensures
        edge_maps(vm, index, newpos, counts, e),
{
    lemma_index_position(f, index, e.block);
    let t = index[e.block] as int;
    assert(placed(order, t));
    let j = choose|j: int| 0 <= j < order.len() && #[trigger] order[j] as int == t;
    assert(newpos[order[j] as int] == j);
    assert(counts[j] == f.blocks[t].parameters.len());
    assert forall|a: int| 0 <= a < e.args.len() implies vm.contains_key(#[trigger] e.args[a]) by {
        lemma_use_mapped(f, vm, order, e.args[a], b, pos);
    }
}

/// Every placed block of a well-formed function can be renumbered.
proof fn lemma_order_maps(
    f: FunctionM,
    vm: Map<u32, u32>,
    index: Map<u32, usize>,
    newpos: Seq<usize>,
    counts: Seq<usize>,
    order: Seq<usize>,
)
    requires
        wf(f),
        index_ok(f, index),
        vm_covers(f, vm, order),
        forall|x: int| 0 <= x < f.blocks.len() ==> #[trigger] placed(order, x),
        forall|j: int| 0 <= j < order.len() ==> (#[trigger] order[j]) < f.blocks.len(),
        newpos.len() == f.blocks.len(),
        forall|j: int| 0 <= j < order.len() ==> #[trigger] newpos[order[j] as int] == j,
        counts.len() == order.len(),
        forall|j: int| 0 <= j < order.len() ==> #[trigger] counts[j] == f.blocks[order[j] as int].parameters.len(),
    ensures
        order_maps(vm, index, newpos, counts, f.blocks, order),
{
    assert forall|j: int| 0 <= j < order.len() implies block_maps(vm, index, newpos, counts, f.blocks[#[trigger] order[j] as int]) by {
        let x = order[j] as int;
        let blk = f.blocks[x];
        assert(placed(order, x));
        assert(block_typed(f, x));
        let pos = blk.instructions.len() + 1int;
        assert forall|q: int| 0 <= q < param_ids(blk.parameters).len() implies vm.contains_key(
            #[trigger] param_ids(blk.parameters)[q],
        ) by {
            assert(site_valid(f, x, q) && site_id(f, x, q) == param_ids(blk.parameters)[q]);
        }
        assert forall|i: int| 0 <= i < blk.instructions.len() implies #[trigger] inst_maps(vm, blk.instructions[i]) by {
            let np = blk.parameters.len() as int;
            assert(site_valid(f, x, np + i) && site_id(f, x, np + i) == blk.instructions[i].id);
            assert(inst_typed(f, x, i));
            match blk.instructions[i].expr {
                ExprM::Call { function, args } => {
                    let c = choose|c: int|
                        #[trigger] first_callee(f.callees, function, c) && sig_valid(f.callees[c].1.0, f.callees[c].1.1)
                            && uses_ok(f, args, x, i + 1) && types_of(f, args) == f.callees[c].1.0 && blk.instructions[i].ty == f.callees[c].1.1;
                    assert(types_of(f, args).len() == args.len());
                    lemma_uses_mapped(f, vm, order, args, x, i + 1);
                },
                ExprM::Const { .. } => {},
                ExprM::Apply { op, args } => {
                    assert(types_of(f, args).len() == args.len());
                    lemma_uses_mapped(f, vm, order, args, x, i + 1);
                },
            }
        }
        let es = blk.terminator.edges();
        assert forall|e: int| 0 <= e < es.len() implies edge_maps(vm, index, newpos, counts, #[trigger] es[e]) by {
            assert(edge_typed(f, x, es[e], pos));
            assert(has_block(f.blocks, f.blocks[x].terminator.edges()[e].block));
            lemma_edge_maps(f, vm, index, newpos, counts, order, x, es[e], pos);
        }
        match blk.terminator {
            TerminatorM::Return { value } => {
                lemma_use_mapped(f, vm, order, value, x, pos);
            },
            TerminatorM::Branch { condition, .. } => {
                lemma_use_mapped(f, vm, order, condition, x, pos);
                assert(es[0] == blk.terminator->if_true);
                assert(es[1] == blk.terminator->if_false);
            },
            TerminatorM::Jump { .. } => {
                assert(es[0] == blk.terminator->edge);
            },
        }
    }
}

impl Function {
    /// The canonical form of a valid function: blocks in breadth-first
    /// order from the entry, renumbered by position with the entry first;
    /// values renumbered densely: arguments, then each block's parameters
    /// and instructions in block order.
    pub fn normalized(&self) -> (r: Result<Function, String>)
        ensures
            r is Ok ==> shape_ok(self@) && wf(self@),
            r matches Ok(g) ==> normal_form(self@, g@),
            r matches Ok(g) ==> reg_count(g@) <= u32::MAX,
            normalizable(self@) ==> r is Ok,
    {
        let ghost fv = self@;
        self.validate()?;
        let index = block_positions(self);
        assert(index_ok(fv, index@));
        let entry = match index.get(&self.entry) {
            Some(e) => *e,
            None => {
                proof {
                    if has_block(fv.blocks, self.entry) {
                        lemma_index_position(fv, index@, self.entry);
                    }
                }
                return err("missing entry block");
            },
        };
        proof {
            assert forall|b: int, k: int|
                0 <= b < fv.blocks.len() && 0 <= k < fv.blocks[b].terminator.edges().len() implies index@.contains_key(
                    (#[trigger] fv.blocks[b].terminator.edges()[k]).block,
                ) by {
                lemma_index_position(fv, index@, fv.blocks[b].terminator.edges()[k].block);
            }
            assert(edges_indexed(fv, index@));
        }
        let order = bfs_order(self, &index, entry)?;
        if order.len() > u32::MAX as usize {
            return err("too many blocks");
        }
        let (newpos, counts) = placements(self, &order);
        let nblocks = self.blocks.len();
        proof {
            lemma_all_placed(fv, index@, order@);
            lemma_order_values_le(fv.blocks, order@);
        }
        let (vm, bound) = number_values(self, &order)?;
        let parameters = match map_params(&vm, &self.parameters, bound) {
            Ok(p) => p,
            Err(e) => {
                proof {
                    assert forall|i: int| 0 <= i < param_ids(fv.parameters).len() implies vm@.contains_key(
                        #[trigger] param_ids(fv.parameters)[i],
                    ) by {
                        assert(site_valid(fv, -1, i) && site_id(fv, -1, i) == param_ids(fv.parameters)[i]);
                    }
                }
                return Err(e);
            },
        };
        proof {
            lemma_order_maps(fv, vm@, index@, newpos@, counts@, order@);
        }
        let blocks = build_blocks(self, &order, &index, &newpos, &counts, &vm, bound)?;
        let g = Function {
            callees: copy_callees(&self.callees),
            schema_version: SCHEMA_VERSION,
            parameters,
            return_type: self.return_type,
            entry: 0,
            blocks,
        };
        proof {
            let gm = g@;
            assert(gm.blocks == blocks@.map_values(|b: Block| b@));
            assert(reg_count(gm) == bound);
            assert forall|b: int| 0 <= b < gm.blocks.len() implies block_dense(
                #[trigger] gm.blocks[b],
                gm.blocks,
                reg_count(gm),
                true,
            ) by {
                lemma_term_ok_dense(gm.blocks[b].terminator, gm.blocks, counts@, bound as nat);
            }
            if call_free(self@) {
                assert forall|b: int| 0 <= b < gm.blocks.len() implies block_dense(
                    #[trigger] gm.blocks[b],
                    gm.blocks,
                    reg_count(gm),
                    false,
                ) by {
                    lemma_term_ok_dense(gm.blocks[b].terminator, gm.blocks, counts@, bound as nat);
                }
            }
        }
        Ok(g)
    }
}

/// The terminator's identifiers are below `bound` and its edges target
/// positions with the recorded parameter counts.
pub open spec fn term_ok(b: BlockM, counts: Seq<usize>, bound: nat) -> bool {
    match b.terminator {
        crate::ir::TerminatorM::Return { value } => value < bound,
        crate::ir::TerminatorM::Jump { edge } => edge_ok(edge, counts, bound),
        crate::ir::TerminatorM::Branch { condition, if_true, if_false } => condition < bound
            && edge_ok(if_true, counts, bound) && edge_ok(if_false, counts, bound),
    }
}

pub open spec fn edge_ok(e: crate::ir::EdgeM, counts: Seq<usize>, bound: nat) -> bool {
    e.block < counts.len() && e.args.len() == counts[e.block as int] && ids_below(e.args, bound)
}

proof fn lemma_term_ok_dense(t: crate::ir::TerminatorM, blocks: Seq<BlockM>, counts: Seq<usize>, bound: nat)
    requires
        counts.len() == blocks.len(),
        forall|j: int| 0 <= j < blocks.len() ==> (#[trigger] blocks[j]).parameters.len() == counts[j],
        term_ok(BlockM { id: 0, parameters: seq![], instructions: seq![], terminator: t }, counts, bound),
    ensures
        term_dense(t, blocks, bound),
{
    match t {
        crate::ir::TerminatorM::Return { .. } => {},
        crate::ir::TerminatorM::Jump { edge } => {
            assert(blocks[edge.block as int].parameters.len() == counts[edge.block as int]);
        },
        crate::ir::TerminatorM::Branch { if_true, if_false, .. } => {
            assert(blocks[if_true.block as int].parameters.len() == counts[if_true.block as int]);
            assert(blocks[if_false.block as int].parameters.len() == counts[if_false.block as int]);
        },
    }
}

} // verus!
