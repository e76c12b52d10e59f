//! Well-formedness checking of functions: schema, signature, block and
//! value identifiers, reachability, dominance of definitions over uses,
//! and typing.
use std::collections::BTreeMap;
use vstd::prelude::*;

use crate::ir::{callee_view, BlockM, EdgeM, Expr, ExprM, Function, FunctionM, Id, Terminator, TerminatorM};
use crate::sig::{sig_valid, types_eq};
use crate::normalize::{lemma_unset_count_set, unset_count};
use crate::text::{chars_eq, chars_of, err};
use crate::types::{spec_result, Type};

verus! {

/// The schema version of the IR.
pub const SCHEMA_VERSION: u32 = 1;

/// No two blocks share an identifier.
pub open spec fn block_ids_unique(bs: Seq<BlockM>) -> bool {
    forall|i: int, j: int| 0 <= i < j < bs.len() ==> bs[i].id != bs[j].id
}

/// Position of the block with identifier `id`.
pub open spec fn block_index(bs: Seq<BlockM>, id: Id) -> int {
    choose|i: int| 0 <= i < bs.len() && bs[i].id == id
}

pub open spec fn has_block(bs: Seq<BlockM>, id: Id) -> bool {
    exists|i: int| 0 <= i < bs.len() && bs[i].id == id
}

/// The structural facts that a successful validation establishes.
pub open spec fn shape_ok(f: FunctionM) -> bool {
    &&& f.schema_version == SCHEMA_VERSION
    &&& sig_valid(f.arg_types(), f.return_type)
    &&& block_ids_unique(f.blocks)
    &&& has_block(f.blocks, f.entry)
    &&& f.blocks[block_index(f.blocks, f.entry)].parameters.len() == 0
    &&& forall|b: int, k: int|
        0 <= b < f.blocks.len() && 0 <= k < f.blocks[b].terminator.edges().len() ==> has_block(
            f.blocks,
            (#[trigger] f.blocks[b].terminator.edges()[k]).block,
        )
}

/// Block `j` is the one with identifier `id`, when identifiers are unique.
pub proof fn lemma_block_index(bs: Seq<BlockM>, id: Id, j: int)
    requires
        block_ids_unique(bs),
        0 <= j < bs.len(),
        bs[j].id == id,
    ensures
        has_block(bs, id),
        block_index(bs, id) == j,
{
    assert(has_block(bs, id));
    let c = block_index(bs, id);
    if c < j {
        assert(bs[c].id != bs[j].id);
    } else if c > j {
        assert(bs[j].id != bs[c].id);
    }
}

/// The successor positions of every block: the position of each edge's
/// target.
pub open spec fn fn_targets(f: FunctionM) -> Seq<Seq<usize>> {
    f.blocks.map_values(
        |b: BlockM| b.terminator.edges().map_values(|e: EdgeM| block_index(f.blocks, e.block) as usize),
    )
}

/// The position of the entry block.
pub open spec fn entry_index(f: FunctionM) -> int {
    block_index(f.blocks, f.entry)
}

/// Every block is reachable from the entry.
pub open spec fn all_reachable(f: FunctionM) -> bool {
    forall|b: int| 0 <= b < f.blocks.len() ==> #[trigger] reaches(fn_targets(f), entry_index(f), f.blocks.len() as int, b)
}

/// Every path from the entry to block `b` passes through block `d`.
pub open spec fn dominates(f: FunctionM, d: int, b: int) -> bool {
    b == d || !reaches(fn_targets(f), entry_index(f), d, b)
}

/// How many values block `b` defines (its parameters, then its
/// instructions); for `b == -1`, how many arguments the function has.
pub open spec fn site_count(f: FunctionM, b: int) -> int {
    if b < 0 {
        f.parameters.len() as int
    } else {
        (f.blocks[b].parameters.len() + f.blocks[b].instructions.len()) as int
    }
}

/// Definition site `k` of block `b` (of the arguments for `b == -1`).
pub open spec fn site_valid(f: FunctionM, b: int, k: int) -> bool {
    -1 <= b < f.blocks.len() && 0 <= k < site_count(f, b)
}

/// The value defined at a site.
pub open spec fn site_id(f: FunctionM, b: int, k: int) -> Id {
    if b < 0 {
        f.parameters[k].id
    } else if k < f.blocks[b].parameters.len() {
        f.blocks[b].parameters[k].id
    } else {
        f.blocks[b].instructions[k - f.blocks[b].parameters.len()].id
    }
}

/// The type of the value defined at a site.
pub open spec fn site_ty(f: FunctionM, b: int, k: int) -> Type {
    if b < 0 {
        f.parameters[k].ty
    } else if k < f.blocks[b].parameters.len() {
        f.blocks[b].parameters[k].ty
    } else {
        f.blocks[b].instructions[k - f.blocks[b].parameters.len()].ty
    }
}

/// Where in its block a site stands: 0 for arguments and block
/// parameters, `i + 1` for instruction `i`.
pub open spec fn site_pos(f: FunctionM, b: int, k: int) -> int {
    if b < 0 || k < f.blocks[b].parameters.len() {
        0
    } else {
        k - f.blocks[b].parameters.len() + 1
    }
}

/// No two definition sites define the same value.
pub open spec fn values_unique(f: FunctionM) -> bool {
    forall|b1: int, k1: int, b2: int, k2: int|
        site_valid(f, b1, k1) && site_valid(f, b2, k2) && (b1 != b2 || k1 != k2) ==> #[trigger] site_id(f, b1, k1)
            != #[trigger] site_id(f, b2, k2)
}

/// Value `id` is defined somewhere.
pub open spec fn defined(f: FunctionM, id: Id) -> bool {
    exists|b: int, k: int| site_valid(f, b, k) && #[trigger] site_id(f, b, k) == id
}

/// The site that defines `id`.
pub open spec fn def_site(f: FunctionM, id: Id) -> (int, int) {
    choose|b: int, k: int| site_valid(f, b, k) && #[trigger] site_id(f, b, k) == id
}

/// The type of value `id`.
pub open spec fn value_type(f: FunctionM, id: Id) -> Type {
    site_ty(f, def_site(f, id).0, def_site(f, id).1)
}

/// The definition of `id` reaches position `pos` of block `b`: it is an
/// argument, stands earlier in `b`, or its block dominates `b`.
pub open spec fn use_ok(f: FunctionM, id: Id, b: int, pos: int) -> bool {
    let (db, dk) = def_site(f, id);
    &&& defined(f, id)
    &&& (db < 0 || (if db == b {
        site_pos(f, db, dk) < pos
    } else {
        dominates(f, db, b)
    }))
}

/// Every value of `ids` may be used at position `pos` of block `b`.
pub open spec fn uses_ok(f: FunctionM, ids: Seq<Id>, b: int, pos: int) -> bool {
    forall|k: int| 0 <= k < ids.len() ==> use_ok(f, #[trigger] ids[k], b, pos)
}

/// The types of the values `ids`.
pub open spec fn types_of(f: FunctionM, ids: Seq<Id>) -> Seq<Type> {
    ids.map_values(|i: Id| value_type(f, i))
}

/// Callee `c` is the first one named `name`.
pub open spec fn first_callee(cs: Seq<(Seq<char>, (Seq<Type>, Type))>, name: Seq<char>, c: int) -> bool {
    &&& 0 <= c < cs.len()
    &&& cs[c].0 == name
    &&& forall|j: int| 0 <= j < c ==> (#[trigger] cs[j]).0 != name
}

/// A call of `function` on `args` at position `pos` of block `b`, giving
/// `ty`: the first callee of that name has a valid signature that takes the
/// arguments' types and returns `ty`, and the arguments are defined before.
pub open spec fn call_typed(f: FunctionM, function: Seq<char>, args: Seq<Id>, b: int, pos: int, ty: Type) -> bool {
    exists|c: int|
        #[trigger] first_callee(f.callees, function, c) && sig_valid(f.callees[c].1.0, f.callees[c].1.1)
            && uses_ok(f, args, b, pos) && types_of(f, args) == f.callees[c].1.0 && ty == f.callees[c].1.1
}

/// Instruction `k` of block `b` is well typed, its operands defined
/// before it.
pub open spec fn inst_typed(f: FunctionM, b: int, k: int) -> bool {
    let x = f.blocks[b].instructions[k];
    match x.expr {
        ExprM::Call { function, args } => call_typed(f, function, args, b, k + 1, x.ty),
        ExprM::Const { value } => value.bits <= value.ty.spec_mask() && x.ty == value.ty,
        ExprM::Apply { op, args } => uses_ok(f, args, b, k + 1) && spec_result(op, types_of(f, args)) == Some(
            x.ty,
        ),
    }
}

/// An edge leaving block `b` passes values of the target's parameter
/// types, defined before the terminator at `pos`.
pub open spec fn edge_typed(f: FunctionM, b: int, e: EdgeM, pos: int) -> bool {
    let ps = f.blocks[block_index(f.blocks, e.block)].parameters;
    &&& e.args.len() == ps.len()
    &&& forall|a: int| 0 <= a < ps.len() ==> use_ok(f, #[trigger] e.args[a], b, pos) && value_type(f, e.args[a]) == ps[a].ty
}

/// Block `b` is well typed: its instructions, its terminator's value and
/// its edges.
pub open spec fn block_typed(f: FunctionM, b: int) -> bool {
    let blk = f.blocks[b];
    let pos = blk.instructions.len() + 1int;
    &&& forall|k: int| 0 <= k < blk.instructions.len() ==> #[trigger] inst_typed(f, b, k)
    &&& blk.instructions.len() < usize::MAX
    &&& match blk.terminator {
        TerminatorM::Return { value } => use_ok(f, value, b, pos) && value_type(f, value) == f.return_type,
        TerminatorM::Branch { condition, .. } => use_ok(f, condition, b, pos) && value_type(f, condition)
            == Type::Bool,
        TerminatorM::Jump { .. } => true,
    }
    &&& forall|e: int| 0 <= e < blk.terminator.edges().len() ==> #[trigger] edge_typed(f, b, blk.terminator.edges()[e], pos)
}

/// A well-formed function: the shape checks, every block reachable, every
/// value defined once, and every block well typed.
pub open spec fn wf(f: FunctionM) -> bool {
    &&& shape_ok(f)
    &&& all_reachable(f)
    &&& values_unique(f)
    &&& forall|b: int| 0 <= b < f.blocks.len() ==> #[trigger] block_typed(f, b)
}

/// Where a value is defined: a function argument, or position `pos` of a
/// block (0 for the block's parameters, `i + 1` for instruction `i`).
#[derive(Clone, Copy)]
struct Def {
    ty: Type,
    argument: bool,
    block: usize,
    pos: usize,
}

/// `p` is a walk along `targets` that never enters `avoid`.
pub open spec fn walk(targets: Seq<Seq<usize>>, avoid: int, p: Seq<int>) -> bool {
    &&& p.len() >= 1
    &&& forall|i: int| 0 <= i < p.len() ==> 0 <= #[trigger] p[i] < targets.len() && p[i] != avoid
    &&& forall|i: int| 0 <= i < p.len() - 1 ==> step(targets, #[trigger] p[i], p[i + 1])
}

/// `y` is a successor of `x`.
pub open spec fn step(targets: Seq<Seq<usize>>, x: int, y: int) -> bool {
    exists|k: int| 0 <= k < targets[x].len() && #[trigger] targets[x][k] as int == y
}

/// Block `b` can be reached from `start` without passing through `avoid`.
pub open spec fn reaches(targets: Seq<Seq<usize>>, start: int, avoid: int, b: int) -> bool {
    exists|p: Seq<int>| #[trigger] walk(targets, avoid, p) && p[0] == start && p.last() == b
}

/// Every successor, other than `avoid`, of a marked block is marked.
pub open spec fn closed(targets: Seq<Seq<usize>>, avoid: int, seen: Seq<bool>) -> bool {
    forall|x: int, k: int|
        0 <= x < seen.len() && seen[x] && 0 <= k < targets[x].len() && targets[x][k] != avoid ==> seen[
            #[trigger] targets[x][k] as int]
}

/// A closed marking that holds `p`'s first block holds its last.
pub proof fn lemma_closed_walk(targets: Seq<Seq<usize>>, avoid: int, seen: Seq<bool>, p: Seq<int>)
    requires
        seen.len() == targets.len(),
        closed(targets, avoid, seen),
        walk(targets, avoid, p),
        seen[p[0]],
    ensures
        seen[p.last()],
    decreases p.len(),
{
    if p.len() > 1 {
        let q = p.drop_last();
        assert(walk(targets, avoid, q)) by {
            assert forall|i: int| 0 <= i < q.len() - 1 implies step(targets, #[trigger] q[i], q[i + 1]) by {
                assert(step(targets, p[i], p[i + 1]));
            }
        }
        lemma_closed_walk(targets, avoid, seen, q);
        let x = p[p.len() - 2];
        assert(step(targets, x, p.last()));
        let k = choose|k: int| 0 <= k < targets[x].len() && #[trigger] targets[x][k] as int == p.last();
        assert(q.last() == x);
        assert(0 <= p.last() < targets.len() && p.last() != avoid);
        assert(seen[targets[x][k] as int]);
    }
}

/// A walk to `b` followed by a step to `t`.
proof fn lemma_walk_step(targets: Seq<Seq<usize>>, start: int, avoid: int, b: int, t: int)
    requires
        reaches(targets, start, avoid, b),
        0 <= b < targets.len(),
        0 <= t < targets.len(),
        t != avoid,
        step(targets, b, t),
    ensures
        reaches(targets, start, avoid, t),
{
    let p = choose|p: Seq<int>| #[trigger] walk(targets, avoid, p) && p[0] == start && p.last() == b;
    let q = p.push(t);
    assert(walk(targets, avoid, q)) by {
        assert forall|i: int| 0 <= i < q.len() - 1 implies step(targets, #[trigger] q[i], q[i + 1]) by {
            if i < p.len() - 1 {
                assert(step(targets, p[i], p[i + 1]));
            }
        }
    }
    assert(q[0] == start && q.last() == t);
}

/// Marks the blocks reachable from `start` without passing through
/// `avoid` (when it is a block index).
fn reach(targets: &Vec<Vec<usize>>, start: usize, avoid: usize) -> (r: Vec<bool>)
    requires
        start < targets@.len(),
        forall|b: int, k: int|
            0 <= b < targets@.len() && 0 <= k < targets@[b]@.len() ==> (#[trigger] targets@[b]@[k])
                < targets@.len(),
    ensures
        r@.len() == targets@.len(),
        forall|b: int|
            0 <= b < targets@.len() ==> #[trigger] r@[b] == reaches(
                targets@.map_values(|v: Vec<usize>| v@),
                start as int,
                avoid as int,
                b,
            ),
{
    let ghost tv = targets@.map_values(|v: Vec<usize>| v@);
    let n = targets.len();
    let mut seen: Vec<bool> = Vec::new();
    let mut k: usize = 0;
    while k < n
        invariant
            0 <= k <= n,
            seen@.len() == k,
            unset_count(seen@) == k,
            forall|q: int| 0 <= q < k ==> !(#[trigger] seen@[q]),
        decreases n - k,
    {
        let ghost prev = seen@;
        seen.push(false);
        k += 1;
        assert(seen@.drop_last() =~= prev);
    }
    if start == avoid {
        proof {
            assert forall|b: int| 0 <= b < n implies #[trigger] seen@[b] == reaches(tv, start as int, avoid as int, b) by {
                if reaches(tv, start as int, avoid as int, b) {
                    let p = choose|p: Seq<int>| #[trigger] walk(tv, avoid as int, p) && p[0] == start && p.last() == b;
                    assert(p[0] != avoid);
                }
            }
        }
        return seen;
    }
    proof {
        lemma_unset_count_set(seen@, start as int);
        let p = seq![start as int];
        assert(walk(tv, avoid as int, p));
    }
    seen.set(start, true);
    let mut round: usize = 0;
    let mut changed = true;
    while changed && round < n
        invariant
            seen@.len() == n,
            n == targets@.len(),
            tv == targets@.map_values(|v: Vec<usize>| v@),
            start < n,
            start != avoid,
            seen@[start as int],
            forall|b: int, k: int|
                0 <= b < targets@.len() && 0 <= k < targets@[b]@.len() ==> (#[trigger] targets@[b]@[k])
                    < targets@.len(),
            forall|x: int| 0 <= x < n && #[trigger] seen@[x] ==> reaches(tv, start as int, avoid as int, x),
            changed ==> unset_count(seen@) + round + 1 <= n,
            !changed ==> closed(tv, avoid as int, seen@),
        decreases n - round,
    {
        let ghost at_start = seen@;
        let ghost unset0 = unset_count(seen@);
        changed = false;
        let mut b: usize = 0;
        while b < n
            invariant
                0 <= b <= n,
                seen@.len() == n,
                n == targets@.len(),
                tv == targets@.map_values(|v: Vec<usize>| v@),
                start < n,
                start != avoid,
                seen@[start as int],
                forall|b: int, k: int|
                    0 <= b < targets@.len() && 0 <= k < targets@[b]@.len() ==> (#[trigger] targets@[b]@[k])
                        < targets@.len(),
                forall|x: int| 0 <= x < n && #[trigger] seen@[x] ==> reaches(tv, start as int, avoid as int, x),
                changed ==> unset_count(seen@) < unset0,
                unset0 == unset_count(at_start),
                !changed ==> seen@ == at_start,
                !changed ==> forall|x: int, k: int|
                    0 <= x < b && seen@[x] && 0 <= k < tv[x].len() && tv[x][k] != avoid ==> seen@[
                        #[trigger] tv[x][k] as int],
            decreases n - b,
        {
            if seen[b] {
                let ts = &targets[b];
                assert(ts@ == tv[b as int]);
                let mut k: usize = 0;
                while k < ts.len()
                    invariant
                        0 <= k <= ts@.len(),
                        ts@ == targets@[b as int]@,
                        ts@ == tv[b as int],
                        b < n,
                        seen@.len() == n,
                        n == targets@.len(),
                        tv == targets@.map_values(|v: Vec<usize>| v@),
                        seen@[b as int],
                        start < n,
                        seen@[start as int],
                        forall|b: int, k: int|
                            0 <= b < targets@.len() && 0 <= k < targets@[b]@.len() ==> (#[trigger] targets@[b]@[k])
                                < targets@.len(),
                        forall|x: int| 0 <= x < n && #[trigger] seen@[x] ==> reaches(tv, start as int, avoid as int, x),
                        changed ==> unset_count(seen@) < unset0,
                        unset0 == unset_count(at_start),
                        !changed ==> seen@ == at_start,
                        !changed ==> forall|x: int, k: int|
                            0 <= x < b && seen@[x] && 0 <= k < tv[x].len() && tv[x][k] != avoid ==> seen@[
                                #[trigger] tv[x][k] as int],
                        !changed ==> forall|j: int|
                            0 <= j < k && tv[b as int][j] != avoid ==> seen@[#[trigger] tv[b as int][j] as int],
                    decreases ts@.len() - k,
                {
                    let t = ts[k];
                    assert(ts@[k as int] == targets@[b as int]@[k as int]);
                    if t != avoid && !seen[t] {
                        proof {
                            assert(tv[b as int][k as int] as int == t as int);
                            assert(step(tv, b as int, t as int));
                            lemma_walk_step(tv, start as int, avoid as int, b as int, t as int);
                            lemma_unset_count_set(seen@, t as int);
                        }
                        seen.set(t, true);
                        changed = true;
                    }
                    k += 1;
                }
            }
            b += 1;
        }
        round += 1;
    }
    proof {
        assert(!changed);
        assert forall|b: int| 0 <= b < n implies #[trigger] seen@[b] == reaches(tv, start as int, avoid as int, b) by {
            if reaches(tv, start as int, avoid as int, b) {
                let p = choose|p: Seq<int>| #[trigger] walk(tv, avoid as int, p) && p[0] == start && p.last() == b;
                lemma_closed_walk(tv, avoid as int, seen@, p);
            }
        }
    }
    seen
}

/// The definition record of a site.
spec fn site_def(f: FunctionM, b: int, k: int) -> Def {
    Def { ty: site_ty(f, b, k), argument: b < 0, block: if b < 0 { 0 } else { b as usize }, pos: site_pos(f, b, k) as usize }
}

/// Site `(b, k)` comes before site `(b0, k0)`.
spec fn before(b0: int, k0: int, b: int, k: int) -> bool {
    b < b0 || (b == b0 && k < k0)
}

/// `defs` records exactly the sites before `(b0, k0)`, whose values are
/// all distinct.
spec fn defs_upto(f: FunctionM, defs: Map<u32, Def>, b0: int, k0: int) -> bool {
    &&& forall|b1: int, k1: int, b2: int, k2: int|
        site_valid(f, b1, k1) && site_valid(f, b2, k2) && before(b0, k0, b1, k1) && before(b0, k0, b2, k2) && (b1
            != b2 || k1 != k2) ==> #[trigger] site_id(f, b1, k1) != #[trigger] site_id(f, b2, k2)
    &&& forall|id: u32|
        #[trigger] defs.contains_key(id) <==> exists|b: int, k: int|
            site_valid(f, b, k) && before(b0, k0, b, k) && #[trigger] site_id(f, b, k) == id
    &&& forall|b: int, k: int|
        site_valid(f, b, k) && before(b0, k0, b, k) ==> defs[#[trigger] site_id(f, b, k)] == site_def(f, b, k)
            && site_pos(f, b, k) <= usize::MAX && b <= usize::MAX
}

/// Records the site `(b, k)` after the sites before it.
proof fn lemma_defs_add(f: FunctionM, defs: Map<u32, Def>, b0: int, k0: int, nb: int, nk: int)
    requires
        defs_upto(f, defs, b0, k0),
        site_valid(f, b0, k0),
        !defs.contains_key(site_id(f, b0, k0)),
        site_pos(f, b0, k0) <= usize::MAX,
        b0 <= usize::MAX,
        forall|b: int, k: int| site_valid(f, b, k) ==> (before(nb, nk, b, k) <==> before(b0, k0, b, k) || (b == b0
            && k == k0)),
    ensures
        defs_upto(f, defs.insert(site_id(f, b0, k0), site_def(f, b0, k0)), nb, nk),
{
    let d2 = defs.insert(site_id(f, b0, k0), site_def(f, b0, k0));
    assert forall|b1: int, k1: int, b2: int, k2: int|
        site_valid(f, b1, k1) && site_valid(f, b2, k2) && before(nb, nk, b1, k1) && before(nb, nk, b2, k2) && (b1
            != b2 || k1 != k2) implies #[trigger] site_id(f, b1, k1) != #[trigger] site_id(f, b2, k2) by {
        if b1 == b0 && k1 == k0 {
            assert(defs.contains_key(site_id(f, b2, k2)));
        } else if b2 == b0 && k2 == k0 {
            assert(defs.contains_key(site_id(f, b1, k1)));
        }
    }
    assert forall|id: u32| #[trigger] d2.contains_key(id) <==> exists|b: int, k: int|
        site_valid(f, b, k) && before(nb, nk, b, k) && #[trigger] site_id(f, b, k) == id by {
        if d2.contains_key(id) {
            if id == site_id(f, b0, k0) {
                assert(site_valid(f, b0, k0) && before(nb, nk, b0, k0));
            } else {
                assert(defs.contains_key(id));
                let (b, k) = choose|b: int, k: int| site_valid(f, b, k) && before(b0, k0, b, k) && #[trigger] site_id(f, b, k) == id;
                assert(before(nb, nk, b, k));
            }
        }
        if exists|b: int, k: int| site_valid(f, b, k) && before(nb, nk, b, k) && #[trigger] site_id(f, b, k) == id {
            let (b, k) = choose|b: int, k: int| site_valid(f, b, k) && before(nb, nk, b, k) && #[trigger] site_id(f, b, k) == id;
            if !(b == b0 && k == k0) {
                assert(before(b0, k0, b, k));
                assert(defs.contains_key(id));
            }
        }
    }
    assert forall|b: int, k: int| site_valid(f, b, k) && before(nb, nk, b, k) implies d2[#[trigger] site_id(f, b, k)]
        == site_def(f, b, k) && site_pos(f, b, k) <= usize::MAX && b <= usize::MAX by {
        if !(b == b0 && k == k0) {
            assert(before(b0, k0, b, k));
            assert(defs.contains_key(site_id(f, b, k)));
        }
    }
}

/// Two bounds that cover the same sites record the same definitions.
proof fn lemma_defs_same(f: FunctionM, defs: Map<u32, Def>, b0: int, k0: int, b1: int, k1: int)
    requires
        defs_upto(f, defs, b0, k0),
        forall|b: int, k: int| site_valid(f, b, k) ==> (before(b0, k0, b, k) <==> before(b1, k1, b, k)),
    ensures
        defs_upto(f, defs, b1, k1),
{
    assert forall|id: u32| #[trigger] defs.contains_key(id) <==> exists|b: int, k: int|
        site_valid(f, b, k) && before(b1, k1, b, k) && #[trigger] site_id(f, b, k) == id by {
        if defs.contains_key(id) {
            let (b, k) = choose|b: int, k: int| site_valid(f, b, k) && before(b0, k0, b, k) && #[trigger] site_id(f, b, k) == id;
            assert(before(b1, k1, b, k));
        }
        if exists|b: int, k: int| site_valid(f, b, k) && before(b1, k1, b, k) && #[trigger] site_id(f, b, k) == id {
            let (b, k) = choose|b: int, k: int| site_valid(f, b, k) && before(b1, k1, b, k) && #[trigger] site_id(f, b, k) == id;
            assert(before(b0, k0, b, k));
        }
    }
}

/// A value recorded before site `(b0, k0)` that the site defines again.
proof fn lemma_defs_clash(f: FunctionM, defs: Map<u32, Def>, b0: int, k0: int)
    requires
        defs_upto(f, defs, b0, k0),
        site_valid(f, b0, k0),
        defs.contains_key(site_id(f, b0, k0)),
    ensures
        !values_unique(f),
{
    let id = site_id(f, b0, k0);
    let (b, k) = choose|b: int, k: int| site_valid(f, b, k) && before(b0, k0, b, k) && #[trigger] site_id(f, b, k) == id;
    assert(site_id(f, b, k) == site_id(f, b0, k0));
}

/// The definition of every value, each defined exactly once.
fn collect_defs(f: &Function) -> (r: Result<BTreeMap<u32, Def>, String>)
    ensures
        r is Ok <==> values_unique(f@),
        r matches Ok(d) ==> defs_upto(f@, d@, f@.blocks.len() as int, 0),
{
    let ghost fv = f@;
    let mut defs: BTreeMap<u32, Def> = BTreeMap::new();
    let mut k: usize = 0;
    assert(defs_upto(fv, defs@, -1, 0));
    while k < f.parameters.len()
        invariant
            0 <= k <= f.parameters@.len(),
            fv == f@,
            defs_upto(fv, defs@, -1, k as int),
        decreases f.parameters@.len() - k,
    {
        let p = f.parameters[k];
        assert(site_valid(fv, -1, k as int) && site_id(fv, -1, k as int) == p.id);
        if defs.contains_key(&p.id) {
            proof {
                lemma_defs_clash(fv, defs@, -1, k as int);
            }
            return err("duplicate value ID");
        }
        proof {
            lemma_defs_add(fv, defs@, -1, k as int, -1, k + 1);
        }
        defs.insert(p.id, Def { ty: p.ty, argument: true, block: 0, pos: 0 });
        k += 1;
    }
    proof {
        lemma_defs_same(fv, defs@, -1, k as int, 0, 0);
    }
    let n = f.blocks.len();
    let mut b: usize = 0;
    while b < n
        invariant
            0 <= b <= n,
            n == f.blocks@.len(),
            fv == f@,
            defs_upto(fv, defs@, b as int, 0),
        decreases n - b,
    {
        let blk = &f.blocks[b];
        assert(blk@ == fv.blocks[b as int]);
        let np = blk.parameters.len();
        let mut k: usize = 0;
        while k < np
            invariant
                0 <= k <= np,
                np == blk.parameters@.len(),
                b < n,
                n == f.blocks@.len(),
                fv == f@,
                blk@ == fv.blocks[b as int],
                defs_upto(fv, defs@, b as int, k as int),
            decreases np - k,
        {
            let p = blk.parameters[k];
            assert(site_valid(fv, b as int, k as int) && site_id(fv, b as int, k as int) == p.id);
            if defs.contains_key(&p.id) {
                proof {
                    lemma_defs_clash(fv, defs@, b as int, k as int);
                }
                return err("duplicate value ID");
            }
            proof {
                lemma_defs_add(fv, defs@, b as int, k as int, b as int, k + 1);
            }
            defs.insert(p.id, Def { ty: p.ty, argument: false, block: b, pos: 0 });
            k += 1;
        }
        let mut j: usize = 0;
        while j < blk.instructions.len()
            invariant
                0 <= j <= blk.instructions@.len(),
                np == blk.parameters@.len(),
                b < n,
                n == f.blocks@.len(),
                fv == f@,
                blk@ == fv.blocks[b as int],
                defs_upto(fv, defs@, b as int, np + j),
            decreases blk.instructions@.len() - j,
        {
            let x = &blk.instructions[j];
            assert(fv.blocks[b as int].instructions[j as int] == x@);
            assert(site_valid(fv, b as int, np + j) && site_id(fv, b as int, np + j) == x.id);
            if defs.contains_key(&x.id) {
                proof {
                    lemma_defs_clash(fv, defs@, b as int, np + j);
                }
                return err("duplicate value ID");
            }
            proof {
                lemma_defs_add(fv, defs@, b as int, np + j, b as int, np + j + 1);
            }
            defs.insert(x.id, Def { ty: x.ty, argument: false, block: b, pos: j + 1 });
            j += 1;
        }
        proof {
            lemma_defs_same(fv, defs@, b as int, np + j, b + 1, 0);
        }
        b += 1;
    }
    proof {
        assert forall|b1: int, k1: int, b2: int, k2: int|
            site_valid(fv, b1, k1) && site_valid(fv, b2, k2) && (b1 != b2 || k1 != k2) implies #[trigger] site_id(
            fv,
            b1,
            k1,
        ) != #[trigger] site_id(fv, b2, k2) by {
            assert(before(n as int, 0, b1, k1) && before(n as int, 0, b2, k2));
        }
    }
    Ok(defs)
}

/// The definition of `id` reaches position `pos` of block `b`: it is an
/// argument, or stands earlier in the same block, or its block dominates
/// `b`.
spec fn reaches_use(defs: Map<u32, Def>, dominated: Seq<Vec<bool>>, id: Id, b: int, pos: int) -> bool {
    &&& defs.contains_key(id)
    &&& (defs[id].argument || (if defs[id].block == b {
        defs[id].pos < pos
    } else {
        defs[id].block < dominated.len() && b < dominated[defs[id].block as int]@.len()
            && dominated[defs[id].block as int]@[b]
    }))
}

/// The type of value `id` used at position `pos` of block `b`, when its
/// definition reaches the use.
fn use_value(
    defs: &BTreeMap<u32, Def>,
    dominated: &Vec<Vec<bool>>,
    id: Id,
    b: usize,
    pos: usize,
) -> (r: Result<Type, String>)
    ensures
        r is Ok <==> reaches_use(defs@, dominated@, id, b as int, pos as int),
        r matches Ok(t) ==> t == defs@[id].ty,
{
    let d = match defs.get(&id) {
        Some(d) => *d,
        None => return err("missing value"),
    };
    if !d.argument {
        if d.block == b {
            if d.pos >= pos {
                return err("use-before-definition");
            }
        } else {
            if d.block >= dominated.len() || b >= dominated[d.block].len() || !dominated[d.block][b] {
                return err("non-dominating use");
            }
        }
    }
    Ok(d.ty)
}

/// Types of the values `ids` used at position `pos` of block `b`.
fn use_values(
    defs: &BTreeMap<u32, Def>,
    dominated: &Vec<Vec<bool>>,
    ids: &[Id],
    b: usize,
    pos: usize,
) -> (r: Result<Vec<Type>, String>)
    ensures
        r matches Ok(ts) ==> ts@.len() == ids@.len(),
        r is Ok <==> forall|k: int|
            0 <= k < ids@.len() ==> reaches_use(defs@, dominated@, #[trigger] ids@[k], b as int, pos as int),
        r matches Ok(ts) ==> forall|k: int| 0 <= k < ids@.len() ==> ts@[k] == defs@[#[trigger] ids@[k]].ty,
{
    let mut out: Vec<Type> = Vec::new();
    let mut k: usize = 0;
    while k < ids.len()
        invariant
            0 <= k <= ids@.len(),
            out@.len() == k,
            forall|j: int|
                0 <= j < k ==> reaches_use(defs@, dominated@, #[trigger] ids@[j], b as int, pos as int),
            forall|j: int| 0 <= j < k ==> out@[j] == defs@[#[trigger] ids@[j]].ty,
        decreases ids@.len() - k,
    {
        let t = use_value(defs, dominated, ids[k], b, pos)?;
        out.push(t);
        k += 1;
    }
    Ok(out)
}

/// `defs`, `dominated` and `index` describe `f`: every definition, the
/// dominance of blocks, and the position of every block identifier.
spec fn tables_ok(f: FunctionM, defs: Map<u32, Def>, dominated: Seq<Vec<bool>>, index: Map<u32, usize>) -> bool {
    &&& defs_upto(f, defs, f.blocks.len() as int, 0)
    &&& dominated.len() == f.blocks.len()
    &&& forall|d: int| 0 <= d < dominated.len() ==> (#[trigger] dominated[d])@.len() == f.blocks.len()
    &&& forall|d: int, x: int|
        0 <= d < f.blocks.len() && 0 <= x < f.blocks.len() ==> #[trigger] dominated[d]@[x] == dominates(f, d, x)
    &&& forall|id: u32| #[trigger] index.contains_key(id) ==> index[id] < f.blocks.len() && f.blocks[index[id] as int].id == id
    &&& forall|j: int| 0 <= j < f.blocks.len() ==> #[trigger] index.contains_key(f.blocks[j].id)
    &&& block_ids_unique(f.blocks)
    &&& forall|x: int, k: int|
        0 <= x < f.blocks.len() && 0 <= k < f.blocks[x].terminator.edges().len() ==> has_block(
            f.blocks,
            (#[trigger] f.blocks[x].terminator.edges()[k]).block,
        )
}

/// The checked reachability of a use is `use_ok`, and the recorded type
/// of a usable value is its type.
proof fn lemma_use(f: FunctionM, defs: Map<u32, Def>, dominated: Seq<Vec<bool>>, index: Map<u32, usize>, id: Id, b: int, pos: int)
    requires
        tables_ok(f, defs, dominated, index),
        0 <= b < f.blocks.len(),
    ensures
        reaches_use(defs, dominated, id, b, pos) == use_ok(f, id, b, pos),
        defined(f, id) ==> defs[id].ty == value_type(f, id),
{
    if defined(f, id) {
        let (db, dk) = def_site(f, id);
        assert(site_valid(f, db, dk) && site_id(f, db, dk) == id);
        assert(defs.contains_key(id));
        assert(defs[id] == site_def(f, db, dk));
        if db >= 0 {
            assert(dominated[db]@[b] == dominates(f, db, b));
        }
    } else {
        if defs.contains_key(id) {
            let (x, y) = choose|x: int, y: int| site_valid(f, x, y) && before(f.blocks.len() as int, 0, x, y) && #[trigger] site_id(f, x, y) == id;
            assert(defined(f, id));
        }
    }
}

/// The first callee named `name` is the only one.
proof fn lemma_first_callee(cs: Seq<(Seq<char>, (Seq<Type>, Type))>, name: Seq<char>, i: int, c: int)
    requires
        first_callee(cs, name, i),
        first_callee(cs, name, c),
    ensures
        i == c,
{
    if c < i {
        assert(cs[c].0 != name);
    } else if i < c {
        assert(cs[i].0 != name);
    }
}

/// The type of instruction `k` of block `b`, checked as `inst_typed` asks.
fn check_instruction(
    f: &Function,
    defs: &BTreeMap<u32, Def>,
    dominated: &Vec<Vec<bool>>,
    index: &BTreeMap<u32, usize>,
    b: usize,
    k: usize,
) -> (r: Result<(), String>)
    requires
        tables_ok(f@, defs@, dominated@, index@),
        b < f.blocks@.len(),
        k < f.blocks@[b as int].instructions@.len(),
    ensures
        r is Ok <==> inst_typed(f@, b as int, k as int),
{
    let ghost fv = f@;
    let blk = &f.blocks[b];
    assert(blk@ == fv.blocks[b as int]);
    let x = &blk.instructions[k];
    assert(x@ == fv.blocks[b as int].instructions[k as int]);
    let ni = blk.instructions.len();
    assert(k + 1 <= ni);
    match &x.expr {
        Expr::Call { function, args } => {
            let name = chars_of(function.as_str());
            let mut found: Option<usize> = None;
            let mut c: usize = 0;
            while c < f.callees.len() && found.is_none()
                invariant
                    0 <= c <= f.callees@.len(),
                    fv == f@,
                    found is None ==> forall|j: int| 0 <= j < c ==> (#[trigger] fv.callees[j]).0 != name@,
                    found matches Some(i) ==> first_callee(fv.callees, name@, i as int),
                decreases f.callees@.len() - c, if found is None { 1int } else { 0int },
            {
                assert(fv.callees[c as int] == callee_view(f.callees@[c as int]));
                if chars_eq(&chars_of(f.callees[c].0.as_str()), &name) {
                    found = Some(c);
                } else {
                    c += 1;
                }
            }
            let i = match found {
                Some(i) => i,
                None => {
                    proof {
                        if call_typed(fv, function@, args@, b as int, k + 1, x.ty) {
                            let c = choose|c: int| #[trigger] first_callee(fv.callees, function@, c);
                            assert(fv.callees[c].0 == name@);
                        }
                    }
                    return err("undeclared callee");
                },
            };
            assert(fv.callees[i as int] == callee_view(f.callees@[i as int]));
            let sig = &f.callees[i].1;
            proof {
                assert forall|c: int| #[trigger] first_callee(fv.callees, function@, c) implies c == i by {
                    lemma_first_callee(fv.callees, function@, i as int, c);
                }
            }
            sig.validate()?;
            let types = match use_values(defs, dominated, args, b, k + 1) {
                Ok(t) => t,
                Err(e) => {
                    proof {
                        let j = choose|j: int|
                            0 <= j < args@.len() && !reaches_use(defs@, dominated@, #[trigger] args@[j], b as int, (k + 1) as int);
                        lemma_use(fv, defs@, dominated@, index@, args@[j], b as int, (k + 1) as int);
                        assert(!uses_ok(fv, args@, b as int, k + 1));
                    }
                    return Err(e);
                },
            };
            proof {
                assert forall|j: int| 0 <= j < args@.len() implies use_ok(fv, #[trigger] args@[j], b as int, k + 1) by {
                    lemma_use(fv, defs@, dominated@, index@, args@[j], b as int, (k + 1) as int);
                }
                assert forall|j: int| 0 <= j < args@.len() implies types@[j] == types_of(fv, args@)[j] by {
                    lemma_use(fv, defs@, dominated@, index@, args@[j], b as int, (k + 1) as int);
                }
                assert(types@ =~= types_of(fv, args@));
            }
            if !types_eq(&types, &sig.arguments) {
                return err("call signature mismatch");
            }
            assert(name@ == function@);
            assert(first_callee(fv.callees, function@, i as int));
            assert(sig.view_pair() == fv.callees[i as int].1);
            if sig.return_type != x.ty {
                return err("instruction type mismatch");
            }
            let ghost c = i as int;
            assert(sig_valid(fv.callees[c].1.0, fv.callees[c].1.1));
            assert(uses_ok(fv, args@, b as int, k + 1));
            assert(types_of(fv, args@) == fv.callees[c].1.0);
            assert(x@.ty == fv.callees[c].1.1);
            assert(x@.expr == (ExprM::Call { function: function@, args: args@ }));
            assert(call_typed(fv, function@, args@, b as int, k + 1, x.ty));
            assert(inst_typed(fv, b as int, k as int));
            return Ok(());
        },
        Expr::Const { value } => {
            if value.bits > value.ty.mask() {
                return err("constant bit pattern exceeds width");
            }
            if value.ty != x.ty {
                return err("instruction type mismatch");
            }
            assert(inst_typed(fv, b as int, k as int));
            return Ok(());
        },
        Expr::Apply { op, args } => {
            let types = match use_values(defs, dominated, args, b, k + 1) {
                Ok(t) => t,
                Err(e) => {
                    proof {
                        let j = choose|j: int|
                            0 <= j < args@.len() && !reaches_use(defs@, dominated@, #[trigger] args@[j], b as int, (k + 1) as int);
                        lemma_use(fv, defs@, dominated@, index@, args@[j], b as int, (k + 1) as int);
                        assert(!uses_ok(fv, args@, b as int, k + 1));
                    }
                    return Err(e);
                },
            };
            proof {
                assert forall|j: int| 0 <= j < args@.len() implies use_ok(fv, #[trigger] args@[j], b as int, k + 1) by {
                    lemma_use(fv, defs@, dominated@, index@, args@[j], b as int, (k + 1) as int);
                }
                assert forall|j: int| 0 <= j < args@.len() implies types@[j] == types_of(fv, args@)[j] by {
                    lemma_use(fv, defs@, dominated@, index@, args@[j], b as int, (k + 1) as int);
                }
                assert(types@ =~= types_of(fv, args@));
            }
            let t = op.result(&types)?;
            if t != x.ty {
                return err("instruction type mismatch");
            }
            assert(inst_typed(fv, b as int, k as int));
            Ok(())
        },
    }
}

/// Block `b` checked as `block_typed` asks.
fn check_block(
    f: &Function,
    defs: &BTreeMap<u32, Def>,
    dominated: &Vec<Vec<bool>>,
    index: &BTreeMap<u32, usize>,
    b: usize,
) -> (r: Result<(), String>)
    requires
        tables_ok(f@, defs@, dominated@, index@),
        b < f.blocks@.len(),
    ensures
        r is Ok <==> block_typed(f@, b as int),
{
    let ghost fv = f@;
    let blk = &f.blocks[b];
    assert(blk@ == fv.blocks[b as int]);
    let mut k: usize = 0;
    while k < blk.instructions.len()
        invariant
            0 <= k <= blk.instructions@.len(),
            fv == f@,
            b < f.blocks@.len(),
            blk@ == fv.blocks[b as int],
            tables_ok(f@, defs@, dominated@, index@),
            forall|j: int| 0 <= j < k ==> #[trigger] inst_typed(fv, b as int, j),
            *blk == f.blocks@[b as int],
        decreases blk.instructions@.len() - k,
    {
        check_instruction(f, defs, dominated, index, b, k)?;
        k += 1;
    }
    if blk.instructions.len() == usize::MAX {
        return err("block too large");
    }
    let pos = blk.instructions.len() + 1;
    match &blk.terminator {
        Terminator::Return { value } => {
            proof {
                lemma_use(fv, defs@, dominated@, index@, *value, b as int, pos as int);
            }
            if use_value(defs, dominated, *value, b, pos)? != f.return_type {
                return err("return type mismatch");
            }
        },
        Terminator::Branch { condition, .. } => {
            proof {
                lemma_use(fv, defs@, dominated@, index@, *condition, b as int, pos as int);
            }
            if use_value(defs, dominated, *condition, b, pos)? != Type::Bool {
                return err("branch condition must be bool");
            }
        },
        _ => {},
    }
    let edges = blk.terminator.edges();
    let ghost es = fv.blocks[b as int].terminator.edges();
    let mut e: usize = 0;
    while e < edges.len()
        invariant
            0 <= e <= edges@.len(),
            fv == f@,
            b < f.blocks@.len(),
            blk@ == fv.blocks[b as int],
            pos == fv.blocks[b as int].instructions.len() + 1,
            tables_ok(f@, defs@, dominated@, index@),
            edges@.map_values(|x: &crate::ir::Edge| x@) == es,
            es == fv.blocks[b as int].terminator.edges(),
            forall|j: int| 0 <= j < e ==> #[trigger] edge_typed(fv, b as int, es[j], pos as int),
        decreases edges@.len() - e,
    {
        let edge = edges[e];
        assert(edge@ == es[e as int]);
        assert(has_block(fv.blocks, edge.block));
        let t = match index.get(&edge.block) {
            Some(t) => *t,
            None => {
                proof {
                    let j = choose|j: int| 0 <= j < fv.blocks.len() && fv.blocks[j].id == edge.block;
                    assert(index@.contains_key(fv.blocks[j].id));
                }
                return err("missing block");
            },
        };
        proof {
            lemma_block_index(fv.blocks, edge.block, t as int);
        }
        let ps = &f.blocks[t].parameters;
        assert(ps@ == fv.blocks[t as int].parameters);
        if edge.args.len() != ps.len() {
            assert(!edge_typed(fv, b as int, es[e as int], pos as int));
            return err("edge argument count mismatch");
        }
        let mut a: usize = 0;
        while a < ps.len()
            invariant
                0 <= a <= ps@.len(),
                ps@.len() == edge.args@.len(),
                ps@ == fv.blocks[t as int].parameters,
                t == block_index(fv.blocks, edge.block),
                t < fv.blocks.len(),
                e < es.len(),
                edge@ == es[e as int],
                es == fv.blocks[b as int].terminator.edges(),
                pos == fv.blocks[b as int].instructions.len() + 1,
                fv == f@,
                b < f.blocks@.len(),
                tables_ok(f@, defs@, dominated@, index@),
                forall|j: int|
                    0 <= j < a ==> use_ok(fv, #[trigger] edge.args@[j], b as int, pos as int) && value_type(
                        fv,
                        edge.args@[j],
                    ) == ps@[j].ty,
            decreases ps@.len() - a,
        {
            proof {
                lemma_use(fv, defs@, dominated@, index@, edge.args@[a as int], b as int, pos as int);
            }
            let ty = match use_value(defs, dominated, edge.args[a], b, pos) {
                Ok(ty) => ty,
                Err(x) => {
                    assert(!use_ok(fv, edge.args@[a as int], b as int, pos as int));
                    assert(!edge_typed(fv, b as int, es[e as int], pos as int));
                    return Err(x);
                },
            };
            if ty != ps[a].ty {
                assert(!edge_typed(fv, b as int, es[e as int], pos as int));
                return err("edge argument type mismatch");
            }
            a += 1;
        }
        assert(edge_typed(fv, b as int, es[e as int], pos as int));
        e += 1;
    }
    Ok(())
}

impl Function {
    /// Checks that the function is well formed: supported schema and
    /// signature; unique block identifiers; an entry block without
    /// parameters; every edge targets an existing block; every block is
    /// reachable from the entry; unique value identifiers; every use is
    /// preceded in its block or dominated by its definition; and every
    /// instruction, return, branch condition, call and edge is well typed.
    pub fn validate(&self) -> (r: Result<(), String>)
        ensures
            r is Ok ==> shape_ok(self@),
            r is Ok <==> wf(self@),
    {
        let ghost fv = self@;
        if self.schema_version != SCHEMA_VERSION {
            return err("unsupported IR schema");
        }
        self.signature().validate()?;
        let n = self.blocks.len();
        let mut index: BTreeMap<u32, usize> = BTreeMap::new();
        let mut k: usize = 0;
        while k < n
            invariant
                0 <= k <= n,
                n == self.blocks@.len(),
                fv == self@,
                forall|i: int, j: int| 0 <= i < j < k ==> fv.blocks[i].id != fv.blocks[j].id,
                forall|j: int| 0 <= j < k ==> #[trigger] index@.contains_key(fv.blocks[j].id)
                    && index@[fv.blocks[j].id] == j,
                forall|id: u32| #[trigger] index@.contains_key(id) ==> index@[id] < k
                    && fv.blocks[index@[id] as int].id == id,
            decreases n - k,
        {
            let id = self.blocks[k].id;
            assert(fv.blocks[k as int].id == id);
            if index.contains_key(&id) {
                proof {
                    let j = index@[id] as int;
                    assert(fv.blocks[j].id == fv.blocks[k as int].id);
                    assert(!block_ids_unique(fv.blocks));
                }
                return err("duplicate block ID");
            }
            index.insert(id, k);
            k += 1;
        }
        assert(block_ids_unique(fv.blocks));
        let entry = match index.get(&self.entry) {
            Some(e) => *e,
            None => {
                proof {
                    if has_block(fv.blocks, self.entry) {
                        let j = choose|j: int| 0 <= j < fv.blocks.len() && fv.blocks[j].id == self.entry;
                        assert(index@.contains_key(fv.blocks[j].id));
                    }
                }
                return err("missing entry block");
            },
        };
        proof {
            lemma_block_index(fv.blocks, self.entry, entry as int);
        }
        assert(self.blocks@[entry as int]@ == fv.blocks[entry as int]);
        if self.blocks[entry].parameters.len() != 0 {
            return err("entry block cannot have block parameters");
        }
        // Successor indices of every block; every edge must name a block.
        let mut targets: Vec<Vec<usize>> = Vec::new();
        let mut b: usize = 0;
        while b < n
            invariant
                0 <= b <= n,
                n == self.blocks@.len(),
                fv == self@,
                entry < n,
                block_ids_unique(fv.blocks),
                targets@.len() == b,
                forall|j: int| 0 <= j < n ==> #[trigger] index@.contains_key(fv.blocks[j].id),
                forall|id: u32| #[trigger] index@.contains_key(id) ==> index@[id] < n
                    && fv.blocks[index@[id] as int].id == id,
                forall|x: int, k: int|
                    0 <= x < b && 0 <= k < targets@[x]@.len() ==> (#[trigger] targets@[x]@[k]) < n,
                forall|x: int| 0 <= x < b ==> (#[trigger] targets@[x])@ == fn_targets(fv)[x],
                forall|x: int, k: int|
                    0 <= x < b && 0 <= k < fv.blocks[x].terminator.edges().len() ==> has_block(
                        fv.blocks,
                        (#[trigger] fv.blocks[x].terminator.edges()[k]).block,
                    ),
            decreases n - b,
        {
            let edges = self.blocks[b].terminator.edges();
            let ghost es = fv.blocks[b as int].terminator.edges();
            assert(self.blocks@[b as int]@ == fv.blocks[b as int]);
            let mut ts: Vec<usize> = Vec::new();
            let mut k: usize = 0;
            while k < edges.len()
                invariant
                    0 <= k <= edges@.len(),
                    edges@.map_values(|e: &crate::ir::Edge| e@) == es,
                    es == fv.blocks[b as int].terminator.edges(),
                    b < n,
                    ts@.len() == k,
                    n == self.blocks@.len(),
                    fv == self@,
                    block_ids_unique(fv.blocks),
                    forall|id: u32| #[trigger] index@.contains_key(id) ==> index@[id] < n
                        && fv.blocks[index@[id] as int].id == id,
                    forall|j: int| 0 <= j < n ==> #[trigger] index@.contains_key(fv.blocks[j].id),
                    forall|j: int| 0 <= j < k ==> (#[trigger] ts@[j]) < n,
                    forall|j: int| 0 <= j < k ==> #[trigger] ts@[j] == block_index(fv.blocks, es[j].block) as usize,
                    forall|j: int| 0 <= j < k ==> has_block(fv.blocks, (#[trigger] es[j]).block),
                decreases edges@.len() - k,
            {
                let target = edges[k].block;
                assert(es[k as int] == edges@[k as int]@);
                match index.get(&target) {
                    Some(t) => {
                        proof {
                            lemma_block_index(fv.blocks, target, *t as int);
                        }
                        ts.push(*t);
                    },
                    None => {
                        proof {
                            if has_block(fv.blocks, target) {
                                let j = choose|j: int| 0 <= j < fv.blocks.len() && fv.blocks[j].id == target;
                                assert(index@.contains_key(fv.blocks[j].id));
                            }
                            assert(!shape_ok(fv));
                        }
                        return err("missing block");
                    },
                }
                k += 1;
            }
            proof {
                assert(ts@ =~= fn_targets(fv)[b as int]);
            }
            targets.push(ts);
            b += 1;
        }
        let ghost tv = targets@.map_values(|v: Vec<usize>| v@);
        assert(tv =~= fn_targets(fv));
        assert(entry == entry_index(fv));
        assert(shape_ok(fv));
        let reachable = reach(&targets, entry, n);
        let mut k: usize = 0;
        while k < n
            invariant
                0 <= k <= n,
                n == fv.blocks.len(),
                reachable@.len() == n,
                forall|x: int| 0 <= x < n ==> #[trigger] reachable@[x] == reaches(tv, entry as int, n as int, x),
                forall|x: int| 0 <= x < k ==> #[trigger] reaches(tv, entry as int, n as int, x),
                fv == self@,
                shape_ok(fv),
                forall|j: int| 0 <= j < n ==> #[trigger] index@.contains_key(fv.blocks[j].id),
                forall|id: u32| #[trigger] index@.contains_key(id) ==> index@[id] < n
                    && fv.blocks[index@[id] as int].id == id,
                tv == fn_targets(fv),
                entry == entry_index(fv),
            decreases n - k,
        {
            if !reachable[k] {
                assert(!all_reachable(fv));
                return err("unreachable block");
            }
            k += 1;
        }
        assert(all_reachable(fv));
        // dominated[d][b]: every path from the entry to b passes through d.
        let mut dominated: Vec<Vec<bool>> = Vec::new();
        let mut d: usize = 0;
        while d < n
            invariant
                0 <= d <= n,
                n == targets@.len(),
                n == fv.blocks.len(),
                entry < n,
                entry == entry_index(fv),
                tv == targets@.map_values(|v: Vec<usize>| v@),
                tv == fn_targets(fv),
                dominated@.len() == d,
                all_reachable(fv),
                fv == self@,
                shape_ok(fv),
                forall|j: int| 0 <= j < n ==> #[trigger] index@.contains_key(fv.blocks[j].id),
                forall|id: u32| #[trigger] index@.contains_key(id) ==> index@[id] < n
                    && fv.blocks[index@[id] as int].id == id,
                forall|x: int| 0 <= x < d ==> (#[trigger] dominated@[x])@.len() == n,
                forall|x: int, y: int|
                    0 <= x < d && 0 <= y < n ==> #[trigger] dominated@[x]@[y] == dominates(fv, x, y),
                forall|b: int, k: int|
                    0 <= b < targets@.len() && 0 <= k < targets@[b]@.len() ==> (#[trigger] targets@[b]@[k])
                        < targets@.len(),
            decreases n - d,
        {
            let avoiding = reach(&targets, entry, d);
            let mut row: Vec<bool> = Vec::new();
            let mut x: usize = 0;
            while x < n
                invariant
                    0 <= x <= n,
                    n == targets@.len(),
                    avoiding@.len() == n,
                    row@.len() == x,
                    forall|y: int|
                        0 <= y < n ==> #[trigger] avoiding@[y] == reaches(tv, entry as int, d as int, y),
                    forall|y: int| 0 <= y < x ==> #[trigger] row@[y] == dominates(fv, d as int, y),
                    tv == fn_targets(fv),
                    entry == entry_index(fv),
                decreases n - x,
            {
                row.push(x == d || !avoiding[x]);
                x += 1;
            }
            dominated.push(row);
            d += 1;
        }
        // Definitions of every value.
        let defs = collect_defs(self)?;
        // Uses and types.
        assert(tables_ok(fv, defs@, dominated@, index@));
        let mut b: usize = 0;
        while b < n
            invariant
                0 <= b <= n,
                n == self.blocks@.len(),
                fv == self@,
                tables_ok(fv, defs@, dominated@, index@),
                forall|x: int| 0 <= x < b ==> #[trigger] block_typed(fv, x),
            decreases n - b,
        {
            check_block(self, &defs, &dominated, &index, b)?;
            b += 1;
        }
        Ok(())
    }
}

} // verus!
