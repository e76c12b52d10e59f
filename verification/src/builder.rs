//! Lowering of structured statements (`let`, assignment, `if`, `while`,
//! `loop`, `break`, `continue`, `return`) to the block IR. Every block
//! receives the whole environment as parameters, so values that change
//! inside a branch or a loop flow along the edges.
use vstd::prelude::*;

use crate::corpus::{chars_less, compare_chars};
use crate::ir::{copy_instructions, copy_params, Edge, Expr, Id, Instruction, Param, Terminator};
use crate::sig::{types_eq, Signature};
use crate::syntax::{Expression, Statement};
use crate::text::{chars_copy, chars_eq, chars_of, err, string_of};
use crate::types::{Op, Type};

verus! {

/// What a name stands for: a value, its type, and whether it may be
/// assigned.
#[derive(Clone, Copy)]
pub struct Binding {
    pub id: Id,
    pub ty: Type,
    pub mutable: bool,
}

/// `a` sorts before `b`, character by character.
pub fn chars_lt(a: &[char], b: &[char]) -> (r: bool)
    ensures
        r == chars_less(a@, b@),
{
    compare_chars(a, b) < 0
}

/// Position of `name` in the environment.
pub fn env_find(env: &Vec<(Vec<char>, Binding)>, name: &[char]) -> (r: Option<usize>)
    ensures
        r matches Some(i) ==> i < env@.len() && env@[i as int].0@ == name@
            && forall|j: int| 0 <= j < i ==> (#[trigger] env@[j]).0@ != name@,
        r is None ==> forall|i: int| 0 <= i < env@.len() ==> (#[trigger] env@[i]).0@ != name@,
{
    let mut i: usize = 0;
    while i < env.len()
        invariant
            0 <= i <= env@.len(),
            forall|j: int| 0 <= j < i ==> (#[trigger] env@[j]).0@ != name@,
        decreases env@.len() - i,
    {
        if chars_eq(&env[i].0, name) {
            return Some(i);
        }
        i += 1;
    }
    None
}

/// `name` is bound in `env`.
pub open spec fn env_has(env: Seq<(Vec<char>, Binding)>, name: Seq<char>) -> bool {
    exists|i: int| 0 <= i < env.len() && (#[trigger] env[i]).0@ == name
}

/// What `name` stands for in `env`: its first binding.
pub open spec fn env_binding(env: Seq<(Vec<char>, Binding)>, name: Seq<char>) -> Binding {
    let i = choose|i: int|
        0 <= i < env.len() && (#[trigger] env[i]).0@ == name && forall|j: int|
            0 <= j < i ==> (#[trigger] env[j]).0@ != name;
    env[i].1
}

/// The value that `name` stands for in `env`.
pub open spec fn env_value(env: Seq<(Vec<char>, Binding)>, name: Seq<char>) -> Id {
    env_binding(env, name).id
}

/// Binds `name` to `b`, replacing an earlier binding of the name or
/// inserting it in name order.
pub fn env_set(env: &mut Vec<(Vec<char>, Binding)>, name: &[char], b: Binding)
    ensures
        exists|i: int| 0 <= i < final(env)@.len() && (#[trigger] final(env)@[i]).0@ == name@
            && final(env)@[i].1 == b,
{
    match env_find(env, name) {
        Some(i) => {
            env.set(i, (chars_copy(name), b));
            assert(env@[i as int].0@ == name@);
        },
        None => {
            let mut k: usize = 0;
            while k < env.len() && chars_lt(&env[k].0, name)
                invariant
                    0 <= k <= env@.len(),
                decreases env@.len() - k,
            {
                k += 1;
            }
            env.insert(k, (chars_copy(name), b));
            assert(env@[k as int].0@ == name@);
        },
    }
}

/// The names of the environment, in order.
pub fn env_names(env: &Vec<(Vec<char>, Binding)>) -> (r: Vec<Vec<char>>)
    ensures
        r@.len() == env@.len(),
{
    let mut out: Vec<Vec<char>> = Vec::new();
    let mut i: usize = 0;
    while i < env.len()
        invariant
            0 <= i <= env@.len(),
            out@.len() == i,
        decreases env@.len() - i,
    {
        out.push(env[i].0.clone());
        i += 1;
    }
    out
}

/// A block under construction; its identifier is its position.
pub struct PendingBlock {
    pub parameters: Vec<Param>,
    pub instructions: Vec<Instruction>,
    pub terminator: Option<Terminator>,
}

/// The innermost enclosing loop: where `continue` and `break` go, and
/// the names carried along its edges.
pub struct LoopContext {
    pub header: Id,
    pub exit: Id,
    pub names: Vec<Vec<char>>,
    pub has_break: bool,
}

/// The state of the lowering.
pub struct Builder {
    pub callees: Vec<(String, Signature)>,
    pub blocks: Vec<PendingBlock>,
    pub current: Option<Id>,
    pub next_value: Id,
    pub return_type: Type,
    pub loops: Vec<LoopContext>,
}

/// From `before` to `after`, no block but the current one changed its
/// terminator, and only the current block or a new one became current.
pub open spec fn frames_blocks(before: Builder, after: Builder) -> bool {
    &&& after.blocks@.len() >= before.blocks@.len()
    &&& forall|i: int|
        0 <= i < before.blocks@.len() && before.current != Some(i as u32) ==> (#[trigger] after.blocks@[i]).terminator
            == before.blocks@[i].terminator
    &&& (after.current matches Some(c) ==> before.current == Some(c) || c >= before.blocks@.len())
}

/// Framing composes.
proof fn lemma_frames_trans(a: Builder, b: Builder, c: Builder)
    requires
        frames_blocks(a, b),
        frames_blocks(b, c),
        a.blocks@.len() <= u32::MAX,
    ensures
        frames_blocks(a, c),
{
    assert forall|i: int|
        0 <= i < a.blocks@.len() && a.current != Some(i as u32) implies (#[trigger] c.blocks@[i]).terminator
        == a.blocks@[i].terminator by {
        assert(b.blocks@[i].terminator == a.blocks@[i].terminator);
        if b.current == Some(i as u32) {
            assert(i >= a.blocks@.len());
        }
    }
}

/// Under framing, a block that was already terminated keeps its
/// terminator: lowering never rewrites a finished block.
pub proof fn law_finished_blocks_stay(before: Builder, after: Builder, i: int)
    requires
        before.wf(),
        frames_blocks(before, after),
        0 <= i < before.blocks@.len(),
        before.blocks@[i].terminator is Some,
    ensures
        after.blocks@[i].terminator == before.blocks@[i].terminator,
{
    if before.current == Some(i as u32) {
        assert(before.blocks@[i].terminator is None);
    }
}

/// `t` ends its block with a jump to block `target`.
pub open spec fn jumps_to(t: Option<Terminator>, target: int) -> bool {
    t matches Some(Terminator::Jump { edge }) && edge.block == target
}

/// `t` ends its block with a branch whose true edge goes to block `yes`
/// and whose false edge goes to block `no`.
pub open spec fn branches_to(t: Option<Terminator>, yes: int, no: int) -> bool {
    t matches Some(Terminator::Branch { if_true, if_false, .. }) && if_true.block == yes && if_false.block == no
}

impl Builder {
    /// Every block reference held by the builder names a block.
    pub open spec fn wf(&self) -> bool {
        &&& self.blocks@.len() <= u32::MAX
        &&& (self.current matches Some(c) ==> c < self.blocks@.len() && self.blocks@[c as int].terminator is None)
        &&& forall|j: int|
            0 <= j < self.loops@.len() ==> (#[trigger] self.loops@[j]).header < self.blocks@.len()
                && self.loops@[j].exit < self.blocks@.len()
    }

    /// A fresh value identifier.
    fn fresh(&mut self) -> (r: Result<Id, String>)
        requires
            old(self).wf(),
        ensures
            frames_blocks(*old(self), *final(self)),
            final(self).loops@.len() == old(self).loops@.len(),
            final(self).wf(),
            final(self).blocks@.len() == old(self).blocks@.len(),
            final(self).current == old(self).current,
            final(self).blocks == old(self).blocks,
            final(self).loops == old(self).loops,
            r is Err <==> old(self).next_value == u32::MAX,
            r is Err ==> final(self).next_value == old(self).next_value,
            r matches Ok(id) ==> id == old(self).next_value && final(self).next_value == old(self).next_value + 1,
    {
        if self.next_value == u32::MAX {
            return err("too many values");
        }
        let id = self.next_value;
        self.next_value = self.next_value + 1;
        Ok(id)
    }

    /// A new block taking every name of `env` as a parameter, and the
    /// environment inside it.
    fn block(&mut self, env: &Vec<(Vec<char>, Binding)>) -> (r: Result<
        (Id, Vec<(Vec<char>, Binding)>),
        String,
    >)
        requires
            old(self).wf(),
        ensures
            frames_blocks(*old(self), *final(self)),
            final(self).loops@.len() == old(self).loops@.len(),
            final(self).wf(),
            final(self).blocks@.len() >= old(self).blocks@.len(),
            final(self).current == old(self).current,
            r matches Ok((id, _)) ==> id < final(self).blocks@.len(),
            r is Ok <==> old(self).blocks@.len() < u32::MAX && old(self).next_value + env@.len() <= u32::MAX,
            r matches Ok((id, inner)) ==> {
                &&& id == old(self).blocks@.len()
                &&& final(self).blocks@.len() == old(self).blocks@.len() + 1
                &&& final(self).blocks@.drop_last() == old(self).blocks@
                &&& final(self).next_value == old(self).next_value + env@.len()
                &&& final(self).blocks@.last().instructions@.len() == 0
                &&& final(self).blocks@.last().terminator is None
                &&& final(self).blocks@.last().parameters@.len() == env@.len()
                &&& inner@.len() == env@.len()
                &&& forall|i: int|
                    0 <= i < env@.len() ==> (#[trigger] inner@[i]).1 == (Binding {
                        id: (old(self).next_value + i) as u32,
                        ty: env@[i].1.ty,
                        mutable: env@[i].1.mutable,
                    }) && final(self).blocks@.last().parameters@[i] == (Param {
                        id: (old(self).next_value + i) as u32,
                        ty: env@[i].1.ty,
                    })
            },
    {
        if self.blocks.len() >= u32::MAX as usize {
            return err("too many blocks");
        }
        let id = self.blocks.len() as u32;
        let mut parameters: Vec<Param> = Vec::new();
        let mut mapped: Vec<(Vec<char>, Binding)> = Vec::new();
        let mut i: usize = 0;
        while i < env.len()
            invariant
                0 <= i <= env@.len(),
                self.wf(),
                self.blocks@.len() == old(self).blocks@.len(),
                self.current == old(self).current,
                self.loops@.len() == old(self).loops@.len(),
                id == self.blocks@.len(),
                self.blocks == old(self).blocks,
                self.next_value == old(self).next_value + i,
                parameters@.len() == i,
                mapped@.len() == i,
                id < u32::MAX,
                forall|j: int|
                    0 <= j < i ==> (#[trigger] mapped@[j]).1 == (Binding {
                        id: (old(self).next_value + j) as u32,
                        ty: env@[j].1.ty,
                        mutable: env@[j].1.mutable,
                    }) && parameters@[j] == (Param { id: (old(self).next_value + j) as u32, ty: env@[j].1.ty }),
            decreases env@.len() - i,
        {
            let value = match self.fresh() {
                Ok(v) => v,
                Err(e) => {
                    return Err(e);
                },
            };
            let b = env[i].1;
            parameters.push(Param { id: value, ty: b.ty });
            mapped.push((env[i].0.clone(), Binding { id: value, ty: b.ty, mutable: b.mutable }));
            i += 1;
        }
        self.blocks.push(PendingBlock { parameters, instructions: Vec::new(), terminator: None });
        Ok((id, mapped))
    }

    /// Appends an instruction to the current block.
    fn emit(&mut self, ty: Type, expr: Expr) -> (r: Result<Binding, String>)
        requires
            old(self).wf(),
        ensures
            frames_blocks(*old(self), *final(self)),
            final(self).loops@.len() == old(self).loops@.len(),
            final(self).wf(),
            final(self).blocks@.len() == old(self).blocks@.len(),
            final(self).current == old(self).current,
            r matches Ok(b) ==> b.ty == ty,
            r is Ok <==> old(self).current is Some && old(self).next_value < u32::MAX,
            r matches Ok(b) ==> b.id == old(self).next_value && !b.mutable && final(self).next_value
                == old(self).next_value + 1 && final(self).blocks@[old(self).current->0 as int].instructions@
                == old(self).blocks@[old(self).current->0 as int].instructions@.push(
                Instruction { id: b.id, ty, expr },
            ),
    {
        let block = match self.current {
            Some(c) => c,
            None => return err("unreachable expression"),
        };
        let id = self.fresh()?;
        self.blocks[block as usize].instructions.push(Instruction { id, ty, expr });
        Ok(Binding { id, ty, mutable: false })
    }

    /// Lowers an expression; operands are evaluated left to right.
    #[verifier::loop_isolation(false)]
    fn expression(&mut self, e: &Expression, env: &Vec<(Vec<char>, Binding)>) -> (r: Result<
        Binding,
        String,
    >)
        requires
            old(self).wf(),
        ensures
            frames_blocks(*old(self), *final(self)),
            final(self).loops@.len() == old(self).loops@.len(),
            final(self).wf(),
            final(self).blocks@.len() == old(self).blocks@.len(),
            final(self).current == old(self).current,
            *e matches Expression::Name(name) ==> (r is Ok <==> env_has(env@, name@)) && (r matches Ok(b)
                ==> b == env_binding(env@, name@)),
            *e matches Expression::Literal(v) ==> (r is Ok <==> old(self).current is Some
                && old(self).next_value < u32::MAX) && (r matches Ok(b) ==> b.ty == v.ty && b.id
                == old(self).next_value && !b.mutable),
        decreases e,
    {
        match e {
            Expression::Name(name) => match env_find(env, name) {
                Some(i) => {
                    proof {
                        let n = name@;
                        let c = choose|c: int|
                            0 <= c < env@.len() && (#[trigger] env@[c]).0@ == n && forall|d: int|
                                0 <= d < c ==> (#[trigger] env@[d]).0@ != n;
                        if c < i {
                        } else if c > i {
                            assert(env@[i as int].0@ != n);
                        }
                        assert(env_has(env@, n));
                    }
                    Ok(env[i].1)
                },
                None => {
                    assert(!env_has(env@, name@));
                    err("unknown value")
                },
            },
            Expression::Literal(value) => self.emit(value.ty, Expr::Const { value: *value }),
            Expression::Apply(op, args) => {
                let mut types: Vec<Type> = Vec::new();
                let mut ids: Vec<Id> = Vec::new();
                let mut k: usize = 0;
                while k < args.len()
                    invariant
                        0 <= k <= args@.len(),
                        self.wf(),
                        self.blocks@.len() == old(self).blocks@.len(),
                        self.current == old(self).current,
                        self.loops@.len() == old(self).loops@.len(),
                        frames_blocks(*old(self), *self),
                    decreases args@.len() - k,
                {
                    proof {
                        assert(decreases_to!(*e => *args));
                        assert(decreases_to!(*args => args@[k as int]));
                    }
                    let v = self.expression(&args[k], env)?;
                    types.push(v.ty);
                    ids.push(v.id);
                    k += 1;
                }
                match Op::from_chars(op) {
                    Some(operator) => {
                        let ty = operator.result(&types)?;
                        self.emit(ty, Expr::Apply { op: operator, args: ids })
                    },
                    None => {
                        let mut c: usize = 0;
                        while c < self.callees.len()
                            invariant
                                0 <= c <= self.callees@.len(),
                                self.wf(),
                                self.blocks@.len() == old(self).blocks@.len(),
                                self.current == old(self).current,
                                self.loops@.len() == old(self).loops@.len(),
                                frames_blocks(*old(self), *self),
                            decreases self.callees@.len() - c,
                        {
                            let name = chars_of(self.callees[c].0.as_str());
                            if chars_eq(&name, op) {
                                if !types_eq(&self.callees[c].1.arguments, &types) {
                                    return err("call signature mismatch");
                                }
                                let ty = self.callees[c].1.return_type;
                                return self.emit(ty, Expr::Call { function: string_of(op), args: ids });
                            }
                            c += 1;
                        }
                        err("unknown function")
                    },
                }
            },
        }
    }

    /// Ends the current block with `t`.
    fn terminate(&mut self, t: Terminator) -> (r: Result<(), String>)
        requires
            old(self).wf(),
        ensures
            frames_blocks(*old(self), *final(self)),
            final(self).loops@.len() == old(self).loops@.len(),
            final(self).wf(),
            final(self).blocks@.len() == old(self).blocks@.len(),
            final(self).current is None,
            final(self).loops@ == old(self).loops@,
            r is Ok <==> old(self).current is Some,
            r is Ok ==> final(self).blocks@[old(self).current->0 as int].terminator == Some(t),
    {
        let id = match self.current {
            Some(c) => c,
            None => return err("unreachable statement"),
        };
        self.current = None;
        self.blocks[id as usize].terminator = Some(t);
        Ok(())
    }

    /// An edge to `block` passing the values of `names`.
    fn edge(block: Id, names: &Vec<Vec<char>>, env: &Vec<(Vec<char>, Binding)>) -> (r: Result<Edge, String>)
        ensures
            r is Ok <==> forall|i: int| 0 <= i < names@.len() ==> env_has(env@, (#[trigger] names@[i])@),
            r matches Ok(e) ==> e.block == block && e.args@.len() == names@.len() && forall|i: int|
                0 <= i < names@.len() ==> #[trigger] e.args@[i] == env_value(env@, names@[i]@),
    {
        let mut args: Vec<Id> = Vec::new();
        let mut i: usize = 0;
        while i < names.len()
            invariant
                0 <= i <= names@.len(),
                args@.len() == i,
                forall|k: int| 0 <= k < i ==> env_has(env@, (#[trigger] names@[k])@),
                forall|k: int| 0 <= k < i ==> #[trigger] args@[k] == env_value(env@, names@[k]@),
            decreases names@.len() - i,
        {
            match env_find(env, &names[i]) {
                Some(j) => {
                    proof {
                        let n = names@[i as int]@;
                        assert(env@[j as int].0@ == n);
                        let c = choose|c: int|
                            0 <= c < env@.len() && (#[trigger] env@[c]).0@ == n && forall|d: int|
                                0 <= d < c ==> (#[trigger] env@[d]).0@ != n;
                        if c < j {
                        } else if c > j {
                            assert(env@[j as int].0@ != n);
                        }
                        assert(env_has(env@, n));
                    }
                    args.push(env[j].1.id);
                },
                None => {
                    proof {
                        assert(!env_has(env@, names@[i as int]@));
                    }
                    return err("unknown value");
                },
            }
            i += 1;
        }
        Ok(Edge { block, args })
    }

    /// Lowers a list of statements in the environment `env`.
    pub fn statements(&mut self, stmts: &Vec<Statement>, env: &mut Vec<(Vec<char>, Binding)>) -> (r: Result<
        (),
        String,
    >)
        requires
            old(self).wf(),
        ensures
            frames_blocks(*old(self), *final(self)),
            final(self).wf(),
            final(self).blocks@.len() >= old(self).blocks@.len(),
            final(self).loops@.len() == old(self).loops@.len() || r is Err,
            stmts@.len() == 0 ==> r is Ok && *final(self) == *old(self) && *final(env) == *old(env),
            stmts@.len() > 0 && old(self).current is None ==> r is Err,
        decreases stmts, 0nat,
    {
        let mut k: usize = 0;
        while k < stmts.len()
            invariant
                0 <= k <= stmts@.len(),
                self.wf(),
                self.blocks@.len() >= old(self).blocks@.len(),
                self.loops@.len() == old(self).loops@.len(),
                k == 0 ==> *self == *old(self) && *env == *old(env),
                k > 0 ==> old(self).current is Some,
                frames_blocks(*old(self), *self),
            decreases stmts@.len() - k,
        {
            if self.current.is_none() {
                return err("unreachable statement after return, break, continue or an endless loop");
            }
            proof {
                assert(decreases_to!(stmts => stmts@[k as int]));
            }
            match &stmts[k] {
                Statement::Let(name, ty, mutable, expr) => {
                    if env_find(env, name).is_some() {
                        return err("duplicate or shadowed binding");
                    }
                    let value = self.expression(expr, env)?;
                    if value.ty != *ty {
                        return err("binding type mismatch");
                    }
                    env_set(env, name, Binding { id: value.id, ty: value.ty, mutable: *mutable });
                },
                Statement::Assign(name, expr) => {
                    let old_binding = match env_find(env, name) {
                        Some(i) => env[i].1,
                        None => return err("unknown assignment"),
                    };
                    if !old_binding.mutable {
                        return err("cannot assign immutable binding");
                    }
                    let value = self.expression(expr, env)?;
                    if value.ty != old_binding.ty {
                        return err("assignment type mismatch");
                    }
                    env_set(env, name, Binding { id: value.id, ty: value.ty, mutable: true });
                },
                Statement::Return(expr) => {
                    let value = self.expression(expr, env)?;
                    if value.ty != self.return_type {
                        return err("return type mismatch");
                    }
                    self.terminate(Terminator::Return { value: value.id })?;
                },
                Statement::If(..) => {
                    self.lower_if(&stmts[k], env)?;
                },
                Statement::While(condition, body) => {
                    proof {
                        assert(decreases_to!(stmts@[k as int] => *body));
                    }
                    self.loop_body(Some(condition), body, env)?;
                },
                Statement::Loop(body) => {
                    proof {
                        assert(decreases_to!(stmts@[k as int] => *body));
                    }
                    self.loop_body(None, body, env)?;
                },
                Statement::Break => {
                    self.jump_out(true, env)?;
                },
                Statement::Continue => {
                    self.jump_out(false, env)?;
                },
            }
            k += 1;
        }
        Ok(())
    }

    /// `break` (to the exit of the innermost loop) or `continue` (to its
    /// header).
    fn jump_out(&mut self, is_break: bool, env: &Vec<(Vec<char>, Binding)>) -> (r: Result<(), String>)
        requires
            old(self).wf(),
        ensures
            frames_blocks(*old(self), *final(self)),
            final(self).wf(),
            final(self).blocks@.len() == old(self).blocks@.len(),
            final(self).loops@.len() == old(self).loops@.len(),
            r is Ok <==> old(self).loops@.len() > 0 && old(self).current is Some && forall|i: int|
                0 <= i < old(self).loops@.last().names@.len() ==> env_has(
                    env@,
                    (#[trigger] old(self).loops@.last().names@[i])@,
                ),
            r is Ok ==> {
                let l = old(self).loops@.last();
                &&& final(self).current is None
                &&& final(self).blocks@[old(self).current->0 as int].terminator matches Some(
                    Terminator::Jump { edge },
                ) && edge.block == (if is_break { l.exit } else { l.header }) && edge.args@.len()
                    == l.names@.len() && forall|i: int|
                    0 <= i < l.names@.len() ==> #[trigger] edge.args@[i] == env_value(env@, l.names@[i]@)
                &&& final(self).loops@.last().has_break == (l.has_break || is_break)
            },
    {
        let n = self.loops.len();
        if n == 0 {
            return err("break or continue outside a loop");
        }
        let target = if is_break {
            self.loops[n - 1].exit
        } else {
            self.loops[n - 1].header
        };
        let ghost l = self.loops@[n - 1];
        assert(l == old(self).loops@.last());
        let edge = match Builder::edge(target, &self.loops[n - 1].names, env) {
            Ok(e) => e,
            Err(e) => {
                assert(!(forall|i: int| 0 <= i < l.names@.len() ==> env_has(env@, (#[trigger] l.names@[i])@)));
                return Err(e);
            },
        };
        if is_break {
            self.loops[n - 1].has_break = true;
        }
        self.terminate(Terminator::Jump { edge })
    }

    /// `if condition { yes } else { no }`: both arms start in blocks of
    /// their own and meet again in a join block when either falls through.
    fn lower_if(&mut self, s: &Statement, env: &mut Vec<(Vec<char>, Binding)>) -> (r: Result<
        (),
        String,
    >)
        requires
            old(self).wf(),
        ensures
            frames_blocks(*old(self), *final(self)),
            final(self).wf(),
            final(self).blocks@.len() >= old(self).blocks@.len(),
            final(self).loops@.len() == old(self).loops@.len() || r is Err,
            !(*s is If) ==> r is Err,
            old(self).current is None ==> r is Err,
            r is Ok ==> branches_to(
                final(self).blocks@[old(self).current->0 as int].terminator,
                old(self).blocks@.len() as int,
                old(self).blocks@.len() + 1int,
            ),
        decreases s, 1nat,
    {
        let ghost c0 = old(self).current;
        let ghost l0 = old(self).blocks@.len() as int;
        let (condition, yes, no) = match s {
            Statement::If(c, y, n) => (c, y, n),
            _ => return err("expected an if statement"),
        };
        let value = self.expression(condition, env)?;
        if value.ty != Type::Bool {
            return err("if condition must be bool");
        }
        let names = env_names(env);
        let (yes_id, mut yes_env) = self.block(env)?;
        let (no_id, mut no_env) = self.block(env)?;
        let if_true = Builder::edge(yes_id, &names, env)?;
        let if_false = Builder::edge(no_id, &names, env)?;
        self.terminate(Terminator::Branch { condition: value.id, if_true, if_false })?;
        assert(branches_to(self.blocks@[c0->0 as int].terminator, l0, l0 + 1));
        self.current = Some(yes_id);
        let ghost before_yes = *self;
        self.statements(yes, &mut yes_env)?;
        assert(self.blocks@[c0->0 as int].terminator == before_yes.blocks@[c0->0 as int].terminator);
        let yes_end = self.current;
        self.current = Some(no_id);
        let ghost before_no = *self;
        self.statements(no, &mut no_env)?;
        assert(self.blocks@[c0->0 as int].terminator == before_no.blocks@[c0->0 as int].terminator);
        let no_end = self.current;
        self.current = None;
        if yes_end.is_some() || no_end.is_some() {
            let (join, joined) = self.block(env)?;
            if let Some(end) = yes_end {
                let e = Builder::edge(join, &names, &yes_env)?;
                self.blocks[end as usize].terminator = Some(Terminator::Jump { edge: e });
            }
            if let Some(end) = no_end {
                let e = Builder::edge(join, &names, &no_env)?;
                self.blocks[end as usize].terminator = Some(Terminator::Jump { edge: e });
            }
            *env = joined;
            self.current = Some(join);
        }
        Ok(())
    }

    /// `while condition { body }` and `loop { body }`: a header block that
    /// tests the condition, an exit block, and the body between them.
    fn loop_body(
        &mut self,
        condition: Option<&Expression>,
        body: &Vec<Statement>,
        env: &mut Vec<(Vec<char>, Binding)>,
    ) -> (r: Result<(), String>)
        requires
            old(self).wf(),
        ensures
            frames_blocks(*old(self), *final(self)),
            final(self).wf(),
            final(self).blocks@.len() >= old(self).blocks@.len(),
            final(self).loops@.len() == old(self).loops@.len() || r is Err,
            old(self).current is None ==> r is Err,
            r is Ok ==> jumps_to(
                final(self).blocks@[old(self).current->0 as int].terminator,
                old(self).blocks@.len() as int,
            ),
            r is Ok && condition is Some ==> branches_to(
                final(self).blocks@[old(self).blocks@.len() as int].terminator,
                old(self).blocks@.len() + 2int,
                old(self).blocks@.len() + 1int,
            ) && final(self).current == Some((old(self).blocks@.len() + 1) as u32),
        decreases body, 1nat,
    {
        let ghost h = old(self).blocks@.len() as int;
        let ghost c0 = old(self).current;
        let names = env_names(env);
        let (header, mut header_env) = self.block(env)?;
        let (exit, exit_env) = self.block(env)?;
        let into = Builder::edge(header, &names, env)?;
        self.terminate(Terminator::Jump { edge: into })?;
        assert(jumps_to(self.blocks@[c0->0 as int].terminator, h));
        let ghost after_into = *self;
        self.current = Some(header);
        let has_condition = condition.is_some();
        if let Some(c) = condition {
            let value = self.expression(c, &header_env)?;
            if value.ty != Type::Bool {
                return err("while condition must be bool");
            }
            let (body_id, body_env) = self.block(&header_env)?;
            let if_true = Builder::edge(body_id, &names, &header_env)?;
            let if_false = Builder::edge(exit, &names, &header_env)?;
            self.terminate(Terminator::Branch { condition: value.id, if_true, if_false })?;
            assert(branches_to(self.blocks@[h].terminator, h + 2, h + 1));
            self.current = Some(body_id);
            header_env = body_env;
        }
        let ghost before_body = *self;
        self.loops.push(LoopContext { header, exit, names: names.clone(), has_break: false });
        self.statements(body, &mut header_env)?;
        proof {
            assert(self.blocks@[c0->0 as int].terminator == before_body.blocks@[c0->0 as int].terminator);
            if has_condition {
                assert(self.blocks@[h].terminator == before_body.blocks@[h].terminator);
            }
        }
        let ghost after_body = *self;
        if self.current.is_some() {
            let back = Builder::edge(header, &names, &header_env)?;
            self.terminate(Terminator::Jump { edge: back })?;
            proof {
                assert(self.blocks@[c0->0 as int].terminator == after_body.blocks@[c0->0 as int].terminator);
                if has_condition {
                    assert(self.blocks@[h].terminator == after_body.blocks@[h].terminator);
                }
            }
        }
        let has_break = match self.loops.pop() {
            Some(context) => context.has_break,
            None => false,
        };
        if has_condition || has_break {
            self.current = Some(exit);
            *env = exit_env;
        }
        Ok(())
    }
}

} // verus!
