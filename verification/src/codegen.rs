//! Lowering a call-free function to LLVM IR: every value in a stack slot,
//! a step counter checked before every instruction and terminator, and
//! traps returned as a status beside the value.
use vstd::prelude::*;

use crate::formal::{dec, decimal_u64};
use crate::ir::{BlockM, EdgeM, ExprM, Function, FunctionM, Id, Param, TerminatorM};
use crate::normalize::normal_form;
use crate::text::{chars_copy, chars_of, err, extend_chars, string_of};
use crate::types::{spec_eval, spec_value, Op, Type, Value};

verus! {

/// The text written so far and the next fresh number.
pub struct WState {
    pub out: Seq<char>,
    pub next: nat,
}

pub open spec fn size_error() -> Seq<char> {
    "LLVM function exceeds supported size"@
}

pub open spec fn calls_error() -> Seq<char> {
    "LLVM internal calls unsupported"@
}

pub open spec fn undefined_error() -> Seq<char> {
    "LLVM value without a type"@
}

pub open spec fn w_line(st: WState, s: Seq<char>) -> WState {
    WState { out: st.out + s + "\n"@, next: st.next }
}

pub open spec fn w_fresh(st: WState) -> Result<(WState, nat), Seq<char>> {
    if st.next >= u64::MAX {
        Err(size_error())
    } else {
        Ok((WState { out: st.out, next: st.next + 1 }, st.next))
    }
}

/// A fresh value `%t<n>` defined as `s`.
pub open spec fn w_value(st: WState, s: Seq<char>) -> Result<(WState, Seq<char>), Seq<char>> {
    match w_fresh(st) {
        Err(e) => Err(e),
        Ok((st1, k)) => {
            let id = "%t"@ + dec(k);
            Ok((w_line(st1, "  "@ + id + " = "@ + s), id))
        },
    }
}

pub open spec fn width_text(t: Type) -> Seq<char> {
    dec(t.spec_width() as nat)
}

/// The type of value `id`, when it has one.
pub open spec fn type_at(types: Seq<Option<Type>>, id: Id) -> Option<Type> {
    if id < types.len() {
        types[id as int]
    } else {
        None
    }
}

pub open spec fn w_load(st: WState, types: Seq<Option<Type>>, id: Id) -> Result<(WState, Seq<char>), Seq<char>> {
    match type_at(types, id) {
        None => Err(undefined_error()),
        Some(t) => w_value(st, "load i"@ + width_text(t) + ", ptr %s"@ + dec(id as nat)),
    }
}

/// Branches to `failure` when `cond` holds, and goes on at a fresh label.
pub open spec fn w_guard(st: WState, cond: Seq<char>, failure: Seq<char>) -> Result<WState, Seq<char>> {
    match w_fresh(st) {
        Err(e) => Err(e),
        Ok((st1, k)) => {
            let label = "next"@ + dec(k);
            Ok(
                w_line(
                    w_line(st1, "  br i1 "@ + cond + ", label %"@ + failure + ", label %"@ + label),
                    label + ":"@,
                ),
            )
        },
    }
}

/// Counts a step, leaving for `timeout` when `budget` steps were taken.
#[verifier::opaque]
pub open spec fn w_step(st: WState, budget: u64) -> Result<WState, Seq<char>> {
    match w_value(st, "load i64, ptr %steps"@) {
        Err(e) => Err(e),
        Ok((s1, old)) => match w_value(s1, "icmp eq i64 "@ + old + ", "@ + dec(budget as nat)) {
            Err(e) => Err(e),
            Ok((s2, exhausted)) => match w_guard(s2, exhausted, "timeout"@) {
                Err(e) => Err(e),
                Ok(s3) => match w_value(s3, "add i64 "@ + old + ", 1"@) {
                    Err(e) => Err(e),
                    Ok((s4, new)) => Ok(w_line(s4, "  store i64 "@ + new + ", ptr %steps"@)),
                },
            },
        },
    }
}

/// The LLVM instruction name of an operator.
pub open spec fn llvm_name(op: Op) -> Seq<char> {
    op.spec_name()
}

pub open spec fn typed(op: Seq<char>, w: Seq<char>, a: Seq<char>, b: Seq<char>) -> Seq<char> {
    op + " i"@ + w + " "@ + a + ", "@ + b
}

/// The division and remainder guards and the division itself.
pub open spec fn w_division(st: WState, op: Op, a: Seq<char>, b: Seq<char>, w: u32) -> Result<
    (WState, Seq<char>),
    Seq<char>,
> {
    let wt = dec(w as nat);
    match w_value(st, "icmp eq i"@ + wt + " "@ + b + ", 0"@) {
        Err(e) => Err(e),
        Ok((s1, zero)) => match w_guard(s1, zero, "division_zero"@) {
            Err(e) => Err(e),
            Ok(s2) => {
                let checked = if op is Sdiv || op is Srem {
                    match w_value(s2, "icmp eq i"@ + wt + " "@ + a + ", "@ + dec((1u64 << ((w - 1) as u64)) as nat)) {
                        Err(e) => Err(e),
                        Ok((s3, min)) => match w_value(s3, "icmp eq i"@ + wt + " "@ + b + ", -1"@) {
                            Err(e) => Err(e),
                            Ok((s4, minus_one)) => match w_value(s4, "and i1 "@ + min + ", "@ + minus_one) {
                                Err(e) => Err(e),
                                Ok((s5, overflow)) => w_guard(s5, overflow, "division_overflow"@),
                            },
                        },
                    }
                } else {
                    Ok(s2)
                };
                match checked {
                    Err(e) => Err(e),
                    Ok(s6) => w_value(s6, typed(llvm_name(op), wt, a, b)),
                }
            },
        },
    }
}

/// Shifts and rotations, by the amount modulo the width.
pub open spec fn w_shift(st: WState, op: Op, a: Seq<char>, b: Seq<char>, w: u32) -> Result<
    (WState, Seq<char>),
    Seq<char>,
> {
    let wt = dec(w as nat);
    match w_value(st, "urem i"@ + wt + " "@ + b + ", "@ + wt) {
        Err(e) => Err(e),
        Ok((s1, k)) => if op is Rotl || op is Rotr {
            match w_value(s1, "sub i"@ + wt + " "@ + wt + ", "@ + k) {
                Err(e) => Err(e),
                Ok((s2, complement)) => match w_value(s2, "urem i"@ + wt + " "@ + complement + ", "@ + wt) {
                    Err(e) => Err(e),
                    Ok((s3, other)) => {
                        let (left, right) = if op is Rotl {
                            ("shl"@, "lshr"@)
                        } else {
                            ("lshr"@, "shl"@)
                        };
                        match w_value(s3, typed(left, wt, a, k)) {
                            Err(e) => Err(e),
                            Ok((s4, l)) => match w_value(s4, typed(right, wt, a, other)) {
                                Err(e) => Err(e),
                                Ok((s5, r)) => w_value(s5, typed("or"@, wt, l, r)),
                            },
                        }
                    },
                },
            }
        } else {
            w_value(s1, typed(llvm_name(op), wt, a, k))
        },
    }
}

/// What an LLVM shift instruction computes on an `i<w>` value held in the
/// low `w` bits: `shl` shifts left and drops the bits past the width,
/// `lshr` shifts right filling with zeros.
pub open spec fn llvm_shift(name: Seq<char>, x: u64, k: u64, w: u32) -> u64 {
    if name == "shl"@ {
        (x << k) & crate::formal::low_mask(w)
    } else if name == "lshr"@ {
        x >> k
    } else {
        0
    }
}

/// What an LLVM `icmp` with predicate `p` says of two `i<w>` values
/// held in the low bits, as the LLVM reference defines the predicates.
pub open spec fn llvm_icmp(p: Seq<char>, x: u64, y: u64, t: Type) -> bool {
    let sx = crate::formal::twos(x, t);
    let sy = crate::formal::twos(y, t);
    if p == seq!['e', 'q'] {
        x == y
    } else if p == seq!['n', 'e'] {
        x != y
    } else if p == seq!['u', 'l', 't'] {
        x < y
    } else if p == seq!['u', 'l', 'e'] {
        x <= y
    } else if p == seq!['u', 'g', 't'] {
        x > y
    } else if p == seq!['u', 'g', 'e'] {
        x >= y
    } else if p == seq!['s', 'l', 't'] {
        sx < sy
    } else if p == seq!['s', 'l', 'e'] {
        sx <= sy
    } else if p == seq!['s', 'g', 't'] {
        sx > sy
    } else if p == seq!['s', 'g', 'e'] {
        sx >= sy
    } else {
        false
    }
}

/// What an LLVM arithmetic or bitwise instruction named `n` computes on
/// two `i<w>` values: sums, differences and products wrap at the width.
pub open spec fn llvm_arith(n: Seq<char>, x: u64, y: u64, t: Type) -> u64 {
    if n == seq!['a', 'd', 'd'] {
        ((x + y) % t.modulus()) as u64
    } else if n == seq!['s', 'u', 'b'] {
        ((x - y) % t.modulus()) as u64
    } else if n == seq!['m', 'u', 'l'] {
        ((x * y) % t.modulus()) as u64
    } else if n == seq!['a', 'n', 'd'] {
        x & y
    } else if n == seq!['o', 'r'] {
        x | y
    } else if n == seq!['x', 'o', 'r'] {
        x ^ y
    } else {
        0
    }
}

/// One operation of the interpreter against the LLVM instruction the
/// lowering names for it.
#[verifier::rlimit(80)]
proof fn lemma_llvm_value(op: Op, x: Value, y: Value)
    requires
        op is Add || op is Sub || op is Mul || op is And || op is Or || op is Xor || op is Eq || op is Ne || op is Ult
            || op is Ule || op is Ugt || op is Uge || op is Slt || op is Sle || op is Sgt || op is Sge,
        x.ty == y.ty,
        x.wf(),
        y.wf(),
    ensures
        pair_eval(op, x, y) matches Some(v) ==> v.bits == if op is Add || op is Sub || op is Mul || op is And || op is Or
            || op is Xor {
            llvm_arith(llvm_name(op), x.bits, y.bits, x.ty)
        } else {
            crate::types::bool_bits(llvm_icmp(llvm_name(op), x.bits, y.bits, x.ty))
        },
{
    crate::formal::lemma_twos(x);
    crate::formal::lemma_twos(y);
    crate::formal::lemma_bitwise_fits(x.bits, y.bits, x.ty.spec_mask());
    let v = seq![x, y];
    assert(crate::types::types_of(v) =~= seq![x.ty, x.ty]);
    assert(1u64 & 1u64 == 1u64 && 0u64 & 1u64 == 0u64) by (bit_vector);
    let n = llvm_name(op);
    assert(n == op.spec_name());
    assert(n.len() >= 2);
}

/// Every arithmetic, bitwise and comparison operator is lowered to the
/// LLVM instruction or `icmp` predicate that computes the interpreter's
/// result on every two values: a signed predicate compares two's
/// complement readings, a non-strict one holds of equal operands, and a
/// difference subtracts the second operand from the first.
pub proof fn law_llvm_operations(op: Op, t: Type)
    requires
        op is Add || op is Sub || op is Mul || op is And || op is Or || op is Xor || op is Eq || op is Ne || op is Ult
            || op is Ule || op is Ugt || op is Uge || op is Slt || op is Sle || op is Sgt || op is Sge,
    ensures
        forall|x: Value, y: Value|
            x.ty == t && y.ty == t && x.wf() && y.wf() ==> (#[trigger] pair_eval(op, x, y) matches Some(v) ==> v.bits
                == if op is Add || op is Sub || op is Mul || op is And || op is Or || op is Xor {
                llvm_arith(llvm_name(op), x.bits, y.bits, t)
            } else {
                crate::types::bool_bits(llvm_icmp(llvm_name(op), x.bits, y.bits, t))
            }),
{
    assert forall|x: Value, y: Value| x.ty == t && y.ty == t && x.wf() && y.wf() implies (#[trigger] pair_eval(
        op,
        x,
        y,
    ) matches Some(v) ==> v.bits == if op is Add || op is Sub || op is Mul || op is And || op is Or || op is Xor {
        llvm_arith(llvm_name(op), x.bits, y.bits, t)
    } else {
        crate::types::bool_bits(llvm_icmp(llvm_name(op), x.bits, y.bits, t))
    }) by {
        lemma_llvm_value(op, x, y);
    }
}

/// The lowering of a rotation whose first shift is `left` (by the amount
/// modulo the width) and whose second is `right` (by the complement of
/// that amount modulo the width), or-ed together.
pub open spec fn rotate_text(st: WState, left: Seq<char>, right: Seq<char>, a: Seq<char>, b: Seq<char>, w: u32) -> Result<
    (WState, Seq<char>),
    Seq<char>,
> {
    let wt = dec(w as nat);
    match w_value(st, "urem i"@ + wt + " "@ + b + ", "@ + wt) {
        Err(e) => Err(e),
        Ok((s1, k)) => match w_value(s1, "sub i"@ + wt + " "@ + wt + ", "@ + k) {
            Err(e) => Err(e),
            Ok((s2, complement)) => match w_value(s2, "urem i"@ + wt + " "@ + complement + ", "@ + wt) {
                Err(e) => Err(e),
                Ok((s3, other)) => match w_value(s3, typed(left, wt, a, k)) {
                    Err(e) => Err(e),
                    Ok((s4, l)) => match w_value(s4, typed(right, wt, a, other)) {
                        Err(e) => Err(e),
                        Ok((s5, r)) => w_value(s5, typed("or"@, wt, l, r)),
                    },
                },
            },
        },
    }
}

/// Or-ing after a mask, then masking, is or-ing then masking.
pub proof fn lemma_or_mask(a: u64, b: u64, m: u64)
    ensures
        ((a & m) | b) & m == (a | b) & m,
        (b | (a & m)) & m == (b | a) & m,
        a << 0u64 == a,
        a >> 0u64 == a,
        a | a == a,
{
    assert(a | a == a) by (bit_vector);
    assert(((a & m) | b) & m == (a | b) & m) by (bit_vector);
    assert((b | (a & m)) & m == (b | a) & m) by (bit_vector);
    assert(a << 0u64 == a) by (bit_vector);
    assert(a >> 0u64 == a) by (bit_vector);
}

/// One rotation, by the shifts the lowering picks.
#[verifier::rlimit(60)]
proof fn lemma_rotate_value(op: Op, left: Seq<char>, right: Seq<char>, x: Value, y: Value, w: u32)
    requires
        op is Rotl || op is Rotr,
        op is Rotl ==> left == "shl"@ && right == "lshr"@,
        op is Rotr ==> left == "lshr"@ && right == "shl"@,
        "shl"@ != "lshr"@,
        x.ty == y.ty,
        x.ty.spec_integer(),
        x.wf(),
        y.wf(),
        w == x.ty.spec_width(),
    ensures
        pair_eval(op, x, y) == Some(
            spec_value(
                x.ty,
                llvm_shift(left, x.bits, y.bits % (w as u64), w) | llvm_shift(
                    right,
                    x.bits,
                    ((w as u64) - y.bits % (w as u64)) as u64 % (w as u64),
                    w,
                ),
            ),
        ),
{
    let k = y.bits % (w as u64);
    let m = x.ty.spec_mask();
    let wu = w as u64;
    assert(crate::formal::low_mask(w) == m) by {
        assert(u64::MAX >> 63u64 == 1u64) by (bit_vector);
        assert(u64::MAX >> 56u64 == 0xffu64) by (bit_vector);
        assert(u64::MAX >> 48u64 == 0xffffu64) by (bit_vector);
        assert(u64::MAX >> 32u64 == 0xffff_ffffu64) by (bit_vector);
        assert(u64::MAX >> 0u64 == 0xffff_ffff_ffff_ffffu64) by (bit_vector);
    }
    assert(w == 1 || w == 8 || w == 16 || w == 32 || w == 64);
    assert(k < wu) by {
        if w == 1 {} else if w == 8 {} else if w == 16 {} else if w == 32 {} else {}
    }
    let c = ((wu - k) as u64 % wu) as u64;
    if k == 0 {
        assert(wu % wu == 0) by (nonlinear_arith)
            requires
                wu > 0,
        ;
        assert(c == 0);
    } else {
        vstd::arithmetic::div_mod::lemma_small_mod((wu - k) as nat, wu as nat);
        assert(c == wu - k);
    }
    let v = seq![x, y];
    assert(crate::types::types_of(v) =~= seq![x.ty, x.ty]);
    assert(crate::types::spec_result(op, seq![x.ty, x.ty]) == Some(x.ty));
    assert(x.bits & m == x.bits) by {
        crate::types::lemma_masked_le(x.bits, x.ty);
    }
    lemma_or_mask(x.bits << k, x.bits >> c, m);
    lemma_or_mask(x.bits << c, x.bits >> k, m);
    lemma_or_mask(x.bits, x.bits, m);
    let got = spec_eval(op, v);
    if op is Rotl {
        assert(llvm_shift(left, x.bits, k, w) == (x.bits << k) & m);
        assert(llvm_shift(right, x.bits, c, w) == x.bits >> c);
        if k == 0 {
            assert(got == Some(spec_value(x.ty, x.bits)));
        } else {
            assert(got == Some(spec_value(x.ty, (x.bits << k) | (x.bits >> c))));
        }
        assert(spec_value(x.ty, ((x.bits << k) & m) | (x.bits >> c)) == spec_value(x.ty, (x.bits << k) | (x.bits >> c)));
    } else {
        assert(llvm_shift(left, x.bits, k, w) == x.bits >> k);
        assert(llvm_shift(right, x.bits, c, w) == (x.bits << c) & m);
        if k == 0 {
            assert(got == Some(spec_value(x.ty, x.bits)));
        } else {
            assert(got == Some(spec_value(x.ty, (x.bits >> k) | (x.bits << c))));
        }
        assert(spec_value(x.ty, (x.bits >> k) | ((x.bits << c) & m)) == spec_value(x.ty, (x.bits >> k) | (x.bits << c)));
    }
}

/// A rotation is lowered to two LLVM shifts or-ed together whose result
/// is the interpreter's rotation: for a left rotation the first shift
/// moves the bits left by the amount modulo the width and the second moves
/// them right by the complement, and the other way round for a right
/// rotation, for every value and amount.
pub proof fn law_rotate_lowering(st: WState, op: Op, a: Seq<char>, b: Seq<char>, w: u32)
    requires
        op is Rotl || op is Rotr,
    ensures
        exists|left: Seq<char>, right: Seq<char>|
            w_shift(st, op, a, b, w) == rotate_text(st, left, right, a, b, w) && #[trigger] rotates_as(
                op,
                left,
                right,
                w,
            ),
{
    reveal_strlit("shl");
    reveal_strlit("lshr");
    let left = if op is Rotr {
        "lshr"@
    } else {
        "shl"@
    };
    let right = if op is Rotr {
        "shl"@
    } else {
        "lshr"@
    };
    assert("shl"@ != "lshr"@) by {
        assert("shl"@.len() != "lshr"@.len());
    }
    assert(w_shift(st, op, a, b, w) == rotate_text(st, left, right, a, b, w));
    assert forall|x: Value, y: Value|
        x.ty == y.ty && x.ty.spec_integer() && x.wf() && y.wf() && w == x.ty.spec_width() implies #[trigger] pair_eval(
        op,
        x,
        y,
    ) == Some(
        spec_value(
            x.ty,
            llvm_shift(left, x.bits, y.bits % (w as u64), w) | llvm_shift(
                right,
                x.bits,
                ((w as u64) - y.bits % (w as u64)) as u64 % (w as u64),
                w,
            ),
        ),
    ) by {
        lemma_rotate_value(op, left, right, x, y, w);
    }
    assert(rotates_as(op, left, right, w));
}

/// What the interpreter gives for `op` on the operands `x` and `y`.
pub open spec fn pair_eval(op: Op, x: Value, y: Value) -> Option<Value> {
    spec_eval(op, seq![x, y])
}

/// For every value and amount of the width, or-ing the `left` shift by
/// the amount modulo the width with the `right` shift by its complement
/// gives what the interpreter gives for `op`.
pub open spec fn rotates_as(op: Op, left: Seq<char>, right: Seq<char>, w: u32) -> bool {
    forall|x: Value, y: Value|
        x.ty == y.ty && x.ty.spec_integer() && x.wf() && y.wf() && w == x.ty.spec_width() ==> #[trigger] pair_eval(
            op,
            x,
            y,
        ) == Some(
            spec_value(
                x.ty,
                llvm_shift(left, x.bits, y.bits % (w as u64), w) | llvm_shift(
                    right,
                    x.bits,
                    ((w as u64) - y.bits % (w as u64)) as u64 % (w as u64),
                    w,
                ),
            ),
        )
}

/// The value of an expression, after the instructions that compute it.
#[verifier::opaque]
pub open spec fn w_expr(st: WState, types: Seq<Option<Type>>, e: ExprM) -> Result<(WState, Seq<char>), Seq<char>> {
    match e {
        ExprM::Const { value } => Ok((st, dec(value.bits as nat))),
        ExprM::Call { .. } => Err(calls_error()),
        ExprM::Apply { op, args } => if args.len() == 0 {
            Err(undefined_error())
        } else {
            match type_at(types, args[0]) {
                None => Err(undefined_error()),
                Some(t) => {
                    let w = t.spec_width();
                    let wt = dec(w as nat);
                    match w_load(st, types, args[0]) {
                        Err(e) => Err(e),
                        Ok((s1, a)) => {
                            let second = if args.len() > 1 {
                                w_load(s1, types, args[1])
                            } else {
                                Ok((s1, a))
                            };
                            match second {
                                Err(e) => Err(e),
                                Ok((s2, b)) => match op {
                                    Op::Add | Op::Sub | Op::Mul | Op::And | Op::Or | Op::Xor => w_value(
                                        s2,
                                        typed(llvm_name(op), wt, a, b),
                                    ),
                                    Op::Not => w_value(s2, "xor i"@ + wt + " "@ + a + ", -1"@),
                                    Op::Udiv | Op::Sdiv | Op::Urem | Op::Srem => w_division(s2, op, a, b, w),
                                    Op::Shl | Op::Lshr | Op::Ashr | Op::Rotl | Op::Rotr => w_shift(s2, op, a, b, w),
                                    Op::Select => if args.len() < 3 {
                                        Err(undefined_error())
                                    } else {
                                        match (type_at(types, args[1]), type_at(types, args[2])) {
                                            (Some(t1), Some(t2)) => match w_load(s2, types, args[2]) {
                                                Err(e) => Err(e),
                                                Ok((s3, c)) => w_value(
                                                    s3,
                                                    "select i1 "@ + a + ", i"@ + width_text(t1) + " "@ + b + ", i"@
                                                        + width_text(t2) + " "@ + c,
                                                ),
                                            },
                                            _ => Err(undefined_error()),
                                        }
                                    },
                                    _ => w_value(s2, "icmp "@ + typed(llvm_name(op), wt, a, b)),
                                },
                            }
                        },
                    }
                },
            }
        },
    }
}

struct Writer {
    out: Vec<char>,
    next: u64,
    types: Vec<Option<Type>>,
}

impl Writer {
    spec fn st(&self) -> WState {
        WState { out: self.out@, next: self.next as nat }
    }

    fn put(&mut self, lit: &str)
        ensures
            final(self).out@ == old(self).out@ + lit@,
            final(self).next == old(self).next,
            final(self).types@ == old(self).types@,
    {
        let cs = chars_of(lit);
        extend_chars(&mut self.out, &cs);
    }

    fn put_chars(&mut self, cs: &[char])
        ensures
            final(self).out@ == old(self).out@ + cs@,
            final(self).next == old(self).next,
            final(self).types@ == old(self).types@,
    {
        extend_chars(&mut self.out, cs);
    }

    fn line(&mut self, s: &[char])
        ensures
            final(self).st() == w_line(old(self).st(), s@),
            final(self).types@ == old(self).types@,
    {
        self.put_chars(s);
        self.put("\n");
    }

    fn fresh(&mut self) -> (r: Result<u64, String>)
        ensures
            final(self).types@ == old(self).types@,
            match r {
                Ok(k) => w_fresh(old(self).st()) == Ok::<(WState, nat), Seq<char>>((final(self).st(), k as nat)),
                Err(e) => w_fresh(old(self).st()) == Err::<(WState, nat), Seq<char>>(e@),
            },
    {
        if self.next == u64::MAX {
            return err("LLVM function exceeds supported size");
        }
        let k = self.next;
        self.next = self.next + 1;
        Ok(k)
    }

    fn value(&mut self, s: &[char]) -> (r: Result<Vec<char>, String>)
        ensures
            final(self).types@ == old(self).types@,
            match r {
                Ok(id) => w_value(old(self).st(), s@) == Ok::<(WState, Seq<char>), Seq<char>>((final(self).st(), id@)),
                Err(e) => w_value(old(self).st(), s@) == Err::<(WState, Seq<char>), Seq<char>>(e@),
            },
    {
        let k = self.fresh()?;
        let mut id: Vec<char> = chars_of("%t");
        extend_chars(&mut id, &decimal_u64(k));
        let mut text: Vec<char> = chars_of("  ");
        extend_chars(&mut text, &id);
        extend_chars(&mut text, &chars_of(" = "));
        extend_chars(&mut text, s);
        self.line(&text);
        Ok(id)
    }

    fn type_of(&self, id: Id) -> (r: Option<Type>)
        ensures
            r == type_at(self.types@, id),
    {
        if (id as usize) < self.types.len() {
            self.types[id as usize]
        } else {
            None
        }
    }

    fn load(&mut self, id: Id) -> (r: Result<Vec<char>, String>)
        ensures
            final(self).types@ == old(self).types@,
            match r {
                Ok(v) => w_load(old(self).st(), old(self).types@, id) == Ok::<(WState, Seq<char>), Seq<char>>((final(self).st(), v@)),
                Err(e) => w_load(old(self).st(), old(self).types@, id) == Err::<(WState, Seq<char>), Seq<char>>(e@),
            },
    {
        let t = match self.type_of(id) {
            None => {
                return err("LLVM value without a type");
            },
            Some(t) => t,
        };
        let mut text: Vec<char> = chars_of("load i");
        extend_chars(&mut text, &decimal_u64(t.width() as u64));
        extend_chars(&mut text, &chars_of(", ptr %s"));
        extend_chars(&mut text, &decimal_u64(id as u64));
        self.value(&text)
    }

    fn guard(&mut self, cond: &[char], failure: &str) -> (r: Result<(), String>)
        ensures
            final(self).types@ == old(self).types@,
            match r {
                Ok(_) => w_guard(old(self).st(), cond@, failure@) == Ok::<WState, Seq<char>>(final(self).st()),
                Err(e) => w_guard(old(self).st(), cond@, failure@) == Err::<WState, Seq<char>>(e@),
            },
    {
        let k = self.fresh()?;
        let mut label: Vec<char> = chars_of("next");
        extend_chars(&mut label, &decimal_u64(k));
        let mut text: Vec<char> = chars_of("  br i1 ");
        extend_chars(&mut text, cond);
        extend_chars(&mut text, &chars_of(", label %"));
        extend_chars(&mut text, &chars_of(failure));
        extend_chars(&mut text, &chars_of(", label %"));
        extend_chars(&mut text, &label);
        self.line(&text);
        let mut second = chars_copy(&label);
        extend_chars(&mut second, &chars_of(":"));
        self.line(&second);
        Ok(())
    }

    fn step(&mut self, budget: u64) -> (r: Result<(), String>)
        ensures
            final(self).types@ == old(self).types@,
            match r {
                Ok(_) => w_step(old(self).st(), budget) == Ok::<WState, Seq<char>>(final(self).st()),
                Err(e) => w_step(old(self).st(), budget) == Err::<WState, Seq<char>>(e@),
            },
    {
        proof {
            reveal(w_step);
        }
        let old = self.value(&chars_of("load i64, ptr %steps"))?;
        let mut t: Vec<char> = chars_of("icmp eq i64 ");
        extend_chars(&mut t, &old);
        extend_chars(&mut t, &chars_of(", "));
        extend_chars(&mut t, &decimal_u64(budget));
        let exhausted = self.value(&t)?;
        self.guard(&exhausted, "timeout")?;
        let mut u: Vec<char> = chars_of("add i64 ");
        extend_chars(&mut u, &old);
        extend_chars(&mut u, &chars_of(", 1"));
        let new = self.value(&u)?;
        let mut line: Vec<char> = chars_of("  store i64 ");
        extend_chars(&mut line, &new);
        extend_chars(&mut line, &chars_of(", ptr %steps"));
        self.line(&line);
        Ok(())
    }
}

/// `<op> i<w> <a>, <b>`.
fn typed_text(op: &[char], w: &[char], a: &[char], b: &[char]) -> (r: Vec<char>)
    ensures
        r@ == typed(op@, w@, a@, b@),
{
    let mut t = chars_copy(op);
    extend_chars(&mut t, &chars_of(" i"));
    extend_chars(&mut t, w);
    extend_chars(&mut t, &chars_of(" "));
    extend_chars(&mut t, a);
    extend_chars(&mut t, &chars_of(", "));
    extend_chars(&mut t, b);
    t
}

impl Writer {
    fn division(&mut self, op: Op, a: &[char], b: &[char], w: u32) -> (r: Result<Vec<char>, String>)
        requires
            1 <= w <= 64,
        ensures
            final(self).types@ == old(self).types@,
            match r {
                Ok(v) => w_division(old(self).st(), op, a@, b@, w) == Ok::<(WState, Seq<char>), Seq<char>>((final(self).st(), v@)),
                Err(e) => w_division(old(self).st(), op, a@, b@, w) == Err::<(WState, Seq<char>), Seq<char>>(e@),
            },
    {
        let wt = decimal_u64(w as u64);
        let mut t: Vec<char> = chars_of("icmp eq i");
        extend_chars(&mut t, &wt);
        extend_chars(&mut t, &chars_of(" "));
        extend_chars(&mut t, b);
        extend_chars(&mut t, &chars_of(", 0"));
        let zero = self.value(&t)?;
        self.guard(&zero, "division_zero")?;
        if op == Op::Sdiv || op == Op::Srem {
            let mut m: Vec<char> = chars_of("icmp eq i");
            extend_chars(&mut m, &wt);
            extend_chars(&mut m, &chars_of(" "));
            extend_chars(&mut m, a);
            extend_chars(&mut m, &chars_of(", "));
            extend_chars(&mut m, &decimal_u64(1u64 << ((w - 1) as u64)));
            let min = self.value(&m)?;
            let mut n: Vec<char> = chars_of("icmp eq i");
            extend_chars(&mut n, &wt);
            extend_chars(&mut n, &chars_of(" "));
            extend_chars(&mut n, b);
            extend_chars(&mut n, &chars_of(", -1"));
            let minus_one = self.value(&n)?;
            let mut o: Vec<char> = chars_of("and i1 ");
            extend_chars(&mut o, &min);
            extend_chars(&mut o, &chars_of(", "));
            extend_chars(&mut o, &minus_one);
            let overflow = self.value(&o)?;
            self.guard(&overflow, "division_overflow")?;
        }
        self.value(&typed_text(&op.name_chars(), &wt, a, b))
    }

    fn shift(&mut self, op: Op, a: &[char], b: &[char], w: u32) -> (r: Result<Vec<char>, String>)
        requires
            1 <= w <= 64,
        ensures
            final(self).types@ == old(self).types@,
            match r {
                Ok(v) => w_shift(old(self).st(), op, a@, b@, w) == Ok::<(WState, Seq<char>), Seq<char>>((final(self).st(), v@)),
                Err(e) => w_shift(old(self).st(), op, a@, b@, w) == Err::<(WState, Seq<char>), Seq<char>>(e@),
            },
    {
        let wt = decimal_u64(w as u64);
        let mut t: Vec<char> = chars_of("urem i");
        extend_chars(&mut t, &wt);
        extend_chars(&mut t, &chars_of(" "));
        extend_chars(&mut t, b);
        extend_chars(&mut t, &chars_of(", "));
        extend_chars(&mut t, &wt);
        let k = self.value(&t)?;
        if op == Op::Rotl || op == Op::Rotr {
            let mut c: Vec<char> = chars_of("sub i");
            extend_chars(&mut c, &wt);
            extend_chars(&mut c, &chars_of(" "));
            extend_chars(&mut c, &wt);
            extend_chars(&mut c, &chars_of(", "));
            extend_chars(&mut c, &k);
            let complement = self.value(&c)?;
            let mut o: Vec<char> = chars_of("urem i");
            extend_chars(&mut o, &wt);
            extend_chars(&mut o, &chars_of(" "));
            extend_chars(&mut o, &complement);
            extend_chars(&mut o, &chars_of(", "));
            extend_chars(&mut o, &wt);
            let other = self.value(&o)?;
            let (left, right) = if op == Op::Rotl {
                (chars_of("shl"), chars_of("lshr"))
            } else {
                (chars_of("lshr"), chars_of("shl"))
            };
            let l = self.value(&typed_text(&left, &wt, a, &k))?;
            let r = self.value(&typed_text(&right, &wt, a, &other))?;
            self.value(&typed_text(&chars_of("or"), &wt, &l, &r))
        } else {
            self.value(&typed_text(&op.name_chars(), &wt, a, &k))
        }
    }

    fn expression(&mut self, e: &crate::ir::Expr) -> (r: Result<Vec<char>, String>)
        ensures
            final(self).types@ == old(self).types@,
            match r {
                Ok(v) => w_expr(old(self).st(), old(self).types@, e@) == Ok::<(WState, Seq<char>), Seq<char>>((final(self).st(), v@)),
                Err(m) => w_expr(old(self).st(), old(self).types@, e@) == Err::<(WState, Seq<char>), Seq<char>>(m@),
            },
    {
        proof {
            reveal(w_expr);
        }
        match e {
            crate::ir::Expr::Const { value } => Ok(decimal_u64(value.bits)),
            crate::ir::Expr::Call { .. } => err("LLVM internal calls unsupported"),
            crate::ir::Expr::Apply { op, args } => {
                if args.len() == 0 {
                    return err("LLVM value without a type");
                }
                let t = match self.type_of(args[0]) {
                    None => {
                        return err("LLVM value without a type");
                    },
                    Some(t) => t,
                };
                let w = t.width();
                let wt = decimal_u64(w as u64);
                let a = self.load(args[0])?;
                let b = if args.len() > 1 {
                    self.load(args[1])?
                } else {
                    chars_copy(&a)
                };
                match op {
                    Op::Add | Op::Sub | Op::Mul | Op::And | Op::Or | Op::Xor => {
                        self.value(&typed_text(&op.name_chars(), &wt, &a, &b))
                    },
                    Op::Not => {
                        let mut x: Vec<char> = chars_of("xor i");
                        extend_chars(&mut x, &wt);
                        extend_chars(&mut x, &chars_of(" "));
                        extend_chars(&mut x, &a);
                        extend_chars(&mut x, &chars_of(", -1"));
                        self.value(&x)
                    },
                    Op::Udiv | Op::Sdiv | Op::Urem | Op::Srem => self.division(*op, &a, &b, w),
                    Op::Shl | Op::Lshr | Op::Ashr | Op::Rotl | Op::Rotr => self.shift(*op, &a, &b, w),
                    Op::Select => {
                        if args.len() < 3 {
                            return err("LLVM value without a type");
                        }
                        let (t1, t2) = match (self.type_of(args[1]), self.type_of(args[2])) {
                            (Some(t1), Some(t2)) => (t1, t2),
                            _ => {
                                return err("LLVM value without a type");
                            },
                        };
                        let c = self.load(args[2])?;
                        let mut x: Vec<char> = chars_of("select i1 ");
                        extend_chars(&mut x, &a);
                        extend_chars(&mut x, &chars_of(", i"));
                        extend_chars(&mut x, &decimal_u64(t1.width() as u64));
                        extend_chars(&mut x, &chars_of(" "));
                        extend_chars(&mut x, &b);
                        extend_chars(&mut x, &chars_of(", i"));
                        extend_chars(&mut x, &decimal_u64(t2.width() as u64));
                        extend_chars(&mut x, &chars_of(" "));
                        extend_chars(&mut x, &c);
                        self.value(&x)
                    },
                    _ => {
                        let mut x: Vec<char> = chars_of("icmp ");
                        extend_chars(&mut x, &typed_text(&op.name_chars(), &wt, &a, &b));
                        self.value(&x)
                    },
                }
            },
        }
    }
}

// ---------------------------------------------------------------------------
// Blocks, edges and the function.

pub open spec fn store_line(t: Type, v: Seq<char>, id: Id) -> Seq<char> {
    "  store i"@ + width_text(t) + " "@ + v + ", ptr %s"@ + dec(id as nat)
}

/// The instructions `is`, each after a step.
pub open spec fn w_instrs(st: WState, types: Seq<Option<Type>>, is: Seq<crate::ir::InstructionM>, budget: u64) -> Result<
    WState,
    Seq<char>,
>
    decreases is.len(),
{
    if is.len() == 0 {
        Ok(st)
    } else {
        match w_instrs(st, types, is.drop_last(), budget) {
            Err(e) => Err(e),
            Ok(s1) => match w_step(s1, budget) {
                Err(e) => Err(e),
                Ok(s2) => match w_expr(s2, types, is.last().expr) {
                    Err(e) => Err(e),
                    Ok((s3, v)) => Ok(w_line(s3, store_line(is.last().ty, v, is.last().id))),
                },
            },
        }
    }
}

pub open spec fn edge_label(k: nat) -> Seq<char> {
    "edge"@ + dec(k)
}

/// A terminator; jumps and branches leave their edges for later, each
/// under a fresh `edge<k>` label.
pub open spec fn w_term(
    st: WState,
    types: Seq<Option<Type>>,
    t: TerminatorM,
    edges: Seq<(Seq<char>, EdgeM)>,
    result: Seq<char>,
    w: Seq<char>,
) -> Result<(WState, Seq<(Seq<char>, EdgeM)>), Seq<char>> {
    match t {
        TerminatorM::Return { value } => match w_load(st, types, value) {
            Err(e) => Err(e),
            Ok((s1, v)) => match w_value(s1, "insertvalue "@ + result + " zeroinitializer, i"@ + w + " "@ + v + ", 0"@) {
                Err(e) => Err(e),
                Ok((s2, r)) => Ok((w_line(s2, "  ret "@ + result + " "@ + r), edges)),
            },
        },
        TerminatorM::Jump { edge } => {
            let label = edge_label(edges.len());
            Ok((w_line(st, "  br label %"@ + label), edges.push((label, edge))))
        },
        TerminatorM::Branch { condition, if_true, if_false } => match w_load(st, types, condition) {
            Err(e) => Err(e),
            Ok((s1, c)) => {
                let yes = edge_label(edges.len());
                let no = edge_label(edges.len() + 1);
                Ok(
                    (
                        w_line(s1, "  br i1 "@ + c + ", label %"@ + yes + ", label %"@ + no),
                        edges.push((yes, if_true)).push((no, if_false)),
                    ),
                )
            },
        },
    }
}

/// The blocks `bs`, each under its label `b<id>`.
pub open spec fn w_blocks(
    st: WState,
    types: Seq<Option<Type>>,
    bs: Seq<BlockM>,
    budget: u64,
    result: Seq<char>,
    w: Seq<char>,
) -> Result<(WState, Seq<(Seq<char>, EdgeM)>), Seq<char>>
    decreases bs.len(),
{
    if bs.len() == 0 {
        Ok((st, seq![]))
    } else {
        match w_blocks(st, types, bs.drop_last(), budget, result, w) {
            Err(e) => Err(e),
            Ok((s1, edges)) => {
                let b = bs.last();
                match w_instrs(w_line(s1, "b"@ + dec(b.id as nat) + ":"@), types, b.instructions, budget) {
                    Err(e) => Err(e),
                    Ok(s2) => match w_step(s2, budget) {
                        Err(e) => Err(e),
                        Ok(s3) => w_term(s3, types, b.terminator, edges, result, w),
                    },
                }
            },
        }
    }
}

/// The loads of the values `ids`, in order.
pub open spec fn w_loads(st: WState, types: Seq<Option<Type>>, ids: Seq<Id>) -> Result<(WState, Seq<Seq<char>>), Seq<char>>
    decreases ids.len(),
{
    if ids.len() == 0 {
        Ok((st, seq![]))
    } else {
        match w_loads(st, types, ids.drop_last()) {
            Err(e) => Err(e),
            Ok((s1, vs)) => match w_load(s1, types, ids.last()) {
                Err(e) => Err(e),
                Ok((s2, v)) => Ok((s2, vs.push(v))),
            },
        }
    }
}

/// Stores the first `k` values into the first `k` parameters.
pub open spec fn w_stores(st: WState, ps: Seq<Param>, vs: Seq<Seq<char>>, k: nat) -> WState
    decreases k,
{
    if k == 0 {
        st
    } else {
        w_line(w_stores(st, ps, vs, (k - 1) as nat), store_line(ps[k - 1].ty, vs[k - 1], ps[k - 1].id))
    }
}

/// The first block with identifier `id`.
pub open spec fn find_block(bs: Seq<BlockM>, id: Id, from: nat) -> Option<BlockM>
    decreases bs.len() - from,
{
    if from >= bs.len() {
        None
    } else if bs[from as int].id == id {
        Some(bs[from as int])
    } else {
        find_block(bs, id, from + 1)
    }
}

pub open spec fn min_len(a: nat, b: nat) -> nat {
    if a < b {
        a
    } else {
        b
    }
}

/// An edge: its label, the loads of its arguments, the stores into the
/// target's parameters and the branch to the target.
pub open spec fn w_edge(st: WState, types: Seq<Option<Type>>, blocks: Seq<BlockM>, e: EdgeM, label: Seq<char>) -> Result<
    WState,
    Seq<char>,
> {
    match w_loads(w_line(st, label + ":"@), types, e.args) {
        Err(err) => Err(err),
        Ok((s1, vs)) => match find_block(blocks, e.block, 0) {
            None => Err(undefined_error()),
            Some(b) => Ok(
                w_line(
                    w_stores(s1, b.parameters, vs, min_len(b.parameters.len(), vs.len())),
                    "  br label %b"@ + dec(e.block as nat),
                ),
            ),
        },
    }
}

pub open spec fn w_edges(st: WState, types: Seq<Option<Type>>, blocks: Seq<BlockM>, edges: Seq<(Seq<char>, EdgeM)>) -> Result<
    WState,
    Seq<char>,
>
    decreases edges.len(),
{
    if edges.len() == 0 {
        Ok(st)
    } else {
        match w_edges(st, types, blocks, edges.drop_last()) {
            Err(e) => Err(e),
            Ok(s1) => w_edge(s1, types, blocks, edges.last().1, edges.last().0),
        }
    }
}

pub open spec fn edges_view(es: Seq<(Vec<char>, crate::ir::Edge)>) -> Seq<(Seq<char>, EdgeM)> {
    es.map_values(|e: (Vec<char>, crate::ir::Edge)| (e.0@, e.1@))
}

fn copy_edge(e: &crate::ir::Edge) -> (r: crate::ir::Edge)
    ensures
        r@ == e@,
{
    crate::ir::Edge { block: e.block, args: crate::ir::copy_ids(&e.args) }
}

impl Writer {
    #[verifier::spinoff_prover]
    fn instructions(&mut self, is: &Vec<crate::ir::Instruction>, budget: u64) -> (r: Result<(), String>)
        ensures
            final(self).types@ == old(self).types@,
            match r {
                Ok(_) => w_instrs(old(self).st(), old(self).types@, is@.map_values(|i: crate::ir::Instruction| i@), budget)
                    == Ok::<WState, Seq<char>>(final(self).st()),
                Err(e) => w_instrs(old(self).st(), old(self).types@, is@.map_values(|i: crate::ir::Instruction| i@), budget)
                    == Err::<WState, Seq<char>>(e@),
            },
    {
        let ghost iv = is@.map_values(|i: crate::ir::Instruction| i@);
        let ghost st0 = self.st();
        let ghost types = self.types@;
        let mut k: usize = 0;
        assert(iv.take(0) =~= seq![]);
        while k < is.len()
            invariant
                0 <= k <= is@.len(),
                iv == is@.map_values(|i: crate::ir::Instruction| i@),
                iv.len() == is@.len(),
                types == self.types@,
                types == old(self).types@,
                st0 == old(self).st(),
                w_instrs(st0, types, iv.take(k as int), budget) == Ok::<WState, Seq<char>>(self.st()),
            decreases is@.len() - k,
        {
            let ins = &is[k];
            assert(iv[k as int] == ins@);
            assert(iv.take(k + 1 as int).drop_last() =~= iv.take(k as int));
            assert(iv.take(k + 1 as int).last() == ins@);
            match self.step(budget) {
                Ok(_) => {},
                Err(e) => {
                    proof {
                        lemma_instrs_err(st0, types, iv, budget, (k + 1) as nat);
                    }
                    return Err(e);
                },
            }
            let v = match self.expression(&ins.expr) {
                Ok(v) => v,
                Err(e) => {
                    proof {
                        lemma_instrs_err(st0, types, iv, budget, (k + 1) as nat);
                    }
                    return Err(e);
                },
            };
            let mut line: Vec<char> = chars_of("  store i");
            extend_chars(&mut line, &decimal_u64(ins.ty.width() as u64));
            extend_chars(&mut line, &chars_of(" "));
            extend_chars(&mut line, &v);
            extend_chars(&mut line, &chars_of(", ptr %s"));
            extend_chars(&mut line, &decimal_u64(ins.id as u64));
            self.line(&line);
            k += 1;
        }
        assert(iv.take(k as int) =~= iv);
        Ok(())
    }

    fn terminator(
        &mut self,
        t: &crate::ir::Terminator,
        edges: &mut Vec<(Vec<char>, crate::ir::Edge)>,
        result: &[char],
        w: &[char],
    ) -> (r: Result<(), String>)
        requires
            old(edges)@.len() < 16384,
        ensures
            final(self).types@ == old(self).types@,
            edges_view(final(edges)@).len() <= edges_view(old(edges)@).len() + 2,
            match r {
                Ok(_) => w_term(old(self).st(), old(self).types@, t@, edges_view(old(edges)@), result@, w@)
                    == Ok::<(WState, Seq<(Seq<char>, EdgeM)>), Seq<char>>((final(self).st(), edges_view(final(edges)@))),
                Err(e) => w_term(old(self).st(), old(self).types@, t@, edges_view(old(edges)@), result@, w@) == Err::<
                    (WState, Seq<(Seq<char>, EdgeM)>),
                    Seq<char>,
                >(e@),
            },
    {
        let ghost e0 = edges@;
        match t {
            crate::ir::Terminator::Return { value } => {
                let v = self.load(*value)?;
                let mut x: Vec<char> = chars_of("insertvalue ");
                extend_chars(&mut x, result);
                extend_chars(&mut x, &chars_of(" zeroinitializer, i"));
                extend_chars(&mut x, w);
                extend_chars(&mut x, &chars_of(" "));
                extend_chars(&mut x, &v);
                extend_chars(&mut x, &chars_of(", 0"));
                let r = self.value(&x)?;
                let mut line: Vec<char> = chars_of("  ret ");
                extend_chars(&mut line, result);
                extend_chars(&mut line, &chars_of(" "));
                extend_chars(&mut line, &r);
                self.line(&line);
                Ok(())
            },
            crate::ir::Terminator::Jump { edge } => {
                let mut label: Vec<char> = chars_of("edge");
                extend_chars(&mut label, &decimal_u64(edges.len() as u64));
                let mut line: Vec<char> = chars_of("  br label %");
                extend_chars(&mut line, &label);
                self.line(&line);
                edges.push((label, copy_edge(edge)));
                assert(edges_view(edges@) =~= edges_view(e0).push((edge_label(e0.len()), edge@)));
                Ok(())
            },
            crate::ir::Terminator::Branch { condition, if_true, if_false } => {
                let c = self.load(*condition)?;
                let mut yes: Vec<char> = chars_of("edge");
                extend_chars(&mut yes, &decimal_u64(edges.len() as u64));
                let mut no: Vec<char> = chars_of("edge");
                extend_chars(&mut no, &decimal_u64((edges.len() + 1) as u64));
                let mut line: Vec<char> = chars_of("  br i1 ");
                extend_chars(&mut line, &c);
                extend_chars(&mut line, &chars_of(", label %"));
                extend_chars(&mut line, &yes);
                extend_chars(&mut line, &chars_of(", label %"));
                extend_chars(&mut line, &no);
                self.line(&line);
                edges.push((yes, copy_edge(if_true)));
                edges.push((no, copy_edge(if_false)));
                assert(edges_view(edges@) =~= edges_view(e0).push((edge_label(e0.len()), if_true@)).push(
                    (edge_label(e0.len() + 1), if_false@),
                ));
                Ok(())
            },
        }
    }
}

proof fn lemma_instrs_err(st: WState, types: Seq<Option<Type>>, is: Seq<crate::ir::InstructionM>, budget: u64, k: nat)
    requires
        k <= is.len(),
        w_instrs(st, types, is.take(k as int), budget) is Err,
    ensures
        w_instrs(st, types, is, budget) == w_instrs(st, types, is.take(k as int), budget),
    decreases is.len() - k,
{
    if k < is.len() {
        assert(is.take(k + 1 as int).drop_last() =~= is.take(k as int));
        lemma_instrs_err(st, types, is, budget, k + 1);
    } else {
        assert(is.take(k as int) =~= is);
    }
}

pub open spec fn blocks_view(bs: Seq<crate::ir::Block>) -> Seq<BlockM> {
    bs.map_values(|b: crate::ir::Block| b@)
}

impl Writer {
    #[verifier::spinoff_prover]
    fn blocks(
        &mut self,
        bs: &Vec<crate::ir::Block>,
        budget: u64,
        result: &[char],
        w: &[char],
        edges: &mut Vec<(Vec<char>, crate::ir::Edge)>,
    ) -> (r: Result<(), String>)
        requires
            old(edges)@.len() == 0,
            bs@.len() <= 4096,
        ensures
            final(self).types@ == old(self).types@,
            match r {
                Ok(_) => w_blocks(old(self).st(), old(self).types@, blocks_view(bs@), budget, result@, w@)
                    == Ok::<(WState, Seq<(Seq<char>, EdgeM)>), Seq<char>>((final(self).st(), edges_view(final(edges)@))),
                Err(e) => w_blocks(old(self).st(), old(self).types@, blocks_view(bs@), budget, result@, w@) == Err::<
                    (WState, Seq<(Seq<char>, EdgeM)>),
                    Seq<char>,
                >(e@),
            },
    {
        let ghost bv = blocks_view(bs@);
        let ghost st0 = self.st();
        let ghost types = self.types@;
        let mut k: usize = 0;
        assert(bv.take(0) =~= seq![]);
        assert(edges_view(edges@) =~= seq![]);
        while k < bs.len()
            invariant
                0 <= k <= bs@.len(),
                bs@.len() <= 4096,
                bv == blocks_view(bs@),
                bv.len() == bs@.len(),
                types == self.types@,
                types == old(self).types@,
                st0 == old(self).st(),
                edges@.len() <= 2 * k,
                w_blocks(st0, types, bv.take(k as int), budget, result@, w@) == Ok::<
                    (WState, Seq<(Seq<char>, EdgeM)>),
                    Seq<char>,
                >((self.st(), edges_view(edges@))),
            decreases bs@.len() - k,
        {
            let b = &bs[k];
            assert(bv[k as int] == b@);
            assert(bv.take(k + 1 as int).drop_last() =~= bv.take(k as int));
            assert(bv.take(k + 1 as int).last() == b@);
            let mut label: Vec<char> = chars_of("b");
            extend_chars(&mut label, &decimal_u64(b.id as u64));
            extend_chars(&mut label, &chars_of(":"));
            self.line(&label);
            match self.instructions(&b.instructions, budget) {
                Ok(_) => {},
                Err(e) => {
                    proof {
                        lemma_blocks_err(st0, types, bv, budget, result@, w@, (k + 1) as nat);
                    }
                    return Err(e);
                },
            }
            match self.step(budget) {
                Ok(_) => {},
                Err(e) => {
                    proof {
                        lemma_blocks_err(st0, types, bv, budget, result@, w@, (k + 1) as nat);
                    }
                    return Err(e);
                },
            }
            match self.terminator(&b.terminator, edges, result, w) {
                Ok(_) => {},
                Err(e) => {
                    proof {
                        lemma_blocks_err(st0, types, bv, budget, result@, w@, (k + 1) as nat);
                    }
                    return Err(e);
                },
            }
            k += 1;
        }
        assert(bv.take(k as int) =~= bv);
        Ok(())
    }

    fn loads(&mut self, ids: &Vec<Id>) -> (r: Result<Vec<Vec<char>>, String>)
        ensures
            final(self).types@ == old(self).types@,
            match r {
                Ok(vs) => w_loads(old(self).st(), old(self).types@, ids@) == Ok::<(WState, Seq<Seq<char>>), Seq<char>>(
                    (final(self).st(), vs@.map_values(|v: Vec<char>| v@)),
                ),
                Err(e) => w_loads(old(self).st(), old(self).types@, ids@) == Err::<(WState, Seq<Seq<char>>), Seq<char>>(e@),
            },
    {
        let ghost st0 = self.st();
        let ghost types = self.types@;
        let mut vs: Vec<Vec<char>> = Vec::new();
        let mut k: usize = 0;
        assert(ids@.take(0) =~= seq![]);
        assert(vs@.map_values(|v: Vec<char>| v@) =~= seq![]);
        while k < ids.len()
            invariant
                0 <= k <= ids@.len(),
                types == self.types@,
                types == old(self).types@,
                st0 == old(self).st(),
                w_loads(st0, types, ids@.take(k as int)) == Ok::<(WState, Seq<Seq<char>>), Seq<char>>(
                    (self.st(), vs@.map_values(|v: Vec<char>| v@)),
                ),
            decreases ids@.len() - k,
        {
            assert(ids@.take(k + 1 as int).drop_last() =~= ids@.take(k as int));
            let v = match self.load(ids[k]) {
                Ok(v) => v,
                Err(e) => {
                    proof {
                        lemma_loads_err(st0, types, ids@, (k + 1) as nat);
                    }
                    return Err(e);
                },
            };
            let ghost prev = vs@;
            vs.push(v);
            assert(vs@.map_values(|v: Vec<char>| v@) =~= prev.map_values(|v: Vec<char>| v@).push(v@));
            k += 1;
        }
        assert(ids@.take(k as int) =~= ids@);
        Ok(vs)
    }

    fn edge(&mut self, blocks: &Vec<crate::ir::Block>, e: &crate::ir::Edge, label: &[char]) -> (r: Result<(), String>)
        ensures
            final(self).types@ == old(self).types@,
            match r {
                Ok(_) => w_edge(old(self).st(), old(self).types@, blocks_view(blocks@), e@, label@) == Ok::<WState, Seq<char>>(
                    final(self).st(),
                ),
                Err(m) => w_edge(old(self).st(), old(self).types@, blocks_view(blocks@), e@, label@) == Err::<
                    WState,
                    Seq<char>,
                >(m@),
            },
    {
        let ghost bv = blocks_view(blocks@);
        let mut head = chars_copy(label);
        extend_chars(&mut head, &chars_of(":"));
        self.line(&head);
        let vs = self.loads(&e.args)?;
        let mut i: usize = 0;
        while i < blocks.len() && blocks[i].id != e.block
            invariant
                0 <= i <= blocks@.len(),
                bv == blocks_view(blocks@),
                find_block(bv, e.block, 0) == find_block(bv, e.block, i as nat),
            decreases blocks@.len() - i,
        {
            assert(bv[i as int] == blocks@[i as int]@);
            i += 1;
        }
        if i == blocks.len() {
            return err("LLVM value without a type");
        }
        let b = &blocks[i];
        assert(bv[i as int] == b@);
        assert(find_block(bv, e.block, 0) == Some(b@));
        let ghost pv = b@.parameters;
        let ghost vv = vs@.map_values(|v: Vec<char>| v@);
        let n = if b.parameters.len() < vs.len() {
            b.parameters.len()
        } else {
            vs.len()
        };
        let ghost s1 = self.st();
        let mut k: usize = 0;
        while k < n
            invariant
                0 <= k <= n,
                n <= b.parameters@.len(),
                n <= vs@.len(),
                pv == b@.parameters,
                vv == vs@.map_values(|v: Vec<char>| v@),
                self.st() == w_stores(s1, pv, vv, k as nat),
                self.types@ == old(self).types@,
            decreases n - k,
        {
            let p = &b.parameters[k];
            let mut line: Vec<char> = chars_of("  store i");
            extend_chars(&mut line, &decimal_u64(p.ty.width() as u64));
            extend_chars(&mut line, &chars_of(" "));
            extend_chars(&mut line, &vs[k]);
            extend_chars(&mut line, &chars_of(", ptr %s"));
            extend_chars(&mut line, &decimal_u64(p.id as u64));
            assert(vv[k as int] == vs@[k as int]@);
            self.line(&line);
            k += 1;
        }
        let mut tail: Vec<char> = chars_of("  br label %b");
        extend_chars(&mut tail, &decimal_u64(e.block as u64));
        self.line(&tail);
        Ok(())
    }

    fn edges(&mut self, blocks: &Vec<crate::ir::Block>, edges: &Vec<(Vec<char>, crate::ir::Edge)>) -> (r: Result<(), String>)
        ensures
            final(self).types@ == old(self).types@,
            match r {
                Ok(_) => w_edges(old(self).st(), old(self).types@, blocks_view(blocks@), edges_view(edges@)) == Ok::<
                    WState,
                    Seq<char>,
                >(final(self).st()),
                Err(m) => w_edges(old(self).st(), old(self).types@, blocks_view(blocks@), edges_view(edges@)) == Err::<
                    WState,
                    Seq<char>,
                >(m@),
            },
    {
        let ghost ev = edges_view(edges@);
        let ghost st0 = self.st();
        let ghost types = self.types@;
        let mut k: usize = 0;
        assert(ev.take(0) =~= seq![]);
        while k < edges.len()
            invariant
                0 <= k <= edges@.len(),
                ev == edges_view(edges@),
                ev.len() == edges@.len(),
                types == self.types@,
                types == old(self).types@,
                st0 == old(self).st(),
                w_edges(st0, types, blocks_view(blocks@), ev.take(k as int)) == Ok::<WState, Seq<char>>(self.st()),
            decreases edges@.len() - k,
        {
            let item = &edges[k];
            assert(ev[k as int] == (item.0@, item.1@));
            assert(ev.take(k + 1 as int).drop_last() =~= ev.take(k as int));
            assert(ev.take(k + 1 as int).last() == (item.0@, item.1@));
            match self.edge(blocks, &item.1, &item.0) {
                Ok(_) => {},
                Err(m) => {
                    proof {
                        lemma_edges_err(st0, types, blocks_view(blocks@), ev, (k + 1) as nat);
                    }
                    return Err(m);
                },
            }
            k += 1;
        }
        assert(ev.take(k as int) =~= ev);
        Ok(())
    }
}

proof fn lemma_blocks_err(
    st: WState,
    types: Seq<Option<Type>>,
    bs: Seq<BlockM>,
    budget: u64,
    result: Seq<char>,
    w: Seq<char>,
    k: nat,
)
    requires
        k <= bs.len(),
        w_blocks(st, types, bs.take(k as int), budget, result, w) is Err,
    ensures
        w_blocks(st, types, bs, budget, result, w) == w_blocks(st, types, bs.take(k as int), budget, result, w),
    decreases bs.len() - k,
{
    if k < bs.len() {
        assert(bs.take(k + 1 as int).drop_last() =~= bs.take(k as int));
        lemma_blocks_err(st, types, bs, budget, result, w, k + 1);
    } else {
        assert(bs.take(k as int) =~= bs);
    }
}

proof fn lemma_loads_err(st: WState, types: Seq<Option<Type>>, ids: Seq<Id>, k: nat)
    requires
        k <= ids.len(),
        w_loads(st, types, ids.take(k as int)) is Err,
    ensures
        w_loads(st, types, ids) == w_loads(st, types, ids.take(k as int)),
    decreases ids.len() - k,
{
    if k < ids.len() {
        assert(ids.take(k + 1 as int).drop_last() =~= ids.take(k as int));
        lemma_loads_err(st, types, ids, k + 1);
    } else {
        assert(ids.take(k as int) =~= ids);
    }
}

proof fn lemma_edges_err(st: WState, types: Seq<Option<Type>>, blocks: Seq<BlockM>, es: Seq<(Seq<char>, EdgeM)>, k: nat)
    requires
        k <= es.len(),
        w_edges(st, types, blocks, es.take(k as int)) is Err,
    ensures
        w_edges(st, types, blocks, es) == w_edges(st, types, blocks, es.take(k as int)),
    decreases es.len() - k,
{
    if k < es.len() {
        assert(es.take(k + 1 as int).drop_last() =~= es.take(k as int));
        lemma_edges_err(st, types, blocks, es, k + 1);
    } else {
        assert(es.take(k as int) =~= es);
    }
}

// ---------------------------------------------------------------------------
// The function.

pub open spec fn block_defs(b: BlockM) -> Seq<(Id, Type)> {
    b.parameters.map_values(|p: Param| (p.id, p.ty)) + b.instructions.map_values(
        |i: crate::ir::InstructionM| (i.id, i.ty),
    )
}

pub open spec fn blocks_defs(bs: Seq<BlockM>) -> Seq<(Id, Type)>
    decreases bs.len(),
{
    if bs.len() == 0 {
        seq![]
    } else {
        blocks_defs(bs.drop_last()) + block_defs(bs.last())
    }
}

/// Every value with its type, in the order the function defines them:
/// arguments, then each block's parameters and instructions.
pub open spec fn all_defs(g: FunctionM) -> Seq<(Id, Type)> {
    g.parameters.map_values(|p: Param| (p.id, p.ty)) + blocks_defs(g.blocks)
}

/// The type of the last definition of `id`.
pub open spec fn last_type(defs: Seq<(Id, Type)>, id: int) -> Option<Type>
    decreases defs.len(),
{
    if defs.len() == 0 {
        None
    } else if defs.last().0 == id {
        Some(defs.last().1)
    } else {
        last_type(defs.drop_last(), id)
    }
}

/// One past the largest identifier defined.
pub open spec fn table_len(defs: Seq<(Id, Type)>) -> nat
    decreases defs.len(),
{
    if defs.len() == 0 {
        0
    } else {
        let rest = table_len(defs.drop_last());
        if defs.last().0 + 1 > rest {
            (defs.last().0 + 1) as nat
        } else {
            rest
        }
    }
}

/// The type of each value, by identifier.
pub open spec fn type_table(defs: Seq<(Id, Type)>) -> Seq<Option<Type>> {
    Seq::new(table_len(defs), |i: int| last_type(defs, i))
}

pub open spec fn w_allocas(st: WState, types: Seq<Option<Type>>, k: nat) -> WState
    decreases k,
{
    if k == 0 {
        st
    } else {
        let s1 = w_allocas(st, types, (k - 1) as nat);
        match types[k - 1] {
            Some(t) => w_line(s1, "  %s"@ + dec((k - 1) as nat) + " = alloca i"@ + width_text(t)),
            None => s1,
        }
    }
}

pub open spec fn w_param_stores(st: WState, ps: Seq<Param>, k: nat) -> WState
    decreases k,
{
    if k == 0 {
        st
    } else {
        let p = ps[k - 1];
        w_line(
            w_param_stores(st, ps, (k - 1) as nat),
            "  store i"@ + width_text(p.ty) + " %arg"@ + dec(p.id as nat) + ", ptr %s"@ + dec(p.id as nat),
        )
    }
}

pub open spec fn arg_text(p: Param) -> Seq<char> {
    "i"@ + width_text(p.ty) + " %arg"@ + dec(p.id as nat)
}

/// The typed argument list `i<w> %arg<id>, ...`.
pub open spec fn args_text(ps: Seq<Param>) -> Seq<char>
    decreases ps.len(),
{
    if ps.len() == 0 {
        seq![]
    } else if ps.len() == 1 {
        arg_text(ps[0])
    } else {
        args_text(ps.drop_last()) + ", "@ + arg_text(ps.last())
    }
}

pub open spec fn trap_text(label: Seq<char>, result: Seq<char>, w: Seq<char>, status: Seq<char>) -> Seq<char> {
    label + ":\n  ret "@ + result + " {i"@ + w + " 0, i8 "@ + status + "}"@
}

pub open spec fn target_text(w: Seq<char>, args: Seq<char>, result: Seq<char>) -> Seq<char> {
    "define i"@ + w + " @gremlin_target("@ + args + ") {\nentry:\n  %r = call "@ + result + " @gremlin_impl("@ + args
        + ")\n  %status = extractvalue "@ + result
        + " %r, 1\n  %ok = icmp eq i8 %status, 0\n  br i1 %ok, label %done, label %fail\ndone:\n  %value = extractvalue "@
        + result + " %r, 0\n  ret i"@ + w + " %value\nfail:\n  call void @llvm.trap()\n  unreachable\n}"@
}

pub open spec fn status_text(args: Seq<char>, result: Seq<char>) -> Seq<char> {
    "define i8 @gremlin_status("@ + args + ") {\nentry:\n  %r = call "@ + result + " @gremlin_impl("@ + args
        + ")\n  %status = extractvalue "@ + result + " %r, 1\n  ret i8 %status\n}"@
}

pub open spec fn has_calls(g: FunctionM) -> bool {
    g.callees.len() != 0 || !crate::normalize::call_free(g)
}

/// The LLVM module of a normalized function: `gremlin_impl` returns the
/// value and a status (0 completed, 1 division by zero, 2 signed division
/// overflow, 3 step budget exhausted); `gremlin_target` traps unless the
/// status is 0; `gremlin_status` returns the status.
pub open spec fn spec_lower_normalized(g: FunctionM, budget: u64) -> Result<Seq<char>, Seq<char>> {
    if has_calls(g) {
        Err(calls_error())
    } else if crate::eval::block_values(g.blocks) > 65536 || g.blocks.len() > 4096 {
        Err(size_error())
    } else if table_len(all_defs(g)) > 65540 {
        Err(size_error())
    } else {
        let types = type_table(all_defs(g));
        let w = width_text(g.return_type);
        let result = "{i"@ + w + ", i8}"@;
        let args = args_text(g.parameters);
        let s0 = WState { out: seq![], next: 0 };
        let s1 = w_line(
            w_line(
                w_line(s0, "target triple = \"x86_64-unknown-linux-gnu\""@),
                "declare void @llvm.trap() cold noreturn nounwind"@,
            ),
            "define internal "@ + result + " @gremlin_impl("@ + args + ") {\nentry:"@,
        );
        let s2 = w_allocas(s1, types, types.len());
        let s3 = w_line(s2, "  %steps = alloca i64\n  store i64 0, ptr %steps"@);
        let s4 = w_param_stores(s3, g.parameters, g.parameters.len());
        let s5 = w_line(s4, "  br label %b"@ + dec(g.entry as nat));
        match w_blocks(s5, types, g.blocks, budget, result, w) {
            Err(e) => Err(e),
            Ok((s6, edges)) => match w_edges(s6, types, g.blocks, edges) {
                Err(e) => Err(e),
                Ok(s7) => {
                    let s8 = w_line(
                        w_line(
                            w_line(s7, trap_text("division_zero"@, result, w, "1"@)),
                            trap_text("division_overflow"@, result, w, "2"@),
                        ),
                        trap_text("timeout"@, result, w, "3"@),
                    );
                    let s9 = w_line(s8, "}"@);
                    Ok(w_line(w_line(s9, target_text(w, args, result)), status_text(args, result)).out)
                },
            },
        }
    }
}

proof fn lemma_block_values_grow(bs: Seq<BlockM>, k: int)
    requires
        0 <= k <= bs.len(),
    ensures
        crate::eval::block_values(bs.take(k)) <= crate::eval::block_values(bs),
    decreases bs.len() - k,
{
    if k < bs.len() {
        lemma_block_values_grow(bs, k + 1);
        assert(bs.take(k + 1).drop_last() =~= bs.take(k));
    } else {
        assert(bs.take(k) =~= bs);
    }
}

/// The function has no calls.
fn call_free_function(g: &Function) -> (r: bool)
    ensures
        r == !has_calls(g@),
{
    if g.callees.len() != 0 {
        return false;
    }
    let ghost gm = g@;
    let mut b: usize = 0;
    while b < g.blocks.len()
        invariant
            0 <= b <= g.blocks@.len(),
            gm == g@,
            forall|x: int, i: int|
                0 <= x < b && 0 <= i < gm.blocks[x].instructions.len() ==> !(
                #[trigger] gm.blocks[x].instructions[i]).expr.is_call(),
        decreases g.blocks@.len() - b,
    {
        let block = &g.blocks[b];
        assert(gm.blocks[b as int] == block@);
        let mut i: usize = 0;
        while i < block.instructions.len()
            invariant
                0 <= i <= block.instructions@.len(),
                gm == g@,
                b < g.blocks@.len(),
                block == &g.blocks@[b as int],
                gm.blocks[b as int] == block@,
                forall|x: int, j: int|
                    0 <= x < b && 0 <= j < gm.blocks[x].instructions.len() ==> !(
                    #[trigger] gm.blocks[x].instructions[j]).expr.is_call(),
                forall|j: int| 0 <= j < i ==> !(#[trigger] gm.blocks[b as int].instructions[j]).expr.is_call(),
            decreases block.instructions@.len() - i,
        {
            assert(gm.blocks[b as int].instructions[i as int] == block.instructions@[i as int]@);
            match &block.instructions[i].expr {
                crate::ir::Expr::Call { .. } => {
                    return false;
                },
                _ => {},
            }
            i += 1;
        }
        b += 1;
    }
    true
}

/// The number of values the blocks define, when it is at most 65536.
fn small_count(g: &Function) -> (r: bool)
    ensures
        r == (crate::eval::block_values(g@.blocks) <= 65536),
{
    let ghost bs = g@.blocks;
    let mut total: usize = 0;
    let mut b: usize = 0;
    assert(bs.take(0) =~= seq![]);
    while b < g.blocks.len()
        invariant
            0 <= b <= g.blocks@.len(),
            bs == g@.blocks,
            bs.len() == g.blocks@.len(),
            total == crate::eval::block_values(bs.take(b as int)),
            total <= 65536,
        decreases g.blocks@.len() - b,
    {
        let block = &g.blocks[b];
        assert(bs[b as int] == block@);
        assert(bs.take(b + 1 as int).drop_last() =~= bs.take(b as int));
        let n = block.instructions.len();
        let m = block.parameters.len();
        if n > 65536 || m > 65536 || total + n + m > 65536 {
            proof {
                lemma_block_values_grow(bs, b + 1);
            }
            return false;
        }
        total = total + n + m;
        b += 1;
    }
    assert(bs.take(b as int) =~= bs);
    true
}

/// Every value with its type, in definition order.
pub(crate) fn definitions(g: &Function) -> (r: Vec<(Id, Type)>)
    ensures
        r@ == all_defs(g@),
{
    let ghost gm = g@;
    let mut defs: Vec<(Id, Type)> = Vec::new();
    let mut k: usize = 0;
    while k < g.parameters.len()
        invariant
            0 <= k <= g.parameters@.len(),
            gm == g@,
            defs@ == gm.parameters.take(k as int).map_values(|p: Param| (p.id, p.ty)),
        decreases g.parameters@.len() - k,
    {
        defs.push((g.parameters[k].id, g.parameters[k].ty));
        k += 1;
        assert(defs@ =~= gm.parameters.take(k as int).map_values(|p: Param| (p.id, p.ty)));
    }
    assert(gm.parameters.take(k as int) =~= gm.parameters);
    let ghost head = defs@;
    let mut b: usize = 0;
    assert(gm.blocks.take(0) =~= seq![]);
    assert(defs@ =~= head + blocks_defs(gm.blocks.take(0)));
    while b < g.blocks.len()
        invariant
            0 <= b <= g.blocks@.len(),
            gm == g@,
            defs@ == head + blocks_defs(gm.blocks.take(b as int)),
        decreases g.blocks@.len() - b,
    {
        let block = &g.blocks[b];
        assert(gm.blocks[b as int] == block@);
        let ghost before = defs@;
        let mut i: usize = 0;
        while i < block.parameters.len()
            invariant
                0 <= i <= block.parameters@.len(),
                defs@ == before + block.parameters@.take(i as int).map_values(|p: Param| (p.id, p.ty)),
            decreases block.parameters@.len() - i,
        {
            defs.push((block.parameters[i].id, block.parameters[i].ty));
            i += 1;
            assert(defs@ =~= before + block.parameters@.take(i as int).map_values(|p: Param| (p.id, p.ty)));
        }
        assert(block.parameters@.take(i as int) =~= block.parameters@);
        let ghost middle = defs@;
        let ghost iv = block@.instructions;
        let mut j: usize = 0;
        while j < block.instructions.len()
            invariant
                0 <= j <= block.instructions@.len(),
                iv == block@.instructions,
                iv.len() == block.instructions@.len(),
                defs@ == middle + iv.take(j as int).map_values(|x: crate::ir::InstructionM| (x.id, x.ty)),
            decreases block.instructions@.len() - j,
        {
            assert(iv[j as int] == block.instructions@[j as int]@);
            defs.push((block.instructions[j].id, block.instructions[j].ty));
            j += 1;
            assert(defs@ =~= middle + iv.take(j as int).map_values(|x: crate::ir::InstructionM| (x.id, x.ty)));
        }
        assert(iv.take(j as int) =~= iv);
        assert(gm.blocks.take(b + 1 as int).drop_last() =~= gm.blocks.take(b as int));
        assert(defs@ =~= head + blocks_defs(gm.blocks.take(b + 1 as int)));
        b += 1;
    }
    assert(gm.blocks.take(b as int) =~= gm.blocks);
    defs
}

/// The type table of the definitions, when no identifier exceeds 65539.
fn types_of(defs: &Vec<(Id, Type)>) -> (r: Option<Vec<Option<Type>>>)
    ensures
        r is Some <==> table_len(defs@) <= 65540,
        r matches Some(t) ==> t@ == type_table(defs@),
{
    let mut len: usize = 0;
    let mut k: usize = 0;
    assert(defs@.take(0) =~= seq![]);
    while k < defs.len()
        invariant
            0 <= k <= defs@.len(),
            len == table_len(defs@.take(k as int)),
            len <= 65540,
        decreases defs@.len() - k,
    {
        assert(defs@.take(k + 1 as int).drop_last() =~= defs@.take(k as int));
        let id = defs[k].0;
        if id >= 65540 {
            proof {
                lemma_table_len_grow(defs@, k + 1);
            }
            return None;
        }
        if id as usize + 1 > len {
            len = id as usize + 1;
        }
        k += 1;
    }
    assert(defs@.take(k as int) =~= defs@);
    let mut table: Vec<Option<Type>> = Vec::new();
    let mut i: usize = 0;
    while i < len
        invariant
            0 <= i <= len,
            table@.len() == i,
            forall|j: int| 0 <= j < i ==> table@[j] is None,
        decreases len - i,
    {
        table.push(None);
        i += 1;
    }
    let mut d: usize = 0;
    assert(forall|x: int| 0 <= x < len ==> last_type(defs@.take(0), x) is None);
    while d < defs.len()
        invariant
            0 <= d <= defs@.len(),
            len == table_len(defs@),
            table@.len() == len,
            forall|x: int| 0 <= x < len ==> #[trigger] table@[x] == last_type(defs@.take(d as int), x),
        decreases defs@.len() - d,
    {
        let (id, t) = defs[d];
        proof {
            lemma_table_len_bound(defs@, d as int);
        }
        let ghost prev = table@;
        table.set(id as usize, Some(t));
        assert(defs@.take(d + 1 as int).drop_last() =~= defs@.take(d as int));
        assert forall|x: int| 0 <= x < len implies #[trigger] table@[x] == last_type(defs@.take(d + 1 as int), x) by {
            assert(defs@.take(d + 1 as int).last() == (id, t));
        }
        d += 1;
    }
    assert(defs@.take(d as int) =~= defs@);
    assert(table@ =~= type_table(defs@));
    Some(table)
}

proof fn lemma_table_len_grow(defs: Seq<(Id, Type)>, k: int)
    requires
        0 <= k <= defs.len(),
    ensures
        table_len(defs.take(k)) <= table_len(defs),
    decreases defs.len() - k,
{
    if k < defs.len() {
        lemma_table_len_grow(defs, k + 1);
        assert(defs.take(k + 1).drop_last() =~= defs.take(k));
    } else {
        assert(defs.take(k) =~= defs);
    }
}

proof fn lemma_table_len_bound(defs: Seq<(Id, Type)>, d: int)
    requires
        0 <= d < defs.len(),
    ensures
        defs[d].0 < table_len(defs),
    decreases defs.len(),
{
    if d < defs.len() - 1 {
        lemma_table_len_bound(defs.drop_last(), d);
    }
}

fn args_chars(ps: &Vec<Param>) -> (r: Vec<char>)
    ensures
        r@ == args_text(ps@),
{
    let mut out: Vec<char> = Vec::new();
    let mut k: usize = 0;
    while k < ps.len()
        invariant
            0 <= k <= ps@.len(),
            out@ == args_text(ps@.take(k as int)),
        decreases ps@.len() - k,
    {
        if k > 0 {
            extend_chars(&mut out, &chars_of(", "));
        }
        extend_chars(&mut out, &chars_of("i"));
        extend_chars(&mut out, &decimal_u64(ps[k].ty.width() as u64));
        extend_chars(&mut out, &chars_of(" %arg"));
        extend_chars(&mut out, &decimal_u64(ps[k].id as u64));
        proof {
            let t = ps@.take(k + 1 as int);
            assert(t.drop_last() =~= ps@.take(k as int));
            assert(t.last() == ps@[k as int]);
            if k == 0 {
                assert(t.len() == 1);
                assert(args_text(ps@.take(0)) == Seq::<char>::empty());
            }
        }
        k += 1;
    }
    assert(ps@.take(k as int) =~= ps@);
    out
}

impl Writer {
    fn allocas(&mut self)
        ensures
            final(self).st() == w_allocas(old(self).st(), old(self).types@, old(self).types@.len()),
            final(self).types@ == old(self).types@,
    {
        let ghost st0 = self.st();
        let mut k: usize = 0;
        while k < self.types.len()
            invariant
                0 <= k <= self.types@.len(),
                self.types@ == old(self).types@,
                st0 == old(self).st(),
                self.st() == w_allocas(st0, self.types@, k as nat),
            decreases self.types@.len() - k,
        {
            match self.types[k] {
                Some(t) => {
                    let mut line: Vec<char> = chars_of("  %s");
                    extend_chars(&mut line, &decimal_u64(k as u64));
                    extend_chars(&mut line, &chars_of(" = alloca i"));
                    extend_chars(&mut line, &decimal_u64(t.width() as u64));
                    self.line(&line);
                },
                None => {},
            }
            k += 1;
        }
    }

    fn param_stores(&mut self, ps: &Vec<Param>)
        ensures
            final(self).st() == w_param_stores(old(self).st(), ps@, ps@.len()),
            final(self).types@ == old(self).types@,
    {
        let ghost st0 = self.st();
        let mut k: usize = 0;
        while k < ps.len()
            invariant
                0 <= k <= ps@.len(),
                self.types@ == old(self).types@,
                st0 == old(self).st(),
                self.st() == w_param_stores(st0, ps@, k as nat),
            decreases ps@.len() - k,
        {
            let p = ps[k];
            let mut line: Vec<char> = chars_of("  store i");
            extend_chars(&mut line, &decimal_u64(p.ty.width() as u64));
            extend_chars(&mut line, &chars_of(" %arg"));
            extend_chars(&mut line, &decimal_u64(p.id as u64));
            extend_chars(&mut line, &chars_of(", ptr %s"));
            extend_chars(&mut line, &decimal_u64(p.id as u64));
            self.line(&line);
            k += 1;
        }
    }

    fn trap(&mut self, label: &str, result: &[char], w: &[char], status: &str)
        ensures
            final(self).st() == w_line(old(self).st(), trap_text(label@, result@, w@, status@)),
            final(self).types@ == old(self).types@,
    {
        let mut line = chars_of(label);
        extend_chars(&mut line, &chars_of(":\n  ret "));
        extend_chars(&mut line, result);
        extend_chars(&mut line, &chars_of(" {i"));
        extend_chars(&mut line, w);
        extend_chars(&mut line, &chars_of(" 0, i8 "));
        extend_chars(&mut line, &chars_of(status));
        extend_chars(&mut line, &chars_of("}"));
        self.line(&line);
    }
}

/// The LLVM module of a normalized function; see `spec_lower_normalized`.
#[verifier::spinoff_prover]
pub fn lower_normalized(g: &Function, max_steps: u64) -> (r: Result<String, String>)
    ensures
        match r {
            Ok(t) => spec_lower_normalized(g@, max_steps) == Ok::<Seq<char>, Seq<char>>(t@),
            Err(e) => spec_lower_normalized(g@, max_steps) == Err::<Seq<char>, Seq<char>>(e@),
        },
{
    if !call_free_function(g) {
        return err("LLVM internal calls unsupported");
    }
    if !small_count(g) || g.blocks.len() > 4096 {
        return err("LLVM function exceeds supported size");
    }
    let defs = definitions(g);
    let types = match types_of(&defs) {
        None => {
            return err("LLVM function exceeds supported size");
        },
        Some(t) => t,
    };
    let w = decimal_u64(g.return_type.width() as u64);
    let mut result: Vec<char> = chars_of("{i");
    extend_chars(&mut result, &w);
    extend_chars(&mut result, &chars_of(", i8}"));
    let args = args_chars(&g.parameters);
    let mut writer = Writer { out: Vec::new(), next: 0, types };
    assert(writer.out@ =~= seq![]);
    writer.line(&chars_of("target triple = \"x86_64-unknown-linux-gnu\""));
    writer.line(&chars_of("declare void @llvm.trap() cold noreturn nounwind"));
    let mut define: Vec<char> = chars_of("define internal ");
    extend_chars(&mut define, &result);
    extend_chars(&mut define, &chars_of(" @gremlin_impl("));
    extend_chars(&mut define, &args);
    extend_chars(&mut define, &chars_of(") {\nentry:"));
    writer.line(&define);
    writer.allocas();
    writer.line(&chars_of("  %steps = alloca i64\n  store i64 0, ptr %steps"));
    writer.param_stores(&g.parameters);
    let mut entry: Vec<char> = chars_of("  br label %b");
    extend_chars(&mut entry, &decimal_u64(g.entry as u64));
    writer.line(&entry);
    let mut edges: Vec<(Vec<char>, crate::ir::Edge)> = Vec::new();
    writer.blocks(&g.blocks, max_steps, &result, &w, &mut edges)?;
    writer.edges(&g.blocks, &edges)?;
    writer.trap("division_zero", &result, &w, "1");
    writer.trap("division_overflow", &result, &w, "2");
    writer.trap("timeout", &result, &w, "3");
    writer.line(&chars_of("}"));
    let mut target: Vec<char> = chars_of("define i");
    extend_chars(&mut target, &w);
    extend_chars(&mut target, &chars_of(" @gremlin_target("));
    extend_chars(&mut target, &args);
    extend_chars(&mut target, &chars_of(") {\nentry:\n  %r = call "));
    extend_chars(&mut target, &result);
    extend_chars(&mut target, &chars_of(" @gremlin_impl("));
    extend_chars(&mut target, &args);
    extend_chars(&mut target, &chars_of(")\n  %status = extractvalue "));
    extend_chars(&mut target, &result);
    extend_chars(
        &mut target,
        &chars_of(" %r, 1\n  %ok = icmp eq i8 %status, 0\n  br i1 %ok, label %done, label %fail\ndone:\n  %value = extractvalue "),
    );
    extend_chars(&mut target, &result);
    extend_chars(&mut target, &chars_of(" %r, 0\n  ret i"));
    extend_chars(&mut target, &w);
    extend_chars(&mut target, &chars_of(" %value\nfail:\n  call void @llvm.trap()\n  unreachable\n}"));
    writer.line(&target);
    let mut status: Vec<char> = chars_of("define i8 @gremlin_status(");
    extend_chars(&mut status, &args);
    extend_chars(&mut status, &chars_of(") {\nentry:\n  %r = call "));
    extend_chars(&mut status, &result);
    extend_chars(&mut status, &chars_of(" @gremlin_impl("));
    extend_chars(&mut status, &args);
    extend_chars(&mut status, &chars_of(")\n  %status = extractvalue "));
    extend_chars(&mut status, &result);
    extend_chars(&mut status, &chars_of(" %r, 1\n  ret i8 %status\n}"));
    writer.line(&status);
    Ok(string_of(&writer.out))
}

/// `r` is the text or the error that `s` describes.
pub open spec fn lowered_as(r: Result<String, String>, s: Result<Seq<char>, Seq<char>>) -> bool {
    match r {
        Ok(t) => s == Ok::<Seq<char>, Seq<char>>(t@),
        Err(e) => s == Err::<Seq<char>, Seq<char>>(e@),
    }
}

/// The LLVM module of a function, after normalization: the function must
/// validate, make no calls, define at most 65536 values in at most 4096
/// blocks.
pub fn lower(function: &Function, max_steps: u64) -> (r: Result<String, String>)
    ensures
        r is Ok ==> crate::validate::shape_ok(function@) && crate::validate::wf(function@),
        r matches Ok(t) ==> exists|g: FunctionM|
            normal_form(function@, g) && spec_lower_normalized(g, max_steps) == Ok::<Seq<char>, Seq<char>>(t@),
        crate::normalize::normalizable(function@) ==> exists|g: FunctionM|
            normal_form(function@, g) && #[trigger] lowered_as(r, spec_lower_normalized(g, max_steps)),
{
    let g = function.normalized()?;
    let r = lower_normalized(&g, max_steps);
    proof {
        assert(normal_form(function@, g@));
        assert(lowered_as(r, spec_lower_normalized(g@, max_steps)));
    }
    r
}

} // verus!
