//! Bit-vector terms for an SMT solver: the symbolic meaning of a
//! straight-line candidate, the equivalence query, and the reading of the
//! solver's answers.
use vstd::prelude::*;

use crate::ir::{Expr, ExprM, Function, FunctionM, Id, InstructionM, Param, Terminator, TerminatorM};
use crate::text::{chars_copy, chars_of, err, extend_chars, string_of};
use crate::eval::{same_outcome, Execution, Outcome, OutcomeM};
use crate::types::{Op, Type, Value};
use crate::validate::shape_ok;

verus! {

/// The decimal digit `d`.
pub open spec fn digit(d: nat) -> char {
    ((48 + d) as u8) as char
}

/// The decimal numeral of `n`, without leading zeros.
pub open spec fn dec(n: nat) -> Seq<char>
    decreases n,
{
    if n < 10 {
        seq![digit(n)]
    } else {
        dec(n / 10).push(digit(n % 10))
    }
}

/// The decimal numeral of `n`.
pub fn decimal_u64(n: u64) -> (r: Vec<char>)
    ensures
        r@ == dec(n as nat),
    decreases n,
{
    if n < 10 {
        vec![(48u8 + n as u8) as char]
    } else {
        let mut v = decimal_u64(n / 10);
        v.push((48u8 + (n % 10) as u8) as char);
        v
    }
}

/// Appends the characters of `lit`.
fn put(out: &mut Vec<char>, lit: &str)
    ensures
        final(out)@ == old(out)@ + lit@,
{
    let cs = chars_of(lit);
    extend_chars(out, &cs);
}

/// The low `width` bits set, for a width of 1 to 64.
pub open spec fn low_mask(width: u32) -> u64 {
    u64::MAX >> ((64 - width) as u64)
}

/// The bit-vector literal of the low `width` bits of `value`.
pub open spec fn spec_bv(value: u64, width: u32) -> Seq<char> {
    "(_ bv"@ + dec((value & low_mask(width)) as nat) + " "@ + dec(width as nat) + ")"@
}

/// The bit-vector literal of the low `width` bits of `value`.
pub fn bv(value: u64, width: u32) -> (r: String)
    requires
        1 <= width <= 64,
    ensures
        r@ == spec_bv(value, width),
{
    let mut out: Vec<char> = Vec::new();
    put(&mut out, "(_ bv");
    let masked = value & (u64::MAX >> ((64 - width) as u64));
    extend_chars(&mut out, &decimal_u64(masked));
    put(&mut out, " ");
    extend_chars(&mut out, &decimal_u64(width as u64));
    put(&mut out, ")");
    string_of(&out)
}

fn bv_chars(value: u64, width: u32) -> (r: Vec<char>)
    requires
        1 <= width <= 64,
    ensures
        r@ == spec_bv(value, width),
{
    let s = bv(value, width);
    chars_of(s.as_str())
}

/// The symbolic meaning of a candidate: its definitions, its value, the
/// condition under which it completes, and its trap code.
#[derive(Clone, Debug)]
pub struct Symbolic {
    pub definitions: String,
    pub value: String,
    pub completed: String,
    pub trap: String,
}

pub struct SymbolicM {
    pub definitions: Seq<char>,
    pub value: Seq<char>,
    pub completed: Seq<char>,
    pub trap: Seq<char>,
}

impl View for Symbolic {
    type V = SymbolicM;

    open spec fn view(&self) -> SymbolicM {
        SymbolicM {
            definitions: self.definitions@,
            value: self.value@,
            completed: self.completed@,
            trap: self.trap@,
        }
    }
}

/// A name in scope: the value's identifier, its term and its type.
pub type Entry = (Id, Seq<char>, Type);

/// A trap: its condition and its two-bit reason.
pub type TrapM = (Seq<char>, Seq<char>);

/// The latest binding of `id`.
pub open spec fn lookup(env: Seq<Entry>, id: Id) -> Option<(Seq<char>, Type)>
    decreases env.len(),
{
    if env.len() == 0 {
        None
    } else if env.last().0 == id {
        Some((env.last().1, env.last().2))
    } else {
        lookup(env.drop_last(), id)
    }
}

pub open spec fn undefined() -> Seq<char> {
    "formal candidate refers to an undefined value"@
}

pub open spec fn binary(name: Seq<char>, a: Seq<char>, b: Seq<char>) -> Seq<char> {
    "("@ + name + " "@ + a + " "@ + b + ")"@
}

pub open spec fn comparison(name: Seq<char>, a: Seq<char>, b: Seq<char>) -> Seq<char> {
    "(ite "@ + binary(name, a, b) + " #b1 #b0)"@
}

/// The term of an operator other than `Select`, on operands `a` and `b` of
/// width `w`, and the traps it adds.
pub open spec fn op_term(op: Op, a: Seq<char>, b: Seq<char>, w: u32) -> (Seq<char>, Seq<TrapM>) {
    let zero = spec_bv(0, w);
    let k = "(bvurem "@ + b + " "@ + spec_bv(w as u64, w) + ")"@;
    let by_zero = seq![("(= "@ + b + " "@ + zero + ")"@, "#b01"@)];
    let overflow = seq![
        (
            "(and (= "@ + a + " "@ + spec_bv(1u64 << ((w - 1) as u64), w) + ") (= "@ + b + " "@
                + spec_bv(u64::MAX, w) + "))"@,
            "#b10"@,
        ),
    ];
    match op {
        Op::Add => (binary("bvadd"@, a, b), seq![]),
        Op::Sub => (binary("bvsub"@, a, b), seq![]),
        Op::Mul => (binary("bvmul"@, a, b), seq![]),
        Op::And => (binary("bvand"@, a, b), seq![]),
        Op::Or => (binary("bvor"@, a, b), seq![]),
        Op::Xor => (binary("bvxor"@, a, b), seq![]),
        Op::Not => ("(bvnot "@ + a + ")"@, seq![]),
        Op::Udiv => (binary("bvudiv"@, a, b), by_zero),
        Op::Sdiv => (binary("bvsdiv"@, a, b), by_zero + overflow),
        Op::Urem => (binary("bvurem"@, a, b), by_zero),
        Op::Srem => (binary("bvsrem"@, a, b), by_zero + overflow),
        Op::Shl => ("(bvshl "@ + a + " "@ + k + ")"@, seq![]),
        Op::Lshr => ("(bvlshr "@ + a + " "@ + k + ")"@, seq![]),
        Op::Ashr => ("(bvashr "@ + a + " "@ + k + ")"@, seq![]),
        Op::Rotl => (
            "(bvor (bvshl "@ + a + " "@ + k + ") (bvlshr "@ + a + " (bvsub "@ + spec_bv(w as u64, w)
                + " "@ + k + ")))"@,
            seq![],
        ),
        Op::Rotr => (
            "(bvor (bvlshr "@ + a + " "@ + k + ") (bvshl "@ + a + " (bvsub "@ + spec_bv(w as u64, w)
                + " "@ + k + ")))"@,
            seq![],
        ),
        Op::Eq => (comparison("="@, a, b), seq![]),
        Op::Ne => ("(ite (= "@ + a + " "@ + b + ") #b0 #b1)"@, seq![]),
        Op::Ult => (comparison("bvult"@, a, b), seq![]),
        Op::Ule => (comparison("bvule"@, a, b), seq![]),
        Op::Ugt => (comparison("bvugt"@, a, b), seq![]),
        Op::Uge => (comparison("bvuge"@, a, b), seq![]),
        Op::Slt => (comparison("bvslt"@, a, b), seq![]),
        Op::Sle => (comparison("bvsle"@, a, b), seq![]),
        Op::Sgt => (comparison("bvsgt"@, a, b), seq![]),
        Op::Sge => (comparison("bvsge"@, a, b), seq![]),
        Op::Select => (seq![], seq![]),
    }
}

/// SMT-LIB's two's-complement reading of a bit vector of type `t`.
pub open spec fn twos(x: u64, t: Type) -> int {
    if x >= t.spec_sign_bit() {
        x - t.modulus()
    } else {
        x as int
    }
}

/// What an SMT-LIB bit-vector predicate named `n` says of two vectors of
/// type `t`, as the SMT-LIB standard defines it.
pub open spec fn smt_pred(n: Seq<char>, x: u64, y: u64, t: Type) -> bool {
    if n == "="@ {
        x == y
    } else if n == "bvult"@ {
        x < y
    } else if n == "bvule"@ {
        x <= y
    } else if n == "bvugt"@ {
        x > y
    } else if n == "bvuge"@ {
        x >= y
    } else if n == "bvslt"@ {
        twos(x, t) < twos(y, t)
    } else if n == "bvsle"@ {
        twos(x, t) <= twos(y, t)
    } else if n == "bvsgt"@ {
        twos(x, t) > twos(y, t)
    } else if n == "bvsge"@ {
        twos(x, t) >= twos(y, t)
    } else {
        false
    }
}

/// The predicate names are distinct.
proof fn lemma_pred_names()
    ensures
        "="@ != "bvult"@ && "="@ != "bvule"@ && "="@ != "bvugt"@ && "="@ != "bvuge"@ && "="@ != "bvslt"@ && "="@
            != "bvsle"@ && "="@ != "bvsgt"@ && "="@ != "bvsge"@,
        "bvult"@ != "bvule"@ && "bvult"@ != "bvugt"@ && "bvult"@ != "bvuge"@ && "bvult"@ != "bvslt"@ && "bvult"@
            != "bvsle"@ && "bvult"@ != "bvsgt"@ && "bvult"@ != "bvsge"@,
        "bvule"@ != "bvugt"@ && "bvule"@ != "bvuge"@ && "bvule"@ != "bvslt"@ && "bvule"@ != "bvsle"@ && "bvule"@
            != "bvsgt"@ && "bvule"@ != "bvsge"@,
        "bvugt"@ != "bvuge"@ && "bvugt"@ != "bvslt"@ && "bvugt"@ != "bvsle"@ && "bvugt"@ != "bvsgt"@ && "bvugt"@
            != "bvsge"@,
        "bvuge"@ != "bvslt"@ && "bvuge"@ != "bvsle"@ && "bvuge"@ != "bvsgt"@ && "bvuge"@ != "bvsge"@,
        "bvslt"@ != "bvsle"@ && "bvslt"@ != "bvsgt"@ && "bvslt"@ != "bvsge"@,
        "bvsle"@ != "bvsgt"@ && "bvsle"@ != "bvsge"@,
        "bvsgt"@ != "bvsge"@,
{
    reveal_strlit("=");
    reveal_strlit("bvult");
    reveal_strlit("bvule");
    reveal_strlit("bvugt");
    reveal_strlit("bvuge");
    reveal_strlit("bvslt");
    reveal_strlit("bvsle");
    reveal_strlit("bvsgt");
    reveal_strlit("bvsge");
    assert("="@.len() != "bvult"@.len());
    let ns = seq!["bvult"@, "bvule"@, "bvugt"@, "bvuge"@, "bvslt"@, "bvsle"@, "bvsgt"@, "bvsge"@];
    assert forall|i: int, j: int| 0 <= i < j < 8 implies ns[i] != ns[j] by {
        if ns[i][2] == ns[j][2] && ns[i][3] == ns[j][3] {
            assert(ns[i][4] != ns[j][4]);
        }
    }
    assert(ns[0] == "bvult"@ && ns[1] == "bvule"@ && ns[2] == "bvugt"@ && ns[3] == "bvuge"@ && ns[4] == "bvslt"@
        && ns[5] == "bvsle"@ && ns[6] == "bvsgt"@ && ns[7] == "bvsge"@);
    assert(ns[0] != ns[1] && ns[0] != ns[2] && ns[0] != ns[3] && ns[0] != ns[4] && ns[0] != ns[5] && ns[0] != ns[6] && ns[0] != ns[7]);
    assert(ns[1] != ns[2] && ns[1] != ns[3] && ns[1] != ns[4] && ns[1] != ns[5] && ns[1] != ns[6] && ns[1] != ns[7]);
    assert(ns[2] != ns[3] && ns[2] != ns[4] && ns[2] != ns[5] && ns[2] != ns[6] && ns[2] != ns[7]);
    assert(ns[3] != ns[4] && ns[3] != ns[5] && ns[3] != ns[6] && ns[3] != ns[7]);
    assert(ns[4] != ns[5] && ns[4] != ns[6] && ns[4] != ns[7]);
    assert(ns[5] != ns[6] && ns[5] != ns[7]);
    assert(ns[6] != ns[7]);
    assert("="@ != ns[0]);
    assert forall|i: int| 0 <= i < 8 implies "="@ != ns[i] by {
        assert("="@.len() != ns[i].len());
    }
}

/// The two's-complement reading SMT-LIB uses is the interpreter's signed
/// reading.
pub proof fn lemma_twos(v: Value)
    requires
        v.wf(),
    ensures
        twos(v.bits, v.ty) == v.spec_signed(),
{
    crate::types::lemma_sign_split(v.bits, v.ty.spec_sign_bit(), v.ty.spec_mask());
}

/// The SMT-LIB predicate of a comparison operator, paired for the laws
/// below with the operator it is meant to encode.
spec fn cmp_name(op: Op) -> Seq<char> {
    match op {
        Op::Eq => "="@,
        Op::Ult => "bvult"@,
        Op::Ule => "bvule"@,
        Op::Ugt => "bvugt"@,
        Op::Uge => "bvuge"@,
        Op::Slt => "bvslt"@,
        Op::Sle => "bvsle"@,
        Op::Sgt => "bvsgt"@,
        Op::Sge => "bvsge"@,
        _ => "="@,
    }
}

/// Whenever the interpreter compares `x` and `y` with `op`, its answer is
/// whether the SMT-LIB predicate `n` holds of them (negated for `Ne`).
pub open spec fn compares_as(op: Op, n: Seq<char>, t: Type) -> bool {
    forall|x: Value, y: Value|
        x.ty == t && y.ty == t && x.wf() && y.wf() ==> (#[trigger] crate::codegen::pair_eval(op, x, y) matches Some(
            v,
        ) ==> v.bits == crate::types::bool_bits(if op is Ne {
            !smt_pred(n, x.bits, y.bits, t)
        } else {
            smt_pred(n, x.bits, y.bits, t)
        }))
}

/// One comparison of two values.
#[verifier::rlimit(60)]
proof fn lemma_compare_value(op: Op, x: Value, y: Value)
    requires
        op is Eq || op is Ne || op is Ult || op is Ule || op is Ugt || op is Uge || op is Slt || op is Sle || op is Sgt
            || op is Sge,
        x.ty == y.ty,
        x.wf(),
        y.wf(),
    ensures
        crate::codegen::pair_eval(op, x, y) matches Some(v) ==> v.bits == crate::types::bool_bits(if op is Ne {
            !smt_pred(cmp_name(op), x.bits, y.bits, x.ty)
        } else {
            smt_pred(cmp_name(op), x.bits, y.bits, x.ty)
        }),
{
    lemma_pred_names();
    lemma_twos(x);
    lemma_twos(y);
    let v = seq![x, y];
    assert(crate::types::types_of(v) =~= seq![x.ty, x.ty]);
    assert(1u64 & 1u64 == 1u64 && 0u64 & 1u64 == 0u64) by (bit_vector);
}

/// A comparison is encoded as `(ite (p a b) #b1 #b0)`, and `Ne` as
/// `(ite (= a b) #b0 #b1)`, where the SMT-LIB predicate `p` holds of two
/// vectors exactly when the interpreter's comparison of them is true: an
/// unsigned comparison compares the bits, a signed one their two's
/// complement readings, and a non-strict one holds of equal operands.
#[verifier::rlimit(80)]
pub proof fn law_comparison_terms(op: Op, a: Seq<char>, b: Seq<char>, t: Type)
    requires
        op is Eq || op is Ne || op is Ult || op is Ule || op is Ugt || op is Uge || op is Slt || op is Sle || op is Sgt
            || op is Sge,
    ensures
        exists|n: Seq<char>|
            (if op is Ne {
                op_term(op, a, b, t.spec_width()).0 == "(ite "@ + binary(n, a, b) + " #b0 #b1)"@
            } else {
                op_term(op, a, b, t.spec_width()).0 == comparison(n, a, b)
            }) && #[trigger] compares_as(op, n, t),
{
    let n = cmp_name(op);
    assert forall|x: Value, y: Value| x.ty == t && y.ty == t && x.wf() && y.wf() implies (#[trigger] crate::codegen::pair_eval(
        op,
        x,
        y,
    ) matches Some(v) ==> v.bits == crate::types::bool_bits(if op is Ne {
        !smt_pred(n, x.bits, y.bits, t)
    } else {
        smt_pred(n, x.bits, y.bits, t)
    })) by {
        lemma_compare_value(op, x, y);
    }
    assert(compares_as(op, n, t));
    if op is Ne {
        lemma_ne_text(a, b);
    }
}

/// The text of `Ne` is the negated `=` comparison.
proof fn lemma_ne_text(a: Seq<char>, b: Seq<char>)
    ensures
        "(ite (= "@ + a + " "@ + b + ") #b0 #b1)"@ == "(ite "@ + binary("="@, a, b) + " #b0 #b1)"@,
{
    reveal_strlit("(ite (= ");
    reveal_strlit("(ite ");
    reveal_strlit("(");
    reveal_strlit("=");
    reveal_strlit(" ");
    reveal_strlit(")");
    reveal_strlit(") #b0 #b1)");
    reveal_strlit(" #b0 #b1)");
    assert("(ite (= "@ =~= "(ite "@ + "("@ + "="@ + " "@);
    assert(") #b0 #b1)"@ =~= ")"@ + " #b0 #b1)"@);
    assert("(ite (= "@ + a + " "@ + b + ") #b0 #b1)"@ =~= "(ite "@ + ("("@ + "="@ + " "@ + a + " "@ + b + ")"@) + " #b0 #b1)"@);
}

/// What an SMT-LIB bit-vector function named `n` gives on two vectors of
/// type `t`, as the SMT-LIB standard defines it (the signed division and
/// remainder truncate toward zero; division by zero is left to the traps).
pub open spec fn smt_fun(n: Seq<char>, x: u64, y: u64, t: Type) -> u64 {
    if n == "bvadd"@ {
        ((x + y) % t.modulus()) as u64
    } else if n == "bvsub"@ {
        ((x - y) % t.modulus()) as u64
    } else if n == "bvmul"@ {
        ((x * y) % t.modulus()) as u64
    } else if n == "bvand"@ {
        x & y
    } else if n == "bvor"@ {
        x | y
    } else if n == "bvxor"@ {
        x ^ y
    } else if n == "bvudiv"@ {
        if y == 0 {
            t.spec_mask()
        } else {
            x / y
        }
    } else if n == "bvurem"@ {
        if y == 0 {
            x
        } else {
            x % y
        }
    } else if n == "bvsdiv"@ {
        (crate::types::trunc_div(twos(x, t), twos(y, t)) % t.modulus()) as u64
    } else if n == "bvsrem"@ {
        (crate::types::trunc_rem(twos(x, t), twos(y, t)) % t.modulus()) as u64
    } else {
        0
    }
}

/// The function names are distinct.
proof fn lemma_fun_names()
    ensures
        ({
            let ns = seq![
                "bvadd"@,
                "bvsub"@,
                "bvmul"@,
                "bvand"@,
                "bvor"@,
                "bvxor"@,
                "bvudiv"@,
                "bvurem"@,
                "bvsdiv"@,
                "bvsrem"@,
            ];
            forall|i: int, j: int| 0 <= i < j < 10 ==> ns[i] != ns[j]
        }),
{
    reveal_strlit("bvadd");
    reveal_strlit("bvsub");
    reveal_strlit("bvmul");
    reveal_strlit("bvand");
    reveal_strlit("bvor");
    reveal_strlit("bvxor");
    reveal_strlit("bvudiv");
    reveal_strlit("bvurem");
    reveal_strlit("bvsdiv");
    reveal_strlit("bvsrem");
    let ns = seq!["bvadd"@, "bvsub"@, "bvmul"@, "bvand"@, "bvor"@, "bvxor"@, "bvudiv"@, "bvurem"@, "bvsdiv"@, "bvsrem"@];
    assert forall|i: int, j: int| 0 <= i < j < 10 implies ns[i] != ns[j] by {
        if ns[i].len() == ns[j].len() && ns[i][2] == ns[j][2] {
            assert(ns[i][3] != ns[j][3]);
        }
    }
}

/// The SMT-LIB function of an arithmetic or bitwise operator, paired for
/// the laws below with the operator it is meant to encode.
spec fn fun_name(op: Op) -> Seq<char> {
    match op {
        Op::Add => "bvadd"@,
        Op::Sub => "bvsub"@,
        Op::Mul => "bvmul"@,
        Op::And => "bvand"@,
        Op::Or => "bvor"@,
        Op::Xor => "bvxor"@,
        Op::Udiv => "bvudiv"@,
        Op::Urem => "bvurem"@,
        Op::Sdiv => "bvsdiv"@,
        _ => "bvsrem"@,
    }
}

/// Bitwise results of vectors that fit a width fit it.
pub proof fn lemma_bitwise_fits(x: u64, y: u64, m: u64)
    requires
        m == 1 || m == 0xff || m == 0xffff || m == 0xffff_ffff || m == 0xffff_ffff_ffff_ffff,
        x <= m,
        y <= m,
    ensures
        (x & y) & m == x & y,
        (x | y) & m == x | y,
        (x ^ y) & m == x ^ y,
{
    assert((x & y) & m == x & y && (x | y) & m == x | y && (x ^ y) & m == x ^ y) by (bit_vector)
        requires
            m == 1 || m == 0xff || m == 0xffff || m == 0xffff_ffff || m == 0xffff_ffff_ffff_ffff,
            x <= m,
            y <= m,
    ;
}

/// Whenever the interpreter applies `op` to `x` and `y`, its result is
/// what the SMT-LIB function `n` gives on them.
pub open spec fn computes_as(op: Op, n: Seq<char>, t: Type) -> bool {
    forall|x: Value, y: Value|
        x.ty == t && y.ty == t && x.wf() && y.wf() ==> (#[trigger] crate::codegen::pair_eval(op, x, y) matches Some(
            v,
        ) ==> v.bits == smt_fun(n, x.bits, y.bits, t))
}

/// One arithmetic or bitwise operation on two values.
#[verifier::rlimit(80)]
proof fn lemma_compute_value(op: Op, x: Value, y: Value)
    requires
        op is Add || op is Sub || op is Mul || op is And || op is Or || op is Xor || op is Udiv || op is Urem
            || op is Sdiv || op is Srem,
        x.ty == y.ty,
        x.wf(),
        y.wf(),
    ensures
        crate::codegen::pair_eval(op, x, y) matches Some(v) ==> v.bits == smt_fun(fun_name(op), x.bits, y.bits, x.ty),
{
    lemma_fun_names();
    reveal_strlit("bvadd");
    lemma_twos(x);
    lemma_twos(y);
    let ns = seq!["bvadd"@, "bvsub"@, "bvmul"@, "bvand"@, "bvor"@, "bvxor"@, "bvudiv"@, "bvurem"@, "bvsdiv"@, "bvsrem"@];
    assert(ns[0] != ns[1] && ns[0] != ns[2] && ns[0] != ns[3] && ns[0] != ns[4] && ns[0] != ns[5] && ns[0] != ns[6] && ns[0] != ns[7] && ns[0] != ns[8] && ns[0] != ns[9]);
    assert(ns[1] != ns[2] && ns[1] != ns[3] && ns[1] != ns[4] && ns[1] != ns[5] && ns[1] != ns[6] && ns[1] != ns[7] && ns[1] != ns[8] && ns[1] != ns[9]);
    assert(ns[2] != ns[3] && ns[2] != ns[4] && ns[2] != ns[5] && ns[2] != ns[6] && ns[2] != ns[7] && ns[2] != ns[8] && ns[2] != ns[9]);
    assert(ns[3] != ns[4] && ns[3] != ns[5] && ns[3] != ns[6] && ns[3] != ns[7] && ns[3] != ns[8] && ns[3] != ns[9]);
    assert(ns[4] != ns[5] && ns[4] != ns[6] && ns[4] != ns[7] && ns[4] != ns[8] && ns[4] != ns[9]);
    assert(ns[5] != ns[6] && ns[5] != ns[7] && ns[5] != ns[8] && ns[5] != ns[9]);
    assert(ns[6] != ns[7] && ns[6] != ns[8] && ns[6] != ns[9]);
    assert(ns[7] != ns[8] && ns[7] != ns[9]);
    assert(ns[8] != ns[9]);
    let m = x.ty.spec_mask();
    lemma_bitwise_fits(x.bits, y.bits, m);
    let v = seq![x, y];
    assert(crate::types::types_of(v) =~= seq![x.ty, x.ty]);
    if y.bits != 0 {
        assert(x.bits / y.bits <= x.bits && x.bits % y.bits <= x.bits) by (nonlinear_arith)
            requires
                y.bits > 0,
        ;
        crate::types::lemma_masked_le(x.bits / y.bits, x.ty);
        crate::types::lemma_masked_le(x.bits % y.bits, x.ty);
    }
}

/// An arithmetic or bitwise operator is encoded as `(f a b)`, where the
/// SMT-LIB function `f` gives, on every two vectors the interpreter
/// accepts, exactly the interpreter's result: sums, differences and
/// products wrap at the width, a difference subtracts the second operand
/// from the first, and quotients and remainders follow the operator's
/// signedness.
#[verifier::rlimit(80)]
pub proof fn law_arithmetic_terms(op: Op, a: Seq<char>, b: Seq<char>, t: Type)
    requires
        op is Add || op is Sub || op is Mul || op is And || op is Or || op is Xor || op is Udiv || op is Urem
            || op is Sdiv || op is Srem,
    ensures
        exists|n: Seq<char>| op_term(op, a, b, t.spec_width()).0 == binary(n, a, b) && #[trigger] computes_as(op, n, t),
{
    let n = fun_name(op);
    assert forall|x: Value, y: Value| x.ty == t && y.ty == t && x.wf() && y.wf() implies (#[trigger] crate::codegen::pair_eval(
        op,
        x,
        y,
    ) matches Some(v) ==> v.bits == smt_fun(n, x.bits, y.bits, t)) by {
        lemma_compute_value(op, x, y);
    }
    assert(computes_as(op, n, t));
}

/// What an SMT-LIB shift named `n` gives on a vector of type `t` shifted
/// by `s` places: bits shifted past the width are lost, and shifting by
/// the width or more leaves no bits (or only sign bits, arithmetically).
pub open spec fn smt_shift(n: Seq<char>, x: u64, s: u64, t: Type) -> u64 {
    if n == "bvshl"@ {
        if s >= t.spec_width() {
            0
        } else {
            (x << s) & t.spec_mask()
        }
    } else if n == "bvlshr"@ {
        if s >= t.spec_width() {
            0
        } else {
            x >> s
        }
    } else if n == "bvashr"@ {
        ((twos(x, t) / (vstd::arithmetic::power2::pow2(s as nat) as int)) % t.modulus()) as u64
    } else {
        0
    }
}

/// The amount a shift term shifts by: the second operand modulo the
/// width, as `(bvurem b w)` computes it.
pub open spec fn amount(y: u64, t: Type) -> u64 {
    smt_fun("bvurem"@, y, t.spec_width() as u64, t)
}

/// Whenever the interpreter shifts `x` by `y` with `op`, its result is the
/// SMT-LIB shift `n` by the amount.
pub open spec fn shifts_as(op: Op, n: Seq<char>, t: Type) -> bool {
    forall|x: Value, y: Value|
        x.ty == t && y.ty == t && x.wf() && y.wf() ==> (#[trigger] crate::codegen::pair_eval(op, x, y) matches Some(
            v,
        ) ==> v.bits == smt_shift(n, x.bits, amount(y.bits, t), t))
}

/// Whenever the interpreter rotates `x` by `y` with `op`, its result is
/// the or of the SMT-LIB shift `n1` by the amount and the shift `n2` by
/// the width minus the amount.
pub open spec fn rotates_as(op: Op, n1: Seq<char>, n2: Seq<char>, t: Type) -> bool {
    forall|x: Value, y: Value|
        x.ty == t && y.ty == t && x.wf() && y.wf() ==> (#[trigger] crate::codegen::pair_eval(op, x, y) matches Some(
            v,
        ) ==> v.bits == smt_shift(n1, x.bits, amount(y.bits, t), t) | smt_shift(
            n2,
            x.bits,
            smt_fun("bvsub"@, t.spec_width() as u64, amount(y.bits, t), t),
            t,
        ))
}

/// The shift names are distinct from each other and from the function
/// names the shift terms use.
proof fn lemma_shift_names()
    ensures
        "bvshl"@ != "bvlshr"@ && "bvshl"@ != "bvashr"@ && "bvlshr"@ != "bvashr"@,
        "bvurem"@ != "bvadd"@ && "bvurem"@ != "bvsub"@ && "bvurem"@ != "bvmul"@ && "bvurem"@ != "bvand"@ && "bvurem"@
            != "bvor"@ && "bvurem"@ != "bvxor"@ && "bvurem"@ != "bvudiv"@,
        "bvsub"@ != "bvadd"@,
{
    reveal_strlit("bvshl");
    reveal_strlit("bvlshr");
    reveal_strlit("bvashr");
    lemma_fun_names();
    let ns = seq!["bvadd"@, "bvsub"@, "bvmul"@, "bvand"@, "bvor"@, "bvxor"@, "bvudiv"@, "bvurem"@, "bvsdiv"@, "bvsrem"@];
    assert(ns[7] != ns[0] && ns[7] != ns[1] && ns[7] != ns[2] && ns[7] != ns[3] && ns[7] != ns[4] && ns[7] != ns[5] && ns[7] != ns[6]);
    assert(ns[1] != ns[0]);
    assert("bvshl"@.len() != "bvlshr"@.len() && "bvshl"@.len() != "bvashr"@.len());
    assert("bvlshr"@[1] != "bvashr"@[1] || "bvlshr"@[2] != "bvashr"@[2]);
}

/// The text `pre + a + " " + b + ")"` is the application of `n` when
/// `pre` is `"(" + n + " "`.
proof fn lemma_app_text(pre: Seq<char>, n: Seq<char>, a: Seq<char>, b: Seq<char>)
    requires
        pre == "("@ + n + " "@,
    ensures
        pre + a + " "@ + b + ")"@ == binary(n, a, b),
{
    assert(pre + a + " "@ + b + ")"@ =~= "("@ + n + " "@ + a + " "@ + b + ")"@);
}

/// One shift of a value.
#[verifier::rlimit(80)]
proof fn lemma_shift_value(op: Op, n: Seq<char>, x: Value, y: Value)
    requires
        op is Shl && n == "bvshl"@ || op is Lshr && n == "bvlshr"@ || op is Ashr && n == "bvashr"@,
        x.ty == y.ty,
        x.wf(),
        y.wf(),
    ensures
        crate::codegen::pair_eval(op, x, y) matches Some(v) ==> v.bits == smt_shift(n, x.bits, amount(y.bits, x.ty), x.ty),
{
    lemma_shift_names();
    lemma_twos(x);
    let t = x.ty;
    let w = t.spec_width() as u64;
    let m = t.spec_mask();
    let v = seq![x, y];
    assert(crate::types::types_of(v) =~= seq![x.ty, x.ty]);
    assert(w == 1 || w == 8 || w == 16 || w == 32 || w == 64);
    let k = y.bits % w;
    assert(k < w) by {
        if w == 1 {} else if w == 8 {} else if w == 16 {} else if w == 32 {} else {}
    }
    assert(amount(y.bits, t) == k);
    let xb = x.bits;
    assert((xb >> k) <= xb) by (bit_vector);
    crate::types::lemma_masked_le(x.bits >> k, t);
}

/// One rotation of a value.
#[verifier::rlimit(80)]
proof fn lemma_rotation_value(op: Op, x: Value, y: Value)
    requires
        op is Rotl || op is Rotr,
        x.ty == y.ty,
        x.ty.spec_integer(),
        x.wf(),
        y.wf(),
    ensures
        crate::codegen::pair_eval(op, x, y) matches Some(v) ==> v.bits == smt_shift(
            if op is Rotl { "bvshl"@ } else { "bvlshr"@ },
            x.bits,
            amount(y.bits, x.ty),
            x.ty,
        ) | smt_shift(
            if op is Rotl { "bvlshr"@ } else { "bvshl"@ },
            x.bits,
            smt_fun("bvsub"@, x.ty.spec_width() as u64, amount(y.bits, x.ty), x.ty),
            x.ty,
        ),
{
    lemma_shift_names();
    let t = x.ty;
    let w = t.spec_width() as u64;
    let m = t.spec_mask();
    let v = seq![x, y];
    assert(crate::types::types_of(v) =~= seq![x.ty, x.ty]);
    assert(w == 8 || w == 16 || w == 32 || w == 64);
    let k = y.bits % w;
    assert(k < w) by {
        if w == 8 {} else if w == 16 {} else if w == 32 {} else {}
    }
    assert(amount(y.bits, t) == k);
    assert(t.modulus() > w as int) by {
        if w == 8 {} else if w == 16 {} else if w == 32 {} else {}
    }
    vstd::arithmetic::div_mod::lemma_small_mod((w - k) as nat, t.modulus() as nat);
    assert(smt_fun("bvsub"@, w, k, t) == w - k);
    crate::codegen::lemma_or_mask(x.bits << k, x.bits >> ((w - k) as u64), m);
    crate::codegen::lemma_or_mask(x.bits << ((w - k) as u64), x.bits >> k, m);
    crate::codegen::lemma_or_mask(x.bits, x.bits, m);
    let xb = x.bits;
    let c = (w - k) as u64;
    assert(((xb << k) & m) <= m && ((xb << c) & m) <= m) by (bit_vector);
    assert((xb >> k) <= xb && (xb >> c) <= xb) by (bit_vector);
    lemma_bitwise_fits((x.bits << k) & m, x.bits >> ((w - k) as u64), m);
    lemma_bitwise_fits(x.bits >> k, (x.bits << ((w - k) as u64)) & m, m);
    assert(x.bits & m == x.bits) by {
        crate::types::lemma_masked_le(x.bits, t);
    }
    assert(xb | 0u64 == xb && 0u64 | xb == xb) by (bit_vector);
}

/// A shift is encoded as `(s a (bvurem b w))`, where the SMT-LIB shift `s`
/// by the second operand modulo the width gives the interpreter's result:
/// a left shift drops the high bits, a logical right shift fills with
/// zeros and an arithmetic one with the sign.
#[verifier::rlimit(80)]
pub proof fn law_shift_terms(op: Op, a: Seq<char>, b: Seq<char>, t: Type)
    requires
        op is Shl || op is Lshr || op is Ashr,
    ensures
        exists|n: Seq<char>|
            op_term(op, a, b, t.spec_width()).0 == binary(
                n,
                a,
                binary("bvurem"@, b, spec_bv(t.spec_width() as u64, t.spec_width())),
            ) && #[trigger] shifts_as(op, n, t),
{
    let n = if op is Shl {
        "bvshl"@
    } else if op is Lshr {
        "bvlshr"@
    } else {
        "bvashr"@
    };
    let w = t.spec_width();
    let k = "(bvurem "@ + b + " "@ + spec_bv(w as u64, w) + ")"@;
    reveal_strlit("(bvurem ");
    reveal_strlit("bvurem");
    reveal_strlit("(");
    reveal_strlit(" ");
    assert("(bvurem "@ =~= "("@ + "bvurem"@ + " "@);
    lemma_app_text("(bvurem "@, "bvurem"@, b, spec_bv(w as u64, w));
    if op is Shl {
        reveal_strlit("(bvshl ");
        reveal_strlit("bvshl");
        assert("(bvshl "@ =~= "("@ + "bvshl"@ + " "@);
        lemma_app_text("(bvshl "@, "bvshl"@, a, k);
    } else if op is Lshr {
        reveal_strlit("(bvlshr ");
        reveal_strlit("bvlshr");
        assert("(bvlshr "@ =~= "("@ + "bvlshr"@ + " "@);
        lemma_app_text("(bvlshr "@, "bvlshr"@, a, k);
    } else {
        reveal_strlit("(bvashr ");
        reveal_strlit("bvashr");
        assert("(bvashr "@ =~= "("@ + "bvashr"@ + " "@);
        lemma_app_text("(bvashr "@, "bvashr"@, a, k);
    }
    assert forall|x: Value, y: Value| x.ty == t && y.ty == t && x.wf() && y.wf() implies (#[trigger] crate::codegen::pair_eval(
        op,
        x,
        y,
    ) matches Some(v) ==> v.bits == smt_shift(n, x.bits, amount(y.bits, t), t)) by {
        lemma_shift_value(op, n, x, y);
    }
    assert(shifts_as(op, n, t));
}

/// A rotation is encoded as `(bvor (s1 a k) (s2 a (bvsub w k)))` with `k`
/// the amount `(bvurem b w)`, where or-ing the SMT-LIB shift `s1` by the
/// amount with `s2` by the width minus the amount gives the interpreter's
/// rotation: left then right for a left rotation, right then left for a
/// right one.
#[verifier::rlimit(80)]
pub proof fn law_rotation_terms(op: Op, a: Seq<char>, b: Seq<char>, t: Type)
    requires
        op is Rotl || op is Rotr,
        t.spec_integer(),
    ensures
        exists|n1: Seq<char>, n2: Seq<char>|
            ({
                let wl = spec_bv(t.spec_width() as u64, t.spec_width());
                let k = binary("bvurem"@, b, wl);
                op_term(op, a, b, t.spec_width()).0 == binary(
                    "bvor"@,
                    binary(n1, a, k),
                    binary(n2, a, binary("bvsub"@, wl, k)),
                )
            }) && #[trigger] rotates_as(op, n1, n2, t),
{
    let (n1, n2) = if op is Rotl {
        ("bvshl"@, "bvlshr"@)
    } else {
        ("bvlshr"@, "bvshl"@)
    };
    let w = t.spec_width();
    let wl = spec_bv(w as u64, w);
    let k = "(bvurem "@ + b + " "@ + wl + ")"@;
    reveal_strlit("(bvurem ");
    reveal_strlit("bvurem");
    reveal_strlit("(");
    reveal_strlit(" ");
    reveal_strlit(")");
    reveal_strlit("bvor");
    reveal_strlit("bvsub");
    reveal_strlit("bvshl");
    reveal_strlit("bvlshr");
    assert("(bvurem "@ =~= "("@ + "bvurem"@ + " "@);
    lemma_app_text("(bvurem "@, "bvurem"@, b, wl);
    let kt = binary("bvurem"@, b, wl);
    if op is Rotl {
        reveal_strlit("(bvor (bvshl ");
        reveal_strlit(") (bvlshr ");
        reveal_strlit(" (bvsub ");
        reveal_strlit(")))");
        assert(op_term(op, a, b, w).0 =~= binary("bvor"@, binary(n1, a, kt), binary(n2, a, binary("bvsub"@, wl, kt))));
    } else {
        reveal_strlit("(bvor (bvlshr ");
        reveal_strlit(") (bvshl ");
        reveal_strlit(" (bvsub ");
        reveal_strlit(")))");
        assert(op_term(op, a, b, w).0 =~= binary("bvor"@, binary(n1, a, kt), binary(n2, a, binary("bvsub"@, wl, kt))));
    }
    assert forall|x: Value, y: Value| x.ty == t && y.ty == t && x.wf() && y.wf() implies (#[trigger] crate::codegen::pair_eval(
        op,
        x,
        y,
    ) matches Some(v) ==> v.bits == smt_shift(n1, x.bits, amount(y.bits, t), t) | smt_shift(
        n2,
        x.bits,
        smt_fun("bvsub"@, t.spec_width() as u64, amount(y.bits, t), t),
        t,
    )) by {
        lemma_rotation_value(op, x, y);
    }
    assert(rotates_as(op, n1, n2, t));
}

/// Bitwise negation is encoded as `(bvnot a)`, which flips every bit of
/// the vector within its width, as the interpreter's `not` does.
pub proof fn law_not_term(a: Seq<char>, b: Seq<char>, t: Type)
    ensures
        op_term(Op::Not, a, b, t.spec_width()).0 == "(bvnot "@ + a + ")"@,
        forall|x: Value, y: Value|
            x.ty == t && y.ty == t && x.wf() && y.wf() ==> (#[trigger] crate::codegen::pair_eval(Op::Not, x, y) matches Some(
                v,
            ) ==> v.bits == x.bits ^ t.spec_mask() && v.bits + x.bits == t.spec_mask()),
{
    assert forall|x: Value, y: Value| x.ty == t && y.ty == t && x.wf() && y.wf() implies (#[trigger] crate::codegen::pair_eval(
        Op::Not,
        x,
        y,
    ) matches Some(v) ==> v.bits == x.bits ^ t.spec_mask() && v.bits + x.bits == t.spec_mask()) by {
        let v = seq![x, y];
        assert(crate::types::types_of(v) =~= seq![x.ty, x.ty]);
        let xb = x.bits;
        let m = t.spec_mask();
        assert((!xb) & m == xb ^ m && (xb ^ m) + xb == m) by (bit_vector)
            requires
                m == 1 || m == 0xff || m == 0xffff || m == 0xffff_ffff || m == 0xffff_ffff_ffff_ffff,
                xb <= m,
        ;
    }
}

/// The term of an instruction's expression and the traps it adds.
pub open spec fn expr_term(env: Seq<Entry>, e: ExprM) -> Result<(Seq<char>, Seq<TrapM>), Seq<char>> {
    match e {
        ExprM::Const { value } => Ok((spec_bv(value.bits, value.ty.spec_width()), seq![])),
        ExprM::Call { .. } => Err("formal internal calls unsupported"@),
        ExprM::Apply { op, args } => {
            if args.len() == 0 {
                Err(undefined())
            } else {
                let second = if args.len() > 1 {
                    args[1]
                } else {
                    args[0]
                };
                match (lookup(env, args[0]), lookup(env, second)) {
                    (Some((a, ta)), Some((b, _))) => if op is Select {
                        if args.len() < 3 {
                            Err(undefined())
                        } else {
                            match lookup(env, args[2]) {
                                Some((c, _)) => Ok(("(ite (= "@ + a + " #b1) "@ + b + " "@ + c + ")"@, seq![])),
                                None => Err(undefined()),
                            }
                        }
                    } else {
                        Ok(op_term(op, a, b, ta.spec_width()))
                    },
                    _ => Err(undefined()),
                }
            }
        },
    }
}

/// The state after some instructions: the names in scope, the definitions
/// so far and the traps so far, in order.
pub struct SymState {
    pub env: Seq<Entry>,
    pub definitions: Seq<char>,
    pub traps: Seq<TrapM>,
}

pub open spec fn param_env(ps: Seq<Param>) -> Seq<Entry> {
    Seq::new(ps.len(), |n: int| (ps[n].id, "x"@ + dec(n as nat), ps[n].ty))
}

pub open spec fn definition(name: Seq<char>, t: Type, value: Seq<char>) -> Seq<char> {
    "(define-fun "@ + name + " () (_ BitVec "@ + dec(t.spec_width() as nat) + ") "@ + value + ")\n"@
}

/// The state after the instructions `is`, from the parameters `ps`.
pub open spec fn sym_run(ps: Seq<Param>, is: Seq<InstructionM>, prefix: Seq<char>) -> Result<
    SymState,
    Seq<char>,
>
    decreases is.len(),
{
    if is.len() == 0 {
        Ok(SymState { env: param_env(ps), definitions: seq![], traps: seq![] })
    } else {
        match sym_run(ps, is.drop_last(), prefix) {
            Err(e) => Err(e),
            Ok(st) => match expr_term(st.env, is.last().expr) {
                Err(e) => Err(e),
                Ok((value, traps)) => {
                    let name = prefix + dec(is.last().id as nat);
                    Ok(
                        SymState {
                            env: st.env.push((is.last().id, name, is.last().ty)),
                            definitions: st.definitions + definition(name, is.last().ty, value),
                            traps: st.traps + traps,
                        },
                    )
                },
            },
        }
    }
}

/// The trap code of a list of traps: the reason of the first whose
/// condition holds, `#b00` when none does.
pub open spec fn trap_term(traps: Seq<TrapM>) -> Seq<char>
    decreases traps.len(),
{
    if traps.len() == 0 {
        "#b00"@
    } else {
        "(ite "@ + traps[0].0 + " "@ + traps[0].1 + " "@ + trap_term(traps.drop_first()) + ")"@
    }
}

/// The symbolic meaning of a one-block, call-free function.
pub open spec fn spec_symbolic(f: FunctionM, prefix: Seq<char>) -> Result<SymbolicM, Seq<char>> {
    if f.blocks.len() != 1 || f.callees.len() != 0 {
        Err("formal candidate subset requires one block and no calls"@)
    } else {
        match sym_run(f.parameters, f.blocks[0].instructions, prefix) {
            Err(e) => Err(e),
            Ok(st) => match f.blocks[0].terminator {
                TerminatorM::Return { value } => match lookup(st.env, value) {
                    None => Err(undefined()),
                    Some((v, _)) => Ok(
                        SymbolicM {
                            definitions: st.definitions,
                            value: v,
                            completed: "(= "@ + trap_term(st.traps) + " #b00)"@,
                            trap: trap_term(st.traps),
                        },
                    ),
                },
                _ => Err("formal candidate requires a return"@),
            },
        }
    }
}

pub open spec fn symbolic_result(r: Result<Symbolic, String>) -> Result<SymbolicM, Seq<char>> {
    match r {
        Ok(s) => Ok(s@),
        Err(e) => Err(e@),
    }
}

// ---------------------------------------------------------------------------
// Building the terms.

pub open spec fn env_view(env: Seq<(Id, Vec<char>, Type)>) -> Seq<Entry> {
    env.map_values(|e: (Id, Vec<char>, Type)| (e.0, e.1@, e.2))
}

pub open spec fn traps_view(ts: Seq<(Vec<char>, Vec<char>)>) -> Seq<TrapM> {
    ts.map_values(|t: (Vec<char>, Vec<char>)| (t.0@, t.1@))
}

fn find(env: &Vec<(Id, Vec<char>, Type)>, id: Id) -> (r: Option<(Vec<char>, Type)>)
    ensures
        match r {
            Some((t, ty)) => lookup(env_view(env@), id) == Some((t@, ty)),
            None => lookup(env_view(env@), id) is None,
        },
{
    let mut i: usize = env.len();
    assert(env@.take(env@.len() as int) =~= env@);
    while i > 0
        invariant
            0 <= i <= env@.len(),
            lookup(env_view(env@), id) == lookup(env_view(env@.take(i as int)), id),
        decreases i,
    {
        let e = &env[i - 1];
        assert(env_view(env@.take(i as int)).drop_last() =~= env_view(env@.take(i - 1 as int)));
        if e.0 == id {
            return Some((chars_copy(&e.1), e.2));
        }
        i -= 1;
    }
    assert(env_view(env@.take(0)) =~= seq![]);
    None
}

fn bin(name: &str, a: &[char], b: &[char]) -> (r: Vec<char>)
    ensures
        r@ == binary(name@, a@, b@),
{
    let mut out: Vec<char> = Vec::new();
    put(&mut out, "(");
    put(&mut out, name);
    put(&mut out, " ");
    extend_chars(&mut out, a);
    put(&mut out, " ");
    extend_chars(&mut out, b);
    put(&mut out, ")");
    assert(out@ =~= binary(name@, a@, b@));
    out
}

fn cmp_term(name: &str, a: &[char], b: &[char]) -> (r: Vec<char>)
    ensures
        r@ == comparison(name@, a@, b@),
{
    let mut out: Vec<char> = Vec::new();
    put(&mut out, "(ite ");
    extend_chars(&mut out, &bin(name, a, b));
    put(&mut out, " #b1 #b0)");
    assert(out@ =~= comparison(name@, a@, b@));
    out
}

fn shift_amount(b: &[char], w: u32) -> (r: Vec<char>)
    requires
        1 <= w <= 64,
    ensures
        r@ == "(bvurem "@ + b@ + " "@ + spec_bv(w as u64, w) + ")"@,
{
    let mut out: Vec<char> = Vec::new();
    put(&mut out, "(bvurem ");
    extend_chars(&mut out, b);
    put(&mut out, " ");
    extend_chars(&mut out, &bv_chars(w as u64, w));
    put(&mut out, ")");
    out
}

fn rotation(first: &str, second: &str, a: &[char], k: &[char], w: u32) -> (r: Vec<char>)
    requires
        1 <= w <= 64,
    ensures
        r@ == first@ + a@ + " "@ + k@ + second@ + a@ + " (bvsub "@ + spec_bv(w as u64, w) + " "@ + k@
            + ")))"@,
{
    let mut out: Vec<char> = Vec::new();
    put(&mut out, first);
    extend_chars(&mut out, a);
    put(&mut out, " ");
    extend_chars(&mut out, k);
    put(&mut out, second);
    extend_chars(&mut out, a);
    put(&mut out, " (bvsub ");
    extend_chars(&mut out, &bv_chars(w as u64, w));
    put(&mut out, " ");
    extend_chars(&mut out, k);
    put(&mut out, ")))");
    out
}

fn division_traps(signed: bool, a: &[char], b: &[char], w: u32) -> (r: Vec<(Vec<char>, Vec<char>)>)
    requires
        1 <= w <= 64,
    ensures
        traps_view(r@) == (if signed {
            seq![("(= "@ + b@ + " "@ + spec_bv(0, w) + ")"@, "#b01"@)] + seq![
                (
                    "(and (= "@ + a@ + " "@ + spec_bv(1u64 << ((w - 1) as u64), w) + ") (= "@ + b@ + " "@
                        + spec_bv(u64::MAX, w) + "))"@,
                    "#b10"@,
                ),
            ]
        } else {
            seq![("(= "@ + b@ + " "@ + spec_bv(0, w) + ")"@, "#b01"@)]
        }),
{
    let mut zero: Vec<char> = Vec::new();
    put(&mut zero, "(= ");
    extend_chars(&mut zero, b);
    put(&mut zero, " ");
    extend_chars(&mut zero, &bv_chars(0, w));
    put(&mut zero, ")");
    let mut traps: Vec<(Vec<char>, Vec<char>)> = Vec::new();
    traps.push((zero, chars_of("#b01")));
    if signed {
        let mut o: Vec<char> = Vec::new();
        put(&mut o, "(and (= ");
        extend_chars(&mut o, a);
        put(&mut o, " ");
        extend_chars(&mut o, &bv_chars(1u64 << ((w - 1) as u64), w));
        put(&mut o, ") (= ");
        extend_chars(&mut o, b);
        put(&mut o, " ");
        extend_chars(&mut o, &bv_chars(u64::MAX, w));
        put(&mut o, "))");
        traps.push((o, chars_of("#b10")));
    }
    proof {
        if signed {
            assert(traps_view(traps@) =~= seq![("(= "@ + b@ + " "@ + spec_bv(0, w) + ")"@, "#b01"@)] + seq![
                (
                    "(and (= "@ + a@ + " "@ + spec_bv(1u64 << ((w - 1) as u64), w) + ") (= "@ + b@ + " "@
                        + spec_bv(u64::MAX, w) + "))"@,
                    "#b10"@,
                ),
            ]);
        } else {
            assert(traps_view(traps@) =~= seq![("(= "@ + b@ + " "@ + spec_bv(0, w) + ")"@, "#b01"@)]);
        }
    }
    traps
}

fn unary_term(head: &str, a: &[char], tail: &[char], close: &str) -> (r: Vec<char>)
    ensures
        r@ == head@ + a@ + tail@ + close@,
{
    let mut out: Vec<char> = Vec::new();
    put(&mut out, head);
    extend_chars(&mut out, a);
    extend_chars(&mut out, tail);
    put(&mut out, close);
    out
}

/// The term of an operator other than `Select`, and the traps it adds.
fn op_text(op: Op, a: &[char], b: &[char], w: u32) -> (r: (Vec<char>, Vec<(Vec<char>, Vec<char>)>))
    requires
        1 <= w <= 64,
        !(op is Select),
    ensures
        (r.0@, traps_view(r.1@)) == op_term(op, a@, b@, w),
{
    let none: Vec<(Vec<char>, Vec<char>)> = Vec::new();
    assert(traps_view(none@) =~= seq![]);
    match op {
        Op::Add => (bin("bvadd", a, b), none),
        Op::Sub => (bin("bvsub", a, b), none),
        Op::Mul => (bin("bvmul", a, b), none),
        Op::And => (bin("bvand", a, b), none),
        Op::Or => (bin("bvor", a, b), none),
        Op::Xor => (bin("bvxor", a, b), none),
        Op::Not => {
            let empty: Vec<char> = Vec::new();
            let t = unary_term("(bvnot ", a, &empty, ")");
            assert(t@ =~= "(bvnot "@ + a@ + ")"@);
            (t, none)
        },
        Op::Udiv => (bin("bvudiv", a, b), division_traps(false, a, b, w)),
        Op::Sdiv => (bin("bvsdiv", a, b), division_traps(true, a, b, w)),
        Op::Urem => (bin("bvurem", a, b), division_traps(false, a, b, w)),
        Op::Srem => (bin("bvsrem", a, b), division_traps(true, a, b, w)),
        Op::Shl | Op::Lshr | Op::Ashr => {
            let k = shift_amount(b, w);
            let head = match op {
                Op::Shl => "(bvshl ",
                Op::Lshr => "(bvlshr ",
                _ => "(bvashr ",
            };
            let mut t: Vec<char> = Vec::new();
            put(&mut t, head);
            extend_chars(&mut t, a);
            put(&mut t, " ");
            extend_chars(&mut t, &k);
            put(&mut t, ")");
            (t, none)
        },
        Op::Rotl => {
            let k = shift_amount(b, w);
            (rotation("(bvor (bvshl ", ") (bvlshr ", a, &k, w), none)
        },
        Op::Rotr => {
            let k = shift_amount(b, w);
            (rotation("(bvor (bvlshr ", ") (bvshl ", a, &k, w), none)
        },
        Op::Eq => (cmp_term("=", a, b), none),
        Op::Ne => {
            let mut t: Vec<char> = Vec::new();
            put(&mut t, "(ite (= ");
            extend_chars(&mut t, a);
            put(&mut t, " ");
            extend_chars(&mut t, b);
            put(&mut t, ") #b0 #b1)");
            (t, none)
        },
        Op::Ult => (cmp_term("bvult", a, b), none),
        Op::Ule => (cmp_term("bvule", a, b), none),
        Op::Ugt => (cmp_term("bvugt", a, b), none),
        Op::Uge => (cmp_term("bvuge", a, b), none),
        Op::Slt => (cmp_term("bvslt", a, b), none),
        Op::Sle => (cmp_term("bvsle", a, b), none),
        Op::Sgt => (cmp_term("bvsgt", a, b), none),
        _ => (cmp_term("bvsge", a, b), none),
    }
}

/// The term of an instruction's expression and the traps it adds.
fn expr_text(env: &Vec<(Id, Vec<char>, Type)>, e: &Expr) -> (r: Result<(Vec<char>, Vec<(Vec<char>, Vec<char>)>), String>)
    ensures
        match r {
            Ok((t, ts)) => expr_term(env_view(env@), e@) == Ok::<(Seq<char>, Seq<TrapM>), Seq<char>>((t@, traps_view(ts@))),
            Err(m) => expr_term(env_view(env@), e@) == Err::<(Seq<char>, Seq<TrapM>), Seq<char>>(m@),
        },
{
    let none: Vec<(Vec<char>, Vec<char>)> = Vec::new();
    assert(traps_view(none@) =~= seq![]);
    match e {
        Expr::Const { value } => Ok((bv_chars(value.bits, value.ty.width()), none)),
        Expr::Call { .. } => err("formal internal calls unsupported"),
        Expr::Apply { op, args } => {
            if args.len() == 0 {
                return err("formal candidate refers to an undefined value");
            }
            let second = if args.len() > 1 {
                args[1]
            } else {
                args[0]
            };
            let (a, ta) = match find(env, args[0]) {
                Some(x) => x,
                None => {
                    return err("formal candidate refers to an undefined value");
                },
            };
            let (b, _) = match find(env, second) {
                Some(x) => x,
                None => {
                    return err("formal candidate refers to an undefined value");
                },
            };
            if *op == Op::Select {
                if args.len() < 3 {
                    return err("formal candidate refers to an undefined value");
                }
                let (c, _) = match find(env, args[2]) {
                    Some(x) => x,
                    None => {
                        return err("formal candidate refers to an undefined value");
                    },
                };
                let mut t: Vec<char> = Vec::new();
                put(&mut t, "(ite (= ");
                extend_chars(&mut t, &a);
                put(&mut t, " #b1) ");
                extend_chars(&mut t, &b);
                put(&mut t, " ");
                extend_chars(&mut t, &c);
                put(&mut t, ")");
                Ok((t, none))
            } else {
                Ok(op_text(*op, &a, &b, ta.width()))
            }
        },
    }
}

/// The trap code of a list of traps.
fn trap_text(traps: &Vec<(Vec<char>, Vec<char>)>) -> (r: Vec<char>)
    ensures
        r@ == trap_term(traps_view(traps@)),
{
    let ghost tv = traps_view(traps@);
    let mut rest = chars_of("#b00");
    let mut i: usize = traps.len();
    assert(tv.subrange(i as int, tv.len() as int) =~= seq![]);
    while i > 0
        invariant
            0 <= i <= traps@.len(),
            tv == traps_view(traps@),
            tv.len() == traps@.len(),
            rest@ == trap_term(tv.subrange(i as int, tv.len() as int)),
        decreases i,
    {
        i -= 1;
        let t = &traps[i];
        let mut next: Vec<char> = Vec::new();
        put(&mut next, "(ite ");
        extend_chars(&mut next, &t.0);
        put(&mut next, " ");
        extend_chars(&mut next, &t.1);
        put(&mut next, " ");
        extend_chars(&mut next, &rest);
        put(&mut next, ")");
        proof {
            let sub = tv.subrange(i as int, tv.len() as int);
            assert(sub[0] == (t.0@, t.1@));
            assert(sub.drop_first() =~= tv.subrange(i + 1, tv.len() as int));
        }
        rest = next;
    }
    assert(tv.subrange(0, tv.len() as int) =~= tv);
    rest
}

/// The symbolic meaning of a one-block, call-free function: each
/// instruction is defined as `<prefix><id>`, the arguments are `x0`,
/// `x1`, ..., and division traps are kept in program order.
pub fn symbolic_of(f: &Function, prefix: &str) -> (r: Result<Symbolic, String>)
    ensures
        symbolic_result(r) == spec_symbolic(f@, prefix@),
{
    if f.blocks.len() != 1 || f.callees.len() != 0 {
        return err("formal candidate subset requires one block and no calls");
    }
    let ghost fm = f@;
    let mut env: Vec<(Id, Vec<char>, Type)> = Vec::new();
    let mut n: usize = 0;
    while n < f.parameters.len()
        invariant
            0 <= n <= f.parameters@.len(),
            fm == f@,
            env@.len() == n,
            forall|k: int|
                0 <= k < n ==> #[trigger] env_view(env@)[k] == (
                    fm.parameters[k].id,
                    "x"@ + dec(k as nat),
                    fm.parameters[k].ty,
                ),
        decreases f.parameters@.len() - n,
    {
        let p = &f.parameters[n];
        let mut name: Vec<char> = Vec::new();
        name.push('x');
        extend_chars(&mut name, &decimal_u64(n as u64));
        proof {
            reveal_strlit("x");
            assert(name@ =~= "x"@ + dec(n as nat));
        }
        let ghost prev = env@;
        env.push((p.id, name, p.ty));
        assert(env_view(env@) =~= env_view(prev).push((p.id, name@, p.ty)));
        n += 1;
    }
    assert(env_view(env@) =~= param_env(fm.parameters));
    let block = &f.blocks[0];
    let ghost is = fm.blocks[0].instructions;
    assert(is == block.instructions@.map_values(|x: crate::ir::Instruction| x@));
    let pre = chars_of(prefix);
    let mut definitions: Vec<char> = Vec::new();
    let mut traps: Vec<(Vec<char>, Vec<char>)> = Vec::new();
    let mut i: usize = 0;
    assert(is.take(0) =~= seq![]);
    assert(traps_view(traps@) =~= seq![]);
    while i < block.instructions.len()
        invariant
            0 <= i <= block.instructions@.len(),
            fm == f@,
            f.blocks@.len() == 1,
            f.callees@.len() == 0,
            block == &f.blocks@[0],
            is == fm.blocks[0].instructions,
            is == block.instructions@.map_values(|x: crate::ir::Instruction| x@),
            is.len() == block.instructions@.len(),
            pre@ == prefix@,
            sym_run(fm.parameters, is.take(i as int), prefix@) == Ok::<SymState, Seq<char>>(
                SymState { env: env_view(env@), definitions: definitions@, traps: traps_view(traps@) },
            ),
        decreases block.instructions@.len() - i,
    {
        let ins = &block.instructions[i];
        assert(is[i as int] == ins@);
        let ghost e0 = env_view(env@);
        let ghost d0 = definitions@;
        let ghost t0 = traps_view(traps@);
        assert(is.take(i + 1 as int).drop_last() =~= is.take(i as int));
        let (value, added) = match expr_text(&env, &ins.expr) {
            Ok(x) => x,
            Err(m) => {
                proof {
                    assert(is.take(i + 1 as int).last() == is[i as int]);
                    assert(sym_run(fm.parameters, is.take(i + 1 as int), prefix@) is Err);
                    lemma_run_err_prefix(fm.parameters, is, prefix@, (i + 1) as nat);
                }
                return Err(m);
            },
        };
        let mut name: Vec<char> = Vec::new();
        extend_chars(&mut name, &pre);
        extend_chars(&mut name, &decimal_u64(ins.id as u64));
        let mut line: Vec<char> = Vec::new();
        put(&mut line, "(define-fun ");
        extend_chars(&mut line, &name);
        put(&mut line, " () (_ BitVec ");
        extend_chars(&mut line, &decimal_u64(ins.ty.width() as u64));
        put(&mut line, ") ");
        extend_chars(&mut line, &value);
        put(&mut line, ")\n");
        assert(line@ =~= definition(name@, ins.ty, value@));
        extend_chars(&mut definitions, &line);
        let ghost old_traps = traps_view(traps@);
        let mut j: usize = 0;
        while j < added.len()
            invariant
                0 <= j <= added@.len(),
                traps_view(traps@) == old_traps + traps_view(added@).take(j as int),
            decreases added@.len() - j,
        {
            let t = &added[j];
            let ghost prev = traps@;
            traps.push((chars_copy(&t.0), chars_copy(&t.1)));
            assert(traps_view(traps@) =~= traps_view(prev).push((t.0@, t.1@)));
            assert(traps_view(added@).take(j + 1 as int) =~= traps_view(added@).take(j as int).push((t.0@, t.1@)));
            assert(traps_view(traps@) =~= old_traps + traps_view(added@).take(j + 1 as int));
            j += 1;
        }
        assert(traps_view(added@).take(added@.len() as int) =~= traps_view(added@));
        let ghost name_v = name@;
        let ghost prev = env@;
        env.push((ins.id, name, ins.ty));
        assert(env_view(env@) =~= env_view(prev).push((ins@.id, name_v, ins@.ty)));
        proof {
            assert(name_v == prefix@ + dec(is[i as int].id as nat));
            assert(expr_term(e0, is[i as int].expr) == Ok::<(Seq<char>, Seq<TrapM>), Seq<char>>((value@, traps_view(added@))));
            assert(is.take(i + 1 as int).last() == is[i as int]);
            assert(definitions@ == d0 + definition(name_v, is[i as int].ty, value@));
            assert(traps_view(traps@) == t0 + traps_view(added@));
        }
        i += 1;
    }
    assert(is.take(i as int) =~= is);
    let ret = match &block.terminator {
        Terminator::Return { value } => *value,
        _ => {
            return err("formal candidate requires a return");
        },
    };
    let (value, _) = match find(&env, ret) {
        Some(x) => x,
        None => {
            return err("formal candidate refers to an undefined value");
        },
    };
    let trap = trap_text(&traps);
    let mut completed: Vec<char> = Vec::new();
    put(&mut completed, "(= ");
    extend_chars(&mut completed, &trap);
    put(&mut completed, " #b00)");
    Ok(
        Symbolic {
            definitions: string_of(&definitions),
            value: string_of(&value),
            completed: string_of(&completed),
            trap: string_of(&trap),
        },
    )
}

proof fn lemma_run_err_prefix(ps: Seq<Param>, is: Seq<InstructionM>, prefix: Seq<char>, k: nat)
    requires
        k <= is.len(),
        sym_run(ps, is.take(k as int), prefix) is Err,
    ensures
        sym_run(ps, is, prefix) == sym_run(ps, is.take(k as int), prefix),
    decreases is.len() - k,
{
    if k < is.len() {
        assert(is.take(k + 1 as int).drop_last() =~= is.take(k as int));
        lemma_run_err_prefix(ps, is, prefix, k + 1);
    } else {
        assert(is.take(k as int) =~= is);
    }
}

/// The symbolic meaning of a candidate that validates; validation errors
/// are returned as they come.
pub fn candidate(f: &Function, prefix: &str) -> (r: Result<Symbolic, String>)
    ensures
        r is Ok ==> shape_ok(f@),
        r is Ok ==> symbolic_result(r) == spec_symbolic(f@, prefix@),
        spec_symbolic(f@, prefix@) is Err ==> r is Err,
        crate::validate::wf(f@) ==> symbolic_result(r) == spec_symbolic(f@, prefix@),
        r is Ok <==> crate::validate::wf(f@) && spec_symbolic(f@, prefix@) is Ok,
{
    f.validate()?;
    symbolic_of(f, prefix)
}

// ---------------------------------------------------------------------------
// The query.

pub open spec fn declarations(ps: Seq<Param>) -> Seq<char>
    decreases ps.len(),
{
    if ps.len() == 0 {
        seq![]
    } else {
        declarations(ps.drop_last()) + "(declare-fun x"@ + dec((ps.len() - 1) as nat) + " () (_ BitVec "@
            + dec(ps.last().ty.spec_width() as nat) + "))\n"@
    }
}

/// The query whose models are the inputs on which `a` and `b` differ: in
/// their trap codes, or in their values where both complete.
pub open spec fn spec_query(ps: Seq<Param>, a: SymbolicM, b: SymbolicM) -> Seq<char> {
    "(set-logic QF_BV)\n"@ + declarations(ps) + a.definitions + b.definitions
        + "(assert (or (not (= "@ + a.trap + " "@ + b.trap + ")) (and "@ + a.completed + " "@ + b.completed
        + " (not (= "@ + a.value + " "@ + b.value + ")))))\n"@
}

/// The query whose models are the inputs on which `a` and `b` differ.
pub fn query(f: &Function, a: &Symbolic, b: &Symbolic) -> (r: String)
    ensures
        r@ == spec_query(f@.parameters, a@, b@),
{
    let ghost ps = f@.parameters;
    let mut q: Vec<char> = Vec::new();
    put(&mut q, "(set-logic QF_BV)\n");
    let ghost head = q@;
    let mut n: usize = 0;
    while n < f.parameters.len()
        invariant
            0 <= n <= f.parameters@.len(),
            ps == f@.parameters,
            q@ == head + declarations(ps.take(n as int)),
        decreases f.parameters@.len() - n,
    {
        put(&mut q, "(declare-fun x");
        extend_chars(&mut q, &decimal_u64(n as u64));
        put(&mut q, " () (_ BitVec ");
        extend_chars(&mut q, &decimal_u64(f.parameters[n].ty.width() as u64));
        put(&mut q, "))\n");
        proof {
            let t = ps.take(n + 1 as int);
            assert(t.drop_last() =~= ps.take(n as int));
            assert(t.last() == ps[n as int]);
        }
        n += 1;
    }
    assert(ps.take(n as int) =~= ps);
    extend_chars(&mut q, &chars_of(a.definitions.as_str()));
    extend_chars(&mut q, &chars_of(b.definitions.as_str()));
    put(&mut q, "(assert (or (not (= ");
    extend_chars(&mut q, &chars_of(a.trap.as_str()));
    put(&mut q, " ");
    extend_chars(&mut q, &chars_of(b.trap.as_str()));
    put(&mut q, ")) (and ");
    extend_chars(&mut q, &chars_of(a.completed.as_str()));
    put(&mut q, " ");
    extend_chars(&mut q, &chars_of(b.completed.as_str()));
    put(&mut q, " (not (= ");
    extend_chars(&mut q, &chars_of(a.value.as_str()));
    put(&mut q, " ");
    extend_chars(&mut q, &chars_of(b.value.as_str()));
    put(&mut q, ")))))\n");
    string_of(&q)
}

// ---------------------------------------------------------------------------
// The solver's answers.

/// What the solver says of a query.
#[derive(Clone, Debug, PartialEq, Eq)]
pub enum Answer {
    Unsat,
    Sat(Vec<u64>),
    Timeout,
    Unknown(String),
}

/// The verdict of an equivalence check.
#[derive(Clone, Copy, Debug, PartialEq, Eq, Structural)]
pub enum Status {
    Equivalent,
    Counterexample,
    Timeout,
    Unsupported,
    Unknown,
}

/// Unicode White_Space, the characters that `str::trim` removes.
pub open spec fn is_white(c: char) -> bool {
    let u = c as u32;
    ||| 9 <= u <= 13
    ||| u == 32
    ||| u == 0x85
    ||| u == 0xa0
    ||| u == 0x1680
    ||| 0x2000 <= u <= 0x200a
    ||| u == 0x2028
    ||| u == 0x2029
    ||| u == 0x202f
    ||| u == 0x205f
    ||| u == 0x3000
}

fn white(c: char) -> (r: bool)
    ensures
        r == is_white(c),
{
    let u = c as u32;
    (9 <= u && u <= 13) || u == 32 || u == 0x85 || u == 0xa0 || u == 0x1680 || (0x2000 <= u && u
        <= 0x200a) || u == 0x2028 || u == 0x2029 || u == 0x202f || u == 0x205f || u == 0x3000
}

/// The first position from `i` on that holds no white space.
pub open spec fn first_dark(s: Seq<char>, i: int) -> int
    decreases s.len() - i,
{
    if i >= s.len() || i < 0 {
        s.len() as int
    } else if !is_white(s[i]) {
        i
    } else {
        first_dark(s, i + 1)
    }
}

/// The end of the last stretch below `j` that holds no white space.
pub open spec fn last_dark(s: Seq<char>, j: int) -> int
    decreases j,
{
    if j <= 0 || j > s.len() {
        0
    } else if !is_white(s[j - 1]) {
        j
    } else {
        last_dark(s, j - 1)
    }
}

/// `s` without its leading and trailing white space.
pub open spec fn trim(s: Seq<char>) -> Seq<char> {
    let i = first_dark(s, 0);
    let j = last_dark(s, s.len() as int);
    if j <= i {
        seq![]
    } else {
        s.subrange(i, j)
    }
}

/// `s` without its leading and trailing white space.
pub fn trim_chars(s: &[char]) -> (r: Vec<char>)
    ensures
        r@ == trim(s@),
{
    let mut i: usize = 0;
    while i < s.len() && white(s[i])
        invariant
            0 <= i <= s@.len(),
            first_dark(s@, 0) == first_dark(s@, i as int),
        decreases s@.len() - i,
    {
        i += 1;
    }
    let mut j: usize = s.len();
    while j > 0 && white(s[j - 1])
        invariant
            0 <= j <= s@.len(),
            last_dark(s@, s@.len() as int) == last_dark(s@, j as int),
        decreases j,
    {
        j -= 1;
    }
    let mut out: Vec<char> = Vec::new();
    if i < j {
        let mut k: usize = i;
        while k < j
            invariant
                i <= k <= j <= s@.len(),
                out@ == s@.subrange(i as int, k as int),
            decreases j - k,
        {
            out.push(s[k]);
            k += 1;
            assert(out@ =~= s@.subrange(i as int, k as int));
        }
    } else {
        assert(out@ =~= seq![]);
    }
    out
}

/// Separators of the tokens of a solver model: white space and brackets.
pub open spec fn is_sep(c: char) -> bool {
    is_white(c) || c == '(' || c == ')'
}

/// The tokens of `s` from `i` on, after the tokens `done` and the
/// unfinished token `cur`.
pub open spec fn split_from(s: Seq<char>, i: int, cur: Seq<char>, done: Seq<Seq<char>>) -> Seq<
    Seq<char>,
>
    decreases s.len() - i,
{
    if i >= s.len() || i < 0 {
        if cur.len() > 0 {
            done.push(cur)
        } else {
            done
        }
    } else if is_sep(s[i]) {
        split_from(
            s,
            i + 1,
            seq![],
            if cur.len() > 0 {
                done.push(cur)
            } else {
                done
            },
        )
    } else {
        split_from(s, i + 1, cur.push(s[i]), done)
    }
}

/// The nonempty stretches of `s` between separators, in order.
pub open spec fn tokens(s: Seq<char>) -> Seq<Seq<char>> {
    split_from(s, 0, seq![], seq![])
}

pub open spec fn tokens_view(v: Seq<Vec<char>>) -> Seq<Seq<char>> {
    v.map_values(|t: Vec<char>| t@)
}

/// The tokens of `s`.
pub fn split_tokens(s: &[char]) -> (r: Vec<Vec<char>>)
    ensures
        tokens_view(r@) == tokens(s@),
{
    let mut done: Vec<Vec<char>> = Vec::new();
    let mut cur: Vec<char> = Vec::new();
    let mut i: usize = 0;
    assert(tokens_view(done@) =~= seq![]);
    while i < s.len()
        invariant
            0 <= i <= s@.len(),
            tokens(s@) == split_from(s@, i as int, cur@, tokens_view(done@)),
        decreases s@.len() - i,
    {
        let c = s[i];
        if white(c) || c == '(' || c == ')' {
            if cur.len() > 0 {
                let ghost prev = done@;
                done.push(cur);
                assert(tokens_view(done@) =~= tokens_view(prev).push(cur@));
                cur = Vec::new();
            }
            assert(cur@ =~= seq![]);
        } else {
            cur.push(c);
        }
        i += 1;
    }
    if cur.len() > 0 {
        let ghost prev = done@;
        done.push(cur);
        assert(tokens_view(done@) =~= tokens_view(prev).push(cur@));
    }
    done
}

/// The value of a digit in `radix`, as `char::to_digit` reads it.
pub open spec fn digit_value(c: char, radix: u64) -> Option<u64> {
    let u = c as u32;
    let d: int = if 48 <= u <= 57 {
        u - 48
    } else if 97 <= u <= 122 {
        u - 97 + 10
    } else if 65 <= u <= 90 {
        u - 65 + 10
    } else {
        99
    };
    if d < radix {
        Some(d as u64)
    } else {
        None
    }
}

pub open spec fn invalid_digit() -> Seq<char> {
    "invalid digit found in string"@
}

/// The number of the digits `ds` after `acc`, read left to right, as
/// `u64::from_str_radix` reads it.
pub open spec fn radix_from(ds: Seq<char>, radix: u64, acc: u64) -> Result<u64, Seq<char>>
    decreases ds.len(),
{
    if ds.len() == 0 {
        Ok(acc)
    } else {
        match digit_value(ds[0], radix) {
            None => Err(invalid_digit()),
            Some(d) => if acc * radix + d > u64::MAX {
                Err("number too large to fit in target type"@)
            } else {
                radix_from(ds.drop_first(), radix, (acc * radix + d) as u64)
            },
        }
    }
}

/// `u64::from_str_radix`: an optional `+` and the digits of a number.
pub open spec fn parse_radix(s: Seq<char>, radix: u64) -> Result<u64, Seq<char>> {
    if s.len() == 0 {
        Err("cannot parse integer from empty string"@)
    } else if s[0] == '+' {
        if s.len() == 1 {
            Err(invalid_digit())
        } else {
            radix_from(s.drop_first(), radix, 0)
        }
    } else {
        radix_from(s, radix, 0)
    }
}

fn digit_of(c: char, radix: u64) -> (r: Option<u64>)
    requires
        2 <= radix <= 36,
    ensures
        r == digit_value(c, radix),
{
    let u = c as u32;
    let d: u64 = if 48 <= u && u <= 57 {
        (u - 48) as u64
    } else if 97 <= u && u <= 122 {
        (u - 97 + 10) as u64
    } else if 65 <= u && u <= 90 {
        (u - 65 + 10) as u64
    } else {
        99
    };
    if d < radix {
        Some(d)
    } else {
        None
    }
}

/// `u64::from_str_radix` on characters.
pub fn parse_radix_chars(s: &[char], radix: u64) -> (r: Result<u64, String>)
    requires
        2 <= radix <= 36,
    ensures
        match r {
            Ok(v) => parse_radix(s@, radix) == Ok::<u64, Seq<char>>(v),
            Err(e) => parse_radix(s@, radix) == Err::<u64, Seq<char>>(e@),
        },
{
    if s.len() == 0 {
        return err("cannot parse integer from empty string");
    }
    let mut i: usize = 0;
    if s[0] == '+' {
        if s.len() == 1 {
            return err("invalid digit found in string");
        }
        i = 1;
    }
    let ghost ds = s@.subrange(i as int, s@.len() as int);
    assert(ds == (if s@[0] == '+' { s@.drop_first() } else { s@ }));
    let mut acc: u64 = 0;
    while i < s.len()
        invariant
            1 <= s@.len(),
            0 <= i <= s@.len(),
            2 <= radix <= 36,
            radix_from(ds, radix, 0) == radix_from(s@.subrange(i as int, s@.len() as int), radix, acc),
            parse_radix(s@, radix) == radix_from(ds, radix, 0),
        decreases s@.len() - i,
    {
        let ghost rest = s@.subrange(i as int, s@.len() as int);
        assert(rest[0] == s@[i as int]);
        assert(rest.drop_first() =~= s@.subrange(i + 1, s@.len() as int));
        let d = match digit_of(s[i], radix) {
            None => {
                return err("invalid digit found in string");
            },
            Some(d) => d,
        };
        let next = match acc.checked_mul(radix) {
            None => None,
            Some(x) => x.checked_add(d),
        };
        proof {
            if acc * radix > u64::MAX {
                assert(acc * radix + d > u64::MAX);
            }
        }
        acc = match next {
            None => {
                return err("number too large to fit in target type");
            },
            Some(x) => x,
        };
        i += 1;
    }
    assert(s@.subrange(i as int, s@.len() as int) =~= seq![]);
    Ok(acc)
}

pub open spec fn unsupported_encoding() -> Seq<char> {
    "unsupported solver value encoding"@
}

/// The value of a model constant: `#x` and hexadecimal digits, or `#b`
/// and binary digits.
pub open spec fn constant_value(t: Seq<char>) -> Result<u64, Seq<char>> {
    if t.len() >= 2 && t[0] == '#' && t[1] == 'x' {
        parse_radix(t.subrange(2, t.len() as int), 16)
    } else if t.len() >= 2 && t[0] == '#' && t[1] == 'b' {
        parse_radix(t.subrange(2, t.len() as int), 2)
    } else {
        Err(unsupported_encoding())
    }
}

/// The values of arguments `n` and on, each named `x<n>` before its value.
pub open spec fn model_from(ts: Seq<Seq<char>>, n: nat, arguments: nat) -> Result<Seq<u64>, Seq<char>>
    decreases arguments - n,
{
    if n >= arguments {
        Ok(seq![])
    } else if ts[1 + 2 * n as int] != "x"@ + dec(n) {
        Err("solver model argument order mismatch"@)
    } else {
        match constant_value(ts[2 + 2 * n as int]) {
            Err(e) => Err(e),
            Ok(v) => match model_from(ts, n + 1, arguments) {
                Err(e) => Err(e),
                Ok(rest) => Ok(seq![v] + rest),
            },
        }
    }
}

/// The argument values of a satisfying model, as the solver prints them
/// for `(get-value (x0 x1 ...))`.
pub open spec fn spec_model(output: Seq<char>, arguments: nat) -> Result<Seq<u64>, Seq<char>> {
    let ts = tokens(output);
    if ts.len() != 1 + 2 * arguments || ts[0] != "sat"@ {
        Err("invalid solver model response: "@ + output)
    } else {
        model_from(ts, 0, arguments)
    }
}

/// The argument values of a satisfying model.
pub fn model_values(output: &str, arguments: usize) -> (r: Result<Vec<u64>, String>)
    ensures
        match r {
            Ok(v) => spec_model(output@, arguments as nat) == Ok::<Seq<u64>, Seq<char>>(v@),
            Err(e) => spec_model(output@, arguments as nat) == Err::<Seq<u64>, Seq<char>>(e@),
        },
{
    let text = chars_of(output);
    let ts = split_tokens(&text);
    let ghost tv = tokens_view(ts@);
    let sat = chars_of("sat");
    if ts.len() == 0 || (ts.len() - 1) % 2 != 0 || (ts.len() - 1) / 2 != arguments || !crate::text::chars_eq(
        &ts[0],
        &sat,
    ) {
        proof {
            if ts.len() > 0 {
                assert(tv[0] == ts@[0]@);
            }
        }
        let mut m: Vec<char> = Vec::new();
        put(&mut m, "invalid solver model response: ");
        extend_chars(&mut m, &text);
        return Err(string_of(&m));
    }
    let mut values: Vec<u64> = Vec::new();
    let mut n: usize = 0;
    assert(tv[0] == ts@[0]@);
    assert(values@ + seq![] =~= values@);
    while n < arguments
        invariant
            0 <= n <= arguments,
            ts@.len() == 1 + 2 * arguments,
            ts.len() == ts@.len(),
            tv == tokens_view(ts@),
            tv.len() == ts@.len(),
            spec_model(output@, arguments as nat) == model_from(tv, 0, arguments as nat),
            model_from(tv, 0, arguments as nat) == match model_from(tv, n as nat, arguments as nat) {
                Err(e) => Err::<Seq<u64>, Seq<char>>(e),
                Ok(rest) => Ok(values@ + rest),
            },
        decreases arguments - n,
    {
        let mut name: Vec<char> = Vec::new();
        name.push('x');
        extend_chars(&mut name, &decimal_u64(n as u64));
        proof {
            reveal_strlit("x");
            assert(name@ =~= "x"@ + dec(n as nat));
            assert(tv[1 + 2 * n] == ts@[1 + 2 * n]@);
            assert(tv[2 + 2 * n] == ts@[2 + 2 * n]@);
        }
        if !crate::text::chars_eq(&ts[1 + 2 * n], &name) {
            return err("solver model argument order mismatch");
        }
        let t = &ts[2 + 2 * n];
        let v = if t.len() >= 2 && t[0] == '#' && t[1] == 'x' {
            let digits = tail(t, 2);
            parse_radix_chars(&digits, 16)
        } else if t.len() >= 2 && t[0] == '#' && t[1] == 'b' {
            let digits = tail(t, 2);
            parse_radix_chars(&digits, 2)
        } else {
            err("unsupported solver value encoding")
        };
        let v = match v {
            Err(e) => {
                return Err(e);
            },
            Ok(v) => v,
        };
        proof {
            assert(values@.push(v) + match model_from(tv, (n + 1) as nat, arguments as nat) {
                Ok(rest) => rest,
                Err(_) => seq![],
            } =~= values@ + (seq![v] + match model_from(tv, (n + 1) as nat, arguments as nat) {
                Ok(rest) => rest,
                Err(_) => seq![],
            }));
        }
        values.push(v);
        n += 1;
    }
    assert(values@ + seq![] =~= values@);
    Ok(values)
}

/// The characters of `t` from `k` on.
fn tail(t: &Vec<char>, k: usize) -> (r: Vec<char>)
    requires
        k <= t@.len(),
    ensures
        r@ == t@.subrange(k as int, t@.len() as int),
{
    let mut out: Vec<char> = Vec::new();
    let mut i: usize = k;
    while i < t.len()
        invariant
            k <= i <= t@.len(),
            out@ == t@.subrange(k as int, i as int),
        decreases t@.len() - i,
    {
        out.push(t[i]);
        i += 1;
        assert(out@ =~= t@.subrange(k as int, i as int));
    }
    out
}

pub open spec fn unknown_reason() -> Seq<char> {
    "solver returned unknown (possibly internal resource limit)"@
}

/// What the first answer to a query says: unsatisfiable, unknown, or
/// satisfiable, in which case a model is needed unless there are no
/// arguments. Anything else is an error.
pub fn check_sat_answer(output: &str, arguments: usize) -> (r: Result<Option<Answer>, String>)
    ensures
        trim(output@) == "unsat"@ ==> r == Ok::<Option<Answer>, String>(Some(Answer::Unsat)),
        trim(output@) == "unknown"@ ==> (r matches Ok(Some(Answer::Unknown(m))) && m@ == unknown_reason()),
        trim(output@) == "sat"@ && arguments == 0 ==> (r matches Ok(Some(Answer::Sat(v))) && v@.len() == 0),
        trim(output@) == "sat"@ && arguments > 0 ==> r == Ok::<Option<Answer>, String>(None),
        trim(output@) != "unsat"@ && trim(output@) != "unknown"@ && trim(output@) != "sat"@ ==> (r matches Err(
            e,
        ) && e@ == "unexpected solver response: "@ + output@),
{
    proof {
        reveal_strlit("unsat");
        reveal_strlit("unknown");
        reveal_strlit("sat");
        assert("unsat"@.len() == 5);
        assert("unknown"@.len() == 7);
        assert("sat"@.len() == 3);
    }
    let text = chars_of(output);
    let t = trim_chars(&text);
    if crate::text::chars_eq(&t, &chars_of("unsat")) {
        return Ok(Some(Answer::Unsat));
    }
    if crate::text::chars_eq(&t, &chars_of("unknown")) {
        return Ok(Some(Answer::Unknown("solver returned unknown (possibly internal resource limit)".to_owned())));
    }
    if crate::text::chars_eq(&t, &chars_of("sat")) {
        if arguments == 0 {
            return Ok(Some(Answer::Sat(Vec::new())));
        }
        return Ok(None);
    }
    let mut m: Vec<char> = Vec::new();
    put(&mut m, "unexpected solver response: ");
    extend_chars(&mut m, &text);
    Err(string_of(&m))
}

/// The script that asks for a verdict within `timeout_ms`.
pub fn check_payload(timeout_ms: u64, query: &str) -> (r: String)
    ensures
        r@ == "(set-option :timeout "@ + dec(timeout_ms as nat) + ")\n"@ + query@ + "\n(check-sat)\n"@,
{
    let mut out: Vec<char> = Vec::new();
    put(&mut out, "(set-option :timeout ");
    extend_chars(&mut out, &decimal_u64(timeout_ms));
    put(&mut out, ")\n");
    put(&mut out, query);
    put(&mut out, "\n(check-sat)\n");
    string_of(&out)
}

/// `x0 x1 ... x<n-1>`, separated by single spaces.
pub open spec fn argument_names(n: nat) -> Seq<char>
    decreases n,
{
    if n == 0 {
        seq![]
    } else if n == 1 {
        "x"@ + dec(0)
    } else {
        argument_names((n - 1) as nat) + " "@ + "x"@ + dec((n - 1) as nat)
    }
}

/// The script that asks, after a verdict, for the arguments' values.
pub fn model_payload(payload: &str, arguments: usize) -> (r: String)
    ensures
        r@ == payload@ + "(get-value ("@ + argument_names(arguments as nat) + "))\n"@,
{
    let mut out: Vec<char> = Vec::new();
    put(&mut out, payload);
    put(&mut out, "(get-value (");
    let ghost head = out@;
    let mut n: usize = 0;
    while n < arguments
        invariant
            0 <= n <= arguments,
            out@ == head + argument_names(n as nat),
        decreases arguments - n,
    {
        if n > 0 {
            put(&mut out, " ");
        }
        put(&mut out, "x");
        extend_chars(&mut out, &decimal_u64(n as u64));
        proof {
            if n == 0 {
                assert(out@ =~= head + argument_names(1));
            } else {
                assert(out@ =~= head + argument_names((n + 1) as nat));
            }
        }
        n += 1;
    }
    put(&mut out, "))\n");
    string_of(&out)
}

/// The inputs of a satisfying model: each value must fit its argument's
/// width. Values past the last argument are ignored.
pub open spec fn model_inputs(types: Seq<Type>, bits: Seq<u64>) -> Result<Seq<crate::types::Value>, Seq<char>>
    decreases types.len(),
{
    if types.len() == 0 || bits.len() == 0 {
        Ok(seq![])
    } else if bits[0] & !types[0].spec_mask() != 0 {
        Err("solver value exceeds input width"@)
    } else {
        match model_inputs(types.drop_first(), bits.drop_first()) {
            Err(e) => Err(e),
            Ok(rest) => Ok(seq![crate::types::spec_value(types[0], bits[0])] + rest),
        }
    }
}

/// The verdict an answer gives by itself; a satisfying model leaves the
/// verdict to the replay of its inputs.
pub open spec fn spec_answer_status(a: Answer) -> Status {
    match a {
        Answer::Unsat => Status::Equivalent,
        Answer::Timeout => Status::Timeout,
        Answer::Unknown(_) => Status::Unknown,
        Answer::Sat(_) => Status::Unsupported,
    }
}

/// The verdict an answer gives by itself.
pub fn answer_status(a: &Answer) -> (r: Status)
    ensures
        r == spec_answer_status(*a),
{
    match a {
        Answer::Unsat => Status::Equivalent,
        Answer::Timeout => Status::Timeout,
        Answer::Unknown(_) => Status::Unknown,
        Answer::Sat(_) => Status::Unsupported,
    }
}

/// The inputs of a satisfying answer, for a function with parameters
/// `ps`; nothing for the other answers.
#[verifier::loop_isolation(false)]
pub fn answer_inputs(ps: &Vec<Param>, a: &Answer) -> (r: Result<Option<Vec<crate::types::Value>>, String>)
    ensures
        !(a is Sat) ==> r == Ok::<Option<Vec<crate::types::Value>>, String>(None),
        a matches Answer::Sat(bits) ==> match r {
            Ok(Some(v)) => model_inputs(ps@.map_values(|p: Param| p.ty), bits@) == Ok::<Seq<crate::types::Value>, Seq<char>>(v@),
            Ok(None) => false,
            Err(e) => model_inputs(ps@.map_values(|p: Param| p.ty), bits@) == Err::<Seq<crate::types::Value>, Seq<char>>(e@),
        },
{
    let bits = match a {
        Answer::Sat(bits) => bits,
        _ => {
            return Ok(None);
        },
    };
    let ghost types = ps@.map_values(|p: Param| p.ty);
    let mut values: Vec<crate::types::Value> = Vec::new();
    let mut i: usize = 0;
    assert(types.subrange(0, types.len() as int) =~= types);
    assert(bits@.subrange(0, bits@.len() as int) =~= bits@);
    while i < ps.len() && i < bits.len()
        invariant
            0 <= i <= ps@.len(),
            i <= bits@.len(),
            types == ps@.map_values(|p: Param| p.ty),
            model_inputs(types, bits@) == match model_inputs(
                types.subrange(i as int, types.len() as int),
                bits@.subrange(i as int, bits@.len() as int),
            ) {
                Err(e) => Err::<Seq<crate::types::Value>, Seq<char>>(e),
                Ok(rest) => Ok(values@ + rest),
            },
        decreases ps@.len() - i,
    {
        let t = ps[i].ty;
        let x = bits[i];
        proof {
            let ts = types.subrange(i as int, types.len() as int);
            let bs = bits@.subrange(i as int, bits@.len() as int);
            assert(ts[0] == t && bs[0] == x);
            assert(ts.drop_first() =~= types.subrange(i + 1, types.len() as int));
            assert(bs.drop_first() =~= bits@.subrange(i + 1, bits@.len() as int));
        }
        if x & !t.mask() != 0 {
            return err("solver value exceeds input width");
        }
        let v = crate::types::Value::new(t, x);
        proof {
            let rest = model_inputs(types.subrange(i + 1, types.len() as int), bits@.subrange(i + 1, bits@.len() as int));
            if rest is Ok {
                assert(values@.push(v) + rest->Ok_0 =~= values@ + (seq![v] + rest->Ok_0));
            }
        }
        values.push(v);
        i += 1;
    }
    proof {
        let ts = types.subrange(i as int, types.len() as int);
        let bs = bits@.subrange(i as int, bits@.len() as int);
        assert(ts.len() == 0 || bs.len() == 0);
        assert(values@ + seq![] =~= values@);
    }
    Ok(Some(values))
}

/// The verdict after replaying a model's inputs on the candidate and on
/// the reference: a counterexample when their outcomes differ; a modeling
/// error when they agree.
pub fn reference_verdict(candidate: &Execution, target: &Execution) -> (r: Result<Status, String>)
    ensures
        candidate@.outcome != target@.outcome ==> r == Ok::<Status, String>(Status::Counterexample),
        candidate@.outcome == target@.outcome ==> (r matches Err(e) && e@
            == "modeling error: reference counterexample does not replay"@),
{
    if same_outcome(&candidate.outcome, &target.outcome) {
        return err("modeling error: reference counterexample does not replay");
    }
    Ok(Status::Counterexample)
}

/// The verdict after replaying a model's inputs on the lifted binary
/// model, on the target binary itself and on the candidate: the model must agree
/// with the binary, and the candidate must not reproduce the binary's
/// value.
pub fn binary_verdict(model: Value, observed: Value, concrete: &Execution) -> (r: Result<Status, String>)
    ensures
        model != observed ==> (r matches Err(e) && e@
            == "modeling error: lifted target disagrees with original isolated oracle"@),
        model == observed && concrete@.outcome == OutcomeM::Completed(observed) ==> (r matches Err(e)
            && e@ == "modeling error: solver counterexample does not replay concretely"@),
        model == observed && concrete@.outcome != OutcomeM::Completed(observed) ==> r == Ok::<
            Status,
            String,
        >(Status::Counterexample),
{
    if model.ty != observed.ty || model.bits != observed.bits {
        return err("modeling error: lifted target disagrees with original isolated oracle");
    }
    if same_outcome(&concrete.outcome, &Outcome::Completed(observed)) {
        return err("modeling error: solver counterexample does not replay concretely");
    }
    Ok(Status::Counterexample)
}

} // verus!
