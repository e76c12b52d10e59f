//! The register-level model of a lifted x86-64 function: straight-line
//! assignments to caller-saved registers, run concretely or read as
//! bit-vector terms.
use iced_x86::{Code, Decoder, DecoderOptions, Mnemonic, OpKind, Register};
use object::{Object, ObjectSection, ObjectSymbol};
use vstd::prelude::*;
use vstd::utf8::encode_utf8;
use vstd::wrapping::u64_specs::{wrapping_add, wrapping_mul, wrapping_sub};

use crate::formal::{bv, dec, decimal_u64, spec_bv, Symbolic, SymbolicM};
use crate::sig::{sig_valid, Signature};
use crate::cuda::{bytes_eq, copy_span};
use crate::text::{chars_copy, chars_of, err, extend_chars, string_of};
use crate::types::{Type, Value};

verus! {

/// The version of the lifter that produced a model.
pub const LIFTER_VERSION: &'static str = "gremlin-x86-register-v2/iced-x86-1.21.0";

/// An operand: a register (its number and width in bits) or an immediate.
#[derive(Clone, Copy, Debug, PartialEq, Eq, Structural)]
pub enum Operand {
    Reg(u8, u32),
    Imm(u64),
}

#[derive(Clone, Copy, Debug, PartialEq, Eq, Structural)]
pub enum BinaryOp {
    Add,
    Sub,
    Mul,
    And,
    Or,
    Xor,
}

#[derive(Clone, Copy, Debug, PartialEq, Eq, Structural)]
pub enum UnaryOp {
    Not,
    Neg,
}

/// What an instruction computes.
#[derive(Clone, Copy, Debug, PartialEq, Eq, Structural)]
pub enum Operation {
    Move(Operand),
    Binary(BinaryOp, Operand, Operand),
    Unary(UnaryOp, Operand),
    /// Base, index, scale and displacement of an address computation.
    Lea(Option<u8>, Option<u8>, u32, u64),
}

/// One instruction: the destination register, the width written, and the
/// operation.
#[derive(Clone, Copy, Debug, PartialEq, Eq, Structural)]
pub struct Assignment {
    pub dst: u8,
    pub width: u32,
    pub operation: Operation,
}

/// A lifted function: where it came from, its signature and its
/// assignments.
#[derive(Clone, Debug)]
pub struct BinaryModel {
    pub binary_hash: String,
    pub symbol: String,
    pub entry: u64,
    pub size: u64,
    pub code_hash: String,
    pub lifter: String,
    pub signature: Signature,
    pub instructions: Vec<Assignment>,
}

/// A model that can run: at most four arguments, one per argument
/// register, and every assignment writes 1 to 64 bits.
pub open spec fn model_ok(args: Seq<Type>, is: Seq<Assignment>) -> bool {
    &&& args.len() <= 4
    &&& forall|i: int| 0 <= i < is.len() ==> 1 <= (#[trigger] is[i]).width <= 64
}

impl BinaryModel {
    pub open spec fn wf(&self) -> bool {
        model_ok(self.signature.arguments@, self.instructions@)
    }
}

// ---------------------------------------------------------------------------
// Running the model.

/// The register that holds argument `n` under the System V ABI.
pub open spec fn arg_register(n: int) -> u8 {
    if n == 0 {
        4
    } else if n == 1 {
        3
    } else if n == 2 {
        2
    } else {
        1
    }
}

/// The argument held in register `r`, if any.
pub open spec fn register_arg(r: int) -> int {
    if r == 4 {
        0
    } else if r == 3 {
        1
    } else if r == 2 {
        2
    } else if r == 1 {
        3
    } else {
        -1
    }
}

/// An argument as the caller passes it: sign- or zero-extended to 64 bits.
pub open spec fn arg_word(v: Value) -> u64 {
    if v.ty.spec_signed() {
        v.spec_signed() as u64
    } else {
        v.bits
    }
}

pub open spec fn initial_registers(args: Seq<Value>) -> Seq<Option<u64>> {
    Seq::new(
        256,
        |r: int|
            if 0 <= register_arg(r) < args.len() {
                Some(arg_word(args[register_arg(r)]))
            } else {
                None
            },
    )
}

pub open spec fn read_word(regs: Seq<Option<u64>>, o: Operand) -> Result<u64, Seq<char>> {
    match o {
        Operand::Imm(v) => Ok(v),
        Operand::Reg(r, _) => match regs[r as int] {
            Some(v) => Ok(v),
            None => Err("undefined register"@),
        },
    }
}

pub open spec fn lea_word(regs: Seq<Option<u64>>, r: Option<u8>) -> Result<u64, Seq<char>> {
    match r {
        None => Ok(0),
        Some(r) => match regs[r as int] {
            Some(v) => Ok(v),
            None => Err("undefined LEA register"@),
        },
    }
}

pub open spec fn binary_word(op: BinaryOp, a: u64, b: u64) -> u64 {
    match op {
        BinaryOp::Add => wrapping_add(a, b),
        BinaryOp::Sub => wrapping_sub(a, b),
        BinaryOp::Mul => wrapping_mul(a, b),
        BinaryOp::And => a & b,
        BinaryOp::Or => a | b,
        BinaryOp::Xor => a ^ b,
    }
}

pub open spec fn operation_word(regs: Seq<Option<u64>>, op: Operation) -> Result<u64, Seq<char>> {
    match op {
        Operation::Move(a) => read_word(regs, a),
        Operation::Unary(u, a) => match read_word(regs, a) {
            Err(e) => Err(e),
            Ok(x) => Ok(
                match u {
                    UnaryOp::Not => !x,
                    UnaryOp::Neg => wrapping_sub(0, x),
                },
            ),
        },
        Operation::Binary(b, x, y) => match read_word(regs, x) {
            Err(e) => Err(e),
            Ok(p) => match read_word(regs, y) {
                Err(e) => Err(e),
                Ok(q) => Ok(binary_word(b, p, q)),
            },
        },
        Operation::Lea(base, index, scale, disp) => match lea_word(regs, base) {
            Err(e) => Err(e),
            Ok(p) => match lea_word(regs, index) {
                Err(e) => Err(e),
                Ok(q) => Ok(wrapping_add(wrapping_add(p, wrapping_mul(q, scale as u64)), disp)),
            },
        },
    }
}

/// The low `width` bits of `x`, for a width of 1 to 64.
pub open spec fn truncated_word(x: u64, width: u32) -> u64 {
    x & (u64::MAX >> ((64 - width) as u64))
}

/// The registers after the assignments `is`.
pub open spec fn run_registers(init: Seq<Option<u64>>, is: Seq<Assignment>) -> Result<
    Seq<Option<u64>>,
    Seq<char>,
>
    decreases is.len(),
{
    if is.len() == 0 {
        Ok(init)
    } else {
        match run_registers(init, is.drop_last()) {
            Err(e) => Err(e),
            Ok(regs) => match operation_word(regs, is.last().operation) {
                Err(e) => Err(e),
                Ok(x) => Ok(regs.update(is.last().dst as int, Some(truncated_word(x, is.last().width)))),
            },
        }
    }
}

/// The inputs match the argument types.
pub open spec fn inputs_match(args: Seq<Type>, inputs: Seq<Value>) -> bool {
    inputs.len() == args.len() && forall|i: int| 0 <= i < inputs.len() ==> (#[trigger] inputs[i]).ty == args[i]
}

/// What the model returns on `inputs`: the return register, read at the
/// return type.
pub open spec fn spec_execute(args: Seq<Type>, ret: Type, is: Seq<Assignment>, inputs: Seq<Value>) -> Result<
    Value,
    Seq<char>,
> {
    if !inputs_match(args, inputs) {
        Err("binary model input signature mismatch"@)
    } else {
        match run_registers(initial_registers(inputs), is) {
            Err(e) => Err(e),
            Ok(regs) => match regs[0] {
                None => Err("undefined return register"@),
                Some(x) => Ok(crate::types::spec_value(ret, x)),
            },
        }
    }
}

fn read_reg(regs: &Vec<Option<u64>>, o: Operand) -> (r: Result<u64, String>)
    requires
        regs@.len() == 256,
    ensures
        match r {
            Ok(v) => read_word(regs@, o) == Ok::<u64, Seq<char>>(v),
            Err(e) => read_word(regs@, o) == Err::<u64, Seq<char>>(e@),
        },
{
    match o {
        Operand::Imm(v) => Ok(v),
        Operand::Reg(r, _) => match regs[r as usize] {
            Some(v) => Ok(v),
            None => err("undefined register"),
        },
    }
}

fn lea_reg(regs: &Vec<Option<u64>>, r: Option<u8>) -> (res: Result<u64, String>)
    requires
        regs@.len() == 256,
    ensures
        match res {
            Ok(v) => lea_word(regs@, r) == Ok::<u64, Seq<char>>(v),
            Err(e) => lea_word(regs@, r) == Err::<u64, Seq<char>>(e@),
        },
{
    match r {
        None => Ok(0),
        Some(r) => match regs[r as usize] {
            Some(v) => Ok(v),
            None => err("undefined LEA register"),
        },
    }
}

fn operation_value(regs: &Vec<Option<u64>>, op: Operation) -> (r: Result<u64, String>)
    requires
        regs@.len() == 256,
    ensures
        match r {
            Ok(v) => operation_word(regs@, op) == Ok::<u64, Seq<char>>(v),
            Err(e) => operation_word(regs@, op) == Err::<u64, Seq<char>>(e@),
        },
{
    match op {
        Operation::Move(a) => read_reg(regs, a),
        Operation::Unary(u, a) => {
            let x = read_reg(regs, a)?;
            Ok(
                match u {
                    UnaryOp::Not => !x,
                    UnaryOp::Neg => 0u64.wrapping_sub(x),
                },
            )
        },
        Operation::Binary(b, x, y) => {
            let p = read_reg(regs, x)?;
            let q = read_reg(regs, y)?;
            Ok(
                match b {
                    BinaryOp::Add => p.wrapping_add(q),
                    BinaryOp::Sub => p.wrapping_sub(q),
                    BinaryOp::Mul => p.wrapping_mul(q),
                    BinaryOp::And => p & q,
                    BinaryOp::Or => p | q,
                    BinaryOp::Xor => p ^ q,
                },
            )
        },
        Operation::Lea(base, index, scale, disp) => {
            let p = lea_reg(regs, base)?;
            let q = lea_reg(regs, index)?;
            Ok(p.wrapping_add(q.wrapping_mul(scale as u64)).wrapping_add(disp))
        },
    }
}

impl BinaryModel {
    /// Runs the model on `inputs`: arguments in the System V registers,
    /// each assignment in order, and the return register read at the
    /// return type.
    pub fn execute(&self, inputs: &[Value]) -> (r: Result<Value, String>)
        requires
            self.wf(),
        ensures
            match r {
                Ok(v) => spec_execute(
                    self.signature.arguments@,
                    self.signature.return_type,
                    self.instructions@,
                    inputs@,
                ) == Ok::<Value, Seq<char>>(v),
                Err(e) => spec_execute(
                    self.signature.arguments@,
                    self.signature.return_type,
                    self.instructions@,
                    inputs@,
                ) == Err::<Value, Seq<char>>(e@),
            },
    {
        let args = &self.signature.arguments;
        let mut ok = inputs.len() == args.len();
        let mut k: usize = 0;
        while ok && k < inputs.len()
            invariant
                0 <= k <= inputs@.len(),
                ok ==> inputs@.len() == args@.len(),
                ok ==> forall|i: int| 0 <= i < k ==> (#[trigger] inputs@[i]).ty == args@[i],
                !ok ==> !inputs_match(args@, inputs@),
            decreases inputs@.len() - k,
        {
            if inputs[k].ty != args[k] {
                ok = false;
            }
            k += 1;
        }
        if !ok {
            return err("binary model input signature mismatch");
        }
        let mut regs: Vec<Option<u64>> = Vec::new();
        let mut r: usize = 0;
        while r < 256
            invariant
                0 <= r <= 256,
                regs@.len() == r,
                inputs@.len() <= 4,
                forall|j: int| 0 <= j < r ==> #[trigger] regs@[j] == initial_registers(inputs@)[j],
            decreases 256 - r,
        {
            let slot: usize = if r == 4 {
                0
            } else if r == 3 {
                1
            } else if r == 2 {
                2
            } else if r == 1 {
                3
            } else {
                4
            };
            if slot < inputs.len() {
                let v = inputs[slot];
                let w = if v.ty.signed() {
                    #[verifier::truncate]
                    (v.signed() as u64)
                } else {
                    v.bits
                };
                regs.push(Some(w));
            } else {
                regs.push(None);
            }
            r += 1;
        }
        assert(regs@ =~= initial_registers(inputs@));
        let ghost init = regs@;
        let ghost is = self.instructions@;
        let mut i: usize = 0;
        while i < self.instructions.len()
            invariant
                0 <= i <= self.instructions@.len(),
                is == self.instructions@,
                regs@.len() == 256,
                run_registers(init, is.take(i as int)) == Ok::<Seq<Option<u64>>, Seq<char>>(regs@),
                init == initial_registers(inputs@),
                inputs_match(self.signature.arguments@, inputs@),
                forall|j: int| 0 <= j < is.len() ==> 1 <= (#[trigger] is[j]).width <= 64,
            decreases self.instructions@.len() - i,
        {
            let a = self.instructions[i];
            assert(is.take(i + 1 as int).drop_last() =~= is.take(i as int));
            assert(is.take(i + 1 as int).last() == a);
            let x = match operation_value(&regs, a.operation) {
                Ok(x) => x,
                Err(e) => {
                    proof {
                        lemma_run_err(init, is, (i + 1) as nat);
                    }
                    return Err(e);
                },
            };
            assert(1 <= is[i as int].width <= 64);
            let t = x & (u64::MAX >> ((64 - a.width) as u64));
            regs.set(a.dst as usize, Some(t));
            i += 1;
        }
        assert(is.take(i as int) =~= is);
        match regs[0] {
            None => err("undefined return register"),
            Some(x) => Ok(Value::new(self.signature.return_type, x)),
        }
    }
}

proof fn lemma_run_err(init: Seq<Option<u64>>, is: Seq<Assignment>, k: nat)
    requires
        k <= is.len(),
        run_registers(init, is.take(k as int)) is Err,
    ensures
        run_registers(init, is) == run_registers(init, is.take(k as int)),
    decreases is.len() - k,
{
    if k < is.len() {
        assert(is.take(k + 1 as int).drop_last() =~= is.take(k as int));
        lemma_run_err(init, is, k + 1);
    } else {
        assert(is.take(k as int) =~= is);
    }
}

// ---------------------------------------------------------------------------
// The model as bit-vector terms.

/// Argument `n` of type `t`, extended to 64 bits.
pub open spec fn arg_term(n: int, t: Type) -> Seq<char> {
    if t.spec_width() == 64 {
        "x"@ + dec(n as nat)
    } else {
        "((_ "@ + (if t.spec_signed() {
            "sign_extend"@
        } else {
            "zero_extend"@
        }) + " "@ + dec((64 - t.spec_width()) as nat) + ") x"@ + dec(n as nat) + ")"@
    }
}

pub open spec fn initial_terms(args: Seq<Type>) -> Seq<Option<Seq<char>>> {
    Seq::new(
        256,
        |r: int|
            if 0 <= register_arg(r) < args.len() {
                Some(arg_term(register_arg(r), args[register_arg(r)]))
            } else {
                None
            },
    )
}

pub open spec fn low_half(v: Seq<char>) -> Seq<char> {
    "((_ extract 31 0) "@ + v + ")"@
}

pub open spec fn read_term(regs: Seq<Option<Seq<char>>>, o: Operand, width: u32) -> Result<Seq<char>, Seq<char>> {
    match o {
        Operand::Imm(v) => Ok(spec_bv(v, width)),
        Operand::Reg(r, w) => if w != width {
            Err("mixed register widths unsupported"@)
        } else {
            match regs[r as int] {
                None => Err("read of undefined register"@),
                Some(v) => Ok(
                    if w == 64 {
                        v
                    } else {
                        low_half(v)
                    },
                ),
            }
        },
    }
}

pub open spec fn lea_term(regs: Seq<Option<Seq<char>>>, r: Option<u8>) -> Result<Seq<char>, Seq<char>> {
    match r {
        None => Ok(spec_bv(0, 64)),
        Some(r) => match regs[r as int] {
            None => Err("LEA reads undefined register"@),
            Some(v) => Ok(v),
        },
    }
}

pub open spec fn binary_name(op: BinaryOp) -> Seq<char> {
    match op {
        BinaryOp::Add => "(bvadd "@,
        BinaryOp::Sub => "(bvsub "@,
        BinaryOp::Mul => "(bvmul "@,
        BinaryOp::And => "(bvand "@,
        BinaryOp::Or => "(bvor "@,
        BinaryOp::Xor => "(bvxor "@,
    }
}

pub open spec fn unary_name(op: UnaryOp) -> Seq<char> {
    match op {
        UnaryOp::Not => "(bvnot "@,
        UnaryOp::Neg => "(bvneg "@,
    }
}

pub open spec fn operation_term(regs: Seq<Option<Seq<char>>>, a: Assignment) -> Result<Seq<char>, Seq<char>> {
    match a.operation {
        Operation::Move(x) => read_term(regs, x, a.width),
        Operation::Unary(u, x) => match read_term(regs, x, a.width) {
            Err(e) => Err(e),
            Ok(t) => Ok(unary_name(u) + t + ")"@),
        },
        Operation::Binary(b, x, y) => match read_term(regs, x, a.width) {
            Err(e) => Err(e),
            Ok(p) => match read_term(regs, y, a.width) {
                Err(e) => Err(e),
                Ok(q) => Ok(binary_name(b) + p + " "@ + q + ")"@),
            },
        },
        Operation::Lea(base, index, scale, disp) => match lea_term(regs, base) {
            Err(e) => Err(e),
            Ok(p) => match lea_term(regs, index) {
                Err(e) => Err(e),
                Ok(q) => {
                    let e = "(bvadd (bvadd "@ + p + " (bvmul "@ + q + " "@ + spec_bv(scale as u64, 64) + ")) "@
                        + spec_bv(disp, 64) + ")"@;
                    Ok(
                        if a.width == 32 {
                            low_half(e)
                        } else {
                            e
                        },
                    )
                },
            },
        },
    }
}

/// The term an assignment writes: a 32-bit write clears the upper half.
pub open spec fn written_term(t: Seq<char>, width: u32) -> Seq<char> {
    if width == 32 {
        "((_ zero_extend 32) "@ + t + ")"@
    } else {
        t
    }
}

pub struct TermState {
    pub regs: Seq<Option<Seq<char>>>,
    pub definitions: Seq<char>,
}

/// The register terms and definitions after the assignments `is`; the
/// `n`th is defined as `b<n>`.
pub open spec fn run_terms(init: Seq<Option<Seq<char>>>, is: Seq<Assignment>) -> Result<TermState, Seq<char>>
    decreases is.len(),
{
    if is.len() == 0 {
        Ok(TermState { regs: init, definitions: seq![] })
    } else {
        match run_terms(init, is.drop_last()) {
            Err(e) => Err(e),
            Ok(st) => match operation_term(st.regs, is.last()) {
                Err(e) => Err(e),
                Ok(t) => {
                    let name = "b"@ + dec((is.len() - 1) as nat);
                    Ok(
                        TermState {
                            regs: st.regs.update(is.last().dst as int, Some(name)),
                            definitions: st.definitions + "(define-fun "@ + name + " () (_ BitVec 64) "@
                                + written_term(t, is.last().width) + ")\n"@,
                        },
                    )
                },
            },
        }
    }
}

/// The symbolic meaning of a model: it always completes, never traps, and
/// returns the return register at the return type's width.
pub open spec fn spec_model_symbolic(args: Seq<Type>, ret: Type, is: Seq<Assignment>) -> Result<SymbolicM, Seq<char>> {
    match run_terms(initial_terms(args), is) {
        Err(e) => Err(e),
        Ok(st) => match st.regs[0] {
            None => Err("return register is undefined"@),
            Some(v) => Ok(
                SymbolicM {
                    definitions: st.definitions,
                    value: if ret.spec_width() == 64 {
                        v
                    } else {
                        "((_ extract "@ + dec((ret.spec_width() - 1) as nat) + " 0) "@ + v + ")"@
                    },
                    completed: "true"@,
                    trap: "#b00"@,
                },
            ),
        },
    }
}

pub open spec fn terms_view(regs: Seq<Option<Vec<char>>>) -> Seq<Option<Seq<char>>> {
    regs.map_values(
        |r: Option<Vec<char>>|
            match r {
                Some(v) => Some(v@),
                None => None,
            },
    )
}

fn put(out: &mut Vec<char>, lit: &str)
    ensures
        final(out)@ == old(out)@ + lit@,
{
    let cs = chars_of(lit);
    extend_chars(out, &cs);
}

fn read_text(regs: &Vec<Option<Vec<char>>>, o: Operand, width: u32) -> (r: Result<Vec<char>, String>)
    requires
        regs@.len() == 256,
        1 <= width <= 64,
    ensures
        match r {
            Ok(t) => read_term(terms_view(regs@), o, width) == Ok::<Seq<char>, Seq<char>>(t@),
            Err(e) => read_term(terms_view(regs@), o, width) == Err::<Seq<char>, Seq<char>>(e@),
        },
{
    match o {
        Operand::Imm(v) => {
            let b = bv(v, width);
            Ok(chars_of(b.as_str()))
        },
        Operand::Reg(r, w) => {
            if w != width {
                return err("mixed register widths unsupported");
            }
            match &regs[r as usize] {
                None => err("read of undefined register"),
                Some(v) => {
                    if w == 64 {
                        Ok(chars_copy(v))
                    } else {
                        let mut t: Vec<char> = Vec::new();
                        put(&mut t, "((_ extract 31 0) ");
                        extend_chars(&mut t, v);
                        put(&mut t, ")");
                        Ok(t)
                    }
                },
            }
        },
    }
}

fn lea_text(regs: &Vec<Option<Vec<char>>>, r: Option<u8>) -> (res: Result<Vec<char>, String>)
    requires
        regs@.len() == 256,
    ensures
        match res {
            Ok(t) => lea_term(terms_view(regs@), r) == Ok::<Seq<char>, Seq<char>>(t@),
            Err(e) => lea_term(terms_view(regs@), r) == Err::<Seq<char>, Seq<char>>(e@),
        },
{
    match r {
        None => {
            let b = bv(0, 64);
            Ok(chars_of(b.as_str()))
        },
        Some(r) => match &regs[r as usize] {
            None => err("LEA reads undefined register"),
            Some(v) => Ok(chars_copy(v)),
        },
    }
}

fn operation_text(regs: &Vec<Option<Vec<char>>>, a: Assignment) -> (r: Result<Vec<char>, String>)
    requires
        regs@.len() == 256,
        1 <= a.width <= 64,
    ensures
        match r {
            Ok(t) => operation_term(terms_view(regs@), a) == Ok::<Seq<char>, Seq<char>>(t@),
            Err(e) => operation_term(terms_view(regs@), a) == Err::<Seq<char>, Seq<char>>(e@),
        },
{
    match a.operation {
        Operation::Move(x) => read_text(regs, x, a.width),
        Operation::Unary(u, x) => {
            let t = read_text(regs, x, a.width)?;
            let mut out: Vec<char> = Vec::new();
            match u {
                UnaryOp::Not => put(&mut out, "(bvnot "),
                UnaryOp::Neg => put(&mut out, "(bvneg "),
            }
            extend_chars(&mut out, &t);
            put(&mut out, ")");
            Ok(out)
        },
        Operation::Binary(b, x, y) => {
            let p = read_text(regs, x, a.width)?;
            let q = read_text(regs, y, a.width)?;
            let mut out: Vec<char> = Vec::new();
            match b {
                BinaryOp::Add => put(&mut out, "(bvadd "),
                BinaryOp::Sub => put(&mut out, "(bvsub "),
                BinaryOp::Mul => put(&mut out, "(bvmul "),
                BinaryOp::And => put(&mut out, "(bvand "),
                BinaryOp::Or => put(&mut out, "(bvor "),
                BinaryOp::Xor => put(&mut out, "(bvxor "),
            }
            extend_chars(&mut out, &p);
            put(&mut out, " ");
            extend_chars(&mut out, &q);
            put(&mut out, ")");
            Ok(out)
        },
        Operation::Lea(base, index, scale, disp) => {
            let p = lea_text(regs, base)?;
            let q = lea_text(regs, index)?;
            let mut e: Vec<char> = Vec::new();
            put(&mut e, "(bvadd (bvadd ");
            extend_chars(&mut e, &p);
            put(&mut e, " (bvmul ");
            extend_chars(&mut e, &q);
            put(&mut e, " ");
            let sb = bv(scale as u64, 64);
            extend_chars(&mut e, &chars_of(sb.as_str()));
            put(&mut e, ")) ");
            let db = bv(disp, 64);
            extend_chars(&mut e, &chars_of(db.as_str()));
            put(&mut e, ")");
            if a.width == 32 {
                let mut out: Vec<char> = Vec::new();
                put(&mut out, "((_ extract 31 0) ");
                extend_chars(&mut out, &e);
                put(&mut out, ")");
                Ok(out)
            } else {
                Ok(e)
            }
        },
    }
}

fn arg_text(n: usize, t: Type) -> (r: Vec<char>)
    ensures
        r@ == arg_term(n as int, t),
{
    let mut out: Vec<char> = Vec::new();
    if t.width() == 64 {
        put(&mut out, "x");
        extend_chars(&mut out, &decimal_u64(n as u64));
    } else {
        put(&mut out, "((_ ");
        if t.signed() {
            put(&mut out, "sign_extend");
        } else {
            put(&mut out, "zero_extend");
        }
        put(&mut out, " ");
        extend_chars(&mut out, &decimal_u64((64 - t.width()) as u64));
        put(&mut out, ") x");
        extend_chars(&mut out, &decimal_u64(n as u64));
        put(&mut out, ")");
    }
    out
}

impl BinaryModel {
    /// The model as bit-vector terms over the arguments `x0`, `x1`, ...:
    /// assignment `n` is defined as `b<n>`, and the value is the return
    /// register at the return type's width.
    pub fn symbolic(&self) -> (r: Result<Symbolic, String>)
        requires
            self.wf(),
        ensures
            match r {
                Ok(s) => spec_model_symbolic(self.signature.arguments@, self.signature.return_type, self.instructions@)
                    == Ok::<SymbolicM, Seq<char>>(s@),
                Err(e) => spec_model_symbolic(self.signature.arguments@, self.signature.return_type, self.instructions@)
                    == Err::<SymbolicM, Seq<char>>(e@),
            },
    {
        let args = &self.signature.arguments;
        let ghost init = initial_terms(args@);
        let mut regs: Vec<Option<Vec<char>>> = Vec::new();
        let mut r: usize = 0;
        while r < 256
            invariant
                0 <= r <= 256,
                regs@.len() == r,
                args@.len() <= 4,
                init == initial_terms(args@),
                forall|j: int| 0 <= j < r ==> #[trigger] terms_view(regs@)[j] == init[j],
            decreases 256 - r,
        {
            let slot: usize = if r == 4 {
                0
            } else if r == 3 {
                1
            } else if r == 2 {
                2
            } else if r == 1 {
                3
            } else {
                4
            };
            let ghost prev = regs@;
            if slot < args.len() {
                regs.push(Some(arg_text(slot, args[slot])));
            } else {
                regs.push(None);
            }
            assert(terms_view(regs@) =~= terms_view(prev).push(init[r as int]));
            r += 1;
        }
        assert(terms_view(regs@) =~= init);
        let ghost is = self.instructions@;
        let mut definitions: Vec<char> = Vec::new();
        let mut i: usize = 0;
        while i < self.instructions.len()
            invariant
                0 <= i <= self.instructions@.len(),
                is == self.instructions@,
                regs@.len() == 256,
                init == initial_terms(args@),
                args == &self.signature.arguments,
                run_terms(init, is.take(i as int)) == Ok::<TermState, Seq<char>>(
                    TermState { regs: terms_view(regs@), definitions: definitions@ },
                ),
                forall|j: int| 0 <= j < is.len() ==> 1 <= (#[trigger] is[j]).width <= 64,
            decreases self.instructions@.len() - i,
        {
            let a = self.instructions[i];
            assert(is.take(i + 1 as int).drop_last() =~= is.take(i as int));
            assert(is.take(i + 1 as int).last() == a);
            assert(1 <= is[i as int].width <= 64);
            let t = match operation_text(&regs, a) {
                Ok(t) => t,
                Err(e) => {
                    proof {
                        lemma_terms_err(init, is, (i + 1) as nat);
                    }
                    return Err(e);
                },
            };
            let mut name: Vec<char> = Vec::new();
            put(&mut name, "b");
            extend_chars(&mut name, &decimal_u64(i as u64));
            let ghost d0 = definitions@;
            put(&mut definitions, "(define-fun ");
            extend_chars(&mut definitions, &name);
            put(&mut definitions, " () (_ BitVec 64) ");
            if a.width == 32 {
                put(&mut definitions, "((_ zero_extend 32) ");
                extend_chars(&mut definitions, &t);
                put(&mut definitions, ")");
            } else {
                extend_chars(&mut definitions, &t);
            }
            put(&mut definitions, ")\n");
            assert(definitions@ =~= d0 + "(define-fun "@ + name@ + " () (_ BitVec 64) "@ + written_term(
                t@,
                a.width,
            ) + ")\n"@);
            let ghost prev = regs@;
            let ghost name_v = name@;
            regs.set(a.dst as usize, Some(name));
            assert(terms_view(regs@) =~= terms_view(prev).update(a.dst as int, Some(name_v)));
            i += 1;
        }
        assert(is.take(i as int) =~= is);
        let v = match &regs[0] {
            None => {
                return err("return register is undefined");
            },
            Some(v) => chars_copy(v),
        };
        let w = self.signature.return_type.width();
        let value = if w == 64 {
            v
        } else {
            let mut out: Vec<char> = Vec::new();
            put(&mut out, "((_ extract ");
            extend_chars(&mut out, &decimal_u64((w - 1) as u64));
            put(&mut out, " 0) ");
            extend_chars(&mut out, &v);
            put(&mut out, ")");
            out
        };
        Ok(
            Symbolic {
                definitions: string_of(&definitions),
                value: string_of(&value),
                completed: "true".to_owned(),
                trap: "#b00".to_owned(),
            },
        )
    }
}

proof fn lemma_terms_err(init: Seq<Option<Seq<char>>>, is: Seq<Assignment>, k: nat)
    requires
        k <= is.len(),
        run_terms(init, is.take(k as int)) is Err,
    ensures
        run_terms(init, is) == run_terms(init, is.take(k as int)),
    decreases is.len() - k,
{
    if k < is.len() {
        assert(is.take(k + 1 as int).drop_last() =~= is.take(k as int));
        lemma_terms_err(init, is, k + 1);
    } else {
        assert(is.take(k as int) =~= is);
    }
}

// ---------------------------------------------------------------------------
// The decoder and the object reader.

#[verifier::external_type_specification]
#[verifier::external_body]
pub struct ExRegister(iced_x86::Register);

#[verifier::external_type_specification]
#[verifier::external_body]
pub struct ExMnemonic(iced_x86::Mnemonic);

#[verifier::external_type_specification]
#[verifier::external_body]
pub struct ExCode(iced_x86::Code);

#[verifier::external_type_specification]
#[verifier::external_body]
pub struct ExOpKind(iced_x86::OpKind);

/// What the lifter reads of a decoded instruction as a whole.
pub struct X86Shape {
    pub consumed: usize,
    pub len: usize,
    pub invalid: bool,
    pub lock: bool,
    pub rep: bool,
    pub repne: bool,
    pub segment: Register,
    pub code: Code,
    pub op_count: u32,
    pub mnemonic: Mnemonic,
}

/// `iced_x86::Decoder::decode` of the 64-bit instruction at `offset` of
/// `code`, at address `ip`: the bytes the decoder consumed, and the
/// instruction's length, validity, prefixes, segment prefix, code, operand
/// count and mnemonic.
#[verifier::external_body]
fn decode_shape(code: &[u8], offset: usize, ip: u64) -> (r: X86Shape)
    requires
        offset < code@.len(),
{
    let mut d = Decoder::with_ip(64, &code[offset..], ip, DecoderOptions::NONE);
    let i = d.decode();
    X86Shape { consumed: d.position(), len: i.len(), invalid: i.is_invalid(), lock: i.has_lock_prefix(), rep: i.has_rep_prefix(), repne: i.has_repne_prefix(), segment: i.segment_prefix(), code: i.code(), op_count: i.op_count(), mnemonic: i.mnemonic() }
}

/// Operand `n` of the instruction at `offset`, as `decode_shape` decodes
/// it: its `op_kind`, its `op_register`, and its `try_immediate` when it is
/// an immediate.
#[verifier::external_body]
fn decode_operand(code: &[u8], offset: usize, ip: u64, n: u32) -> (r: (OpKind, Register, Option<u64>))
    requires
        offset < code@.len(),
        n < 5,
{
    let i = Decoder::with_ip(64, &code[offset..], ip, DecoderOptions::NONE).decode();
    (i.op_kind(n), i.op_register(n), i.try_immediate(n).ok())
}

/// The memory operand of the instruction at `offset`: `memory_base`,
/// `memory_index`, `memory_index_scale` and `memory_displacement64`.
#[verifier::external_body]
fn decode_memory(code: &[u8], offset: usize, ip: u64) -> (r: (Register, Register, u32, u64))
    requires
        offset < code@.len(),
{
    let i = Decoder::with_ip(64, &code[offset..], ip, DecoderOptions::NONE).decode();
    (i.memory_base(), i.memory_index(), i.memory_index_scale(), i.memory_displacement64())
}

/// The segment prefix is `Register::None`.
#[verifier::external_body]
fn no_register(r: Register) -> (b: bool) {
    match r {
        Register::None => true,
        _ => false,
    }
}

/// The code is `Code::Retnq`.
#[verifier::external_body]
fn near_return(c: Code) -> (b: bool) {
    match c {
        Code::Retnq => true,
        _ => false,
    }
}

/// The mnemonics the lifter reads.
#[derive(Clone, Copy, PartialEq, Eq, Structural)]
pub enum Mnem {
    Mov,
    Xor,
    Add,
    Sub,
    And,
    Or,
    Imul,
    Not,
    Neg,
    Lea,
    Ret,
    Other,
}

/// The mnemonic, told apart for the mnemonics the lifter reads.
#[verifier::external_body]
fn mnemonic_kind(m: Mnemonic) -> (r: Mnem) {
    match m {
        Mnemonic::Mov => Mnem::Mov,
        Mnemonic::Xor => Mnem::Xor,
        Mnemonic::Add => Mnem::Add,
        Mnemonic::Sub => Mnem::Sub,
        Mnemonic::And => Mnem::And,
        Mnemonic::Or => Mnem::Or,
        Mnemonic::Imul => Mnem::Imul,
        Mnemonic::Not => Mnem::Not,
        Mnemonic::Neg => Mnem::Neg,
        Mnemonic::Lea => Mnem::Lea,
        Mnemonic::Ret => Mnem::Ret,
        _ => Mnem::Other,
    }
}

/// The `Debug` name of a mnemonic.
#[verifier::external_body]
fn mnemonic_name(m: Mnemonic) -> (r: String) {
    format!("{:?}", m)
}

/// The kinds of operand the lifter reads.
#[derive(Clone, Copy, PartialEq, Eq, Structural)]
pub enum OperandKind {
    Register,
    Immediate,
    Memory,
    Other,
}

/// The operand kind, told apart for registers, immediates and memory.
#[verifier::external_body]
fn operand_kind(k: OpKind) -> (r: OperandKind) {
    match k {
        OpKind::Register => OperandKind::Register,
        OpKind::Immediate8 | OpKind::Immediate16 | OpKind::Immediate32 | OpKind::Immediate64
        | OpKind::Immediate8to16 | OpKind::Immediate8to32 | OpKind::Immediate8to64
        | OpKind::Immediate32to64 => OperandKind::Immediate,
        OpKind::Memory => OperandKind::Memory,
        _ => OperandKind::Other,
    }
}

/// The registers the lifter reads.
#[derive(Clone, Copy, PartialEq, Eq, Structural)]
pub enum FullRegister {
    Rax,
    Rcx,
    Rdx,
    Rsi,
    Rdi,
    R8,
    R9,
    R10,
    R11,
    Absent,
    Other,
}

/// `Register::full_register`, told apart for the caller-saved registers;
/// `Absent` for `Register::None`.
#[verifier::external_body]
fn full_register(r: Register) -> (f: FullRegister) {
    match r.full_register() {
        Register::RAX => FullRegister::Rax,
        Register::RCX => FullRegister::Rcx,
        Register::RDX => FullRegister::Rdx,
        Register::RSI => FullRegister::Rsi,
        Register::RDI => FullRegister::Rdi,
        Register::R8 => FullRegister::R8,
        Register::R9 => FullRegister::R9,
        Register::R10 => FullRegister::R10,
        Register::R11 => FullRegister::R11,
        Register::None => FullRegister::Absent,
        _ => FullRegister::Other,
    }
}

/// `Register::size`, in bytes.
#[verifier::external_body]
fn register_size(r: Register) -> (n: usize) {
    r.size()
}

/// The `Debug` name of a register.
#[verifier::external_body]
fn register_name(r: Register) -> (s: String) {
    format!("{:?}", r)
}

/// A dynamic symbol as the object reader presents it.
pub struct DynSymbol {
    pub name: Option<String>,
    pub undefined: bool,
    pub st_info: Option<u8>,
    pub size: u64,
    pub text: bool,
    pub address: u64,
    pub section: Option<usize>,
}

/// A dynamic symbol as plain values: its name, whether it is undefined,
/// its ELF `st_info`, size, whether it is code, address and section.
pub open spec fn dyn_symbol_view(s: DynSymbol) -> (Option<Seq<char>>, bool, Option<u8>, u64, bool, u64, Option<usize>) {
    (
        match s.name {
            Some(n) => Some(n@),
            None => None,
        },
        s.undefined,
        s.st_info,
        s.size,
        s.text,
        s.address,
        s.section,
    )
}

/// The symbol list, or the error, as plain values.
pub open spec fn dyn_symbols_view(r: Result<Vec<DynSymbol>, String>) -> Result<
    Seq<(Option<Seq<char>>, bool, Option<u8>, u64, bool, u64, Option<usize>)>,
    Seq<char>,
> {
    match r {
        Ok(v) => Ok(v@.map_values(|x: DynSymbol| dyn_symbol_view(x))),
        Err(e) => Err(e@),
    }
}

/// What the object crate reads as the dynamic symbols of a file: each
/// symbol as `dyn_symbol_view` writes it, or the reader's error message.
pub uninterp spec fn object_dynamic_symbols(data: Seq<u8>) -> Result<
    Seq<(Option<Seq<char>>, bool, Option<u8>, u64, bool, u64, Option<usize>)>,
    Seq<char>,
>;

/// `object::File::parse` and `Object::dynamic_symbols`: every dynamic
/// symbol of the file, or the reader's error. Claimed: the outcome is a
/// function of the bytes alone, named `object_dynamic_symbols`.
#[verifier::external_body]
pub(crate) fn dynamic_symbols(data: &[u8]) -> (r: Result<Vec<DynSymbol>, String>)
    ensures
        dyn_symbols_view(r) == object_dynamic_symbols(data@),
{
    let file = object::File::parse(data).map_err(|e| e.to_string())?;
    let mut out = Vec::new();
    for s in file.dynamic_symbols() {
        let st_info = match s.flags() {
            object::SymbolFlags::Elf { st_info, .. } => Some(st_info),
            _ => None,
        };
        let name = match s.name() {
            Ok(n) => Some(n.to_owned()),
            Err(_) => None,
        };
        out.push(DynSymbol { name, undefined: s.is_undefined(), st_info, size: s.size(), text: s.kind() == object::SymbolKind::Text, address: s.address(), section: s.section_index().map(|i| i.0) });
    }
    Ok(out)
}

/// `Object::section_by_index`: the address and bytes of section `index`.
#[verifier::external_body]
fn section_contents(data: &[u8], index: usize) -> (r: Result<(u64, Vec<u8>), String>) {
    let file = object::File::parse(data).map_err(|e| e.to_string())?;
    let section = file.section_by_index(object::SectionIndex(index)).map_err(|e| e.to_string())?;
    let bytes = section.data().map_err(|e| e.to_string())?;
    Ok((section.address(), bytes.to_vec()))
}

// ---------------------------------------------------------------------------
// Lifting.

/// The lower-case form of an ASCII hexadecimal digit.
pub open spec fn lower_hex(c: char) -> char {
    if 'A' <= c <= 'F' {
        ((c as u32) + 32) as char
    } else {
        c
    }
}

fn lower_hex_string(s: &String) -> (r: Vec<char>)
    ensures
        r@ == s@.map_values(|c: char| lower_hex(c)),
{
    let cs = chars_of(s.as_str());
    let mut out: Vec<char> = Vec::new();
    let mut i: usize = 0;
    while i < cs.len()
        invariant
            0 <= i <= cs@.len(),
            cs@ == s@,
            out@ == cs@.subrange(0, i as int).map_values(|c: char| lower_hex(c)),
        decreases cs@.len() - i,
    {
        let c = cs[i];
        let l = if 'A' <= c && c <= 'F' {
            ((c as u32) + 32) as u8 as char
        } else {
            c
        };
        out.push(l);
        i += 1;
        assert(out@ =~= cs@.subrange(0, i as int).map_values(|c: char| lower_hex(c)));
    }
    assert(cs@.subrange(0, cs@.len() as int) =~= cs@);
    out
}

/// The dynamic tags that a formal target may carry: the hash and symbol
/// tables and the library name.
pub open spec fn allowed_tag(t: u64) -> bool {
    t == 4 || t == 5 || t == 6 || t == 10 || t == 11 || t == 14 || t == 0x6fff_fef5
}

/// Row `row` of the dynamic table at `d` is the null tag or an allowed
/// one, when no null tag comes before it.
pub open spec fn dynamic_row_ok(data: Seq<u8>, d: int, row: int) -> bool {
    (forall|q: int| 0 <= q < row ==> #[trigger] crate::elf::le64(data, d + 16 * q) != 0) ==> {
        let t = crate::elf::le64(data, d + 16 * row);
        t == 0 || allowed_tag(t)
    }
}

/// Program header `n`: inside the file; a load segment that is not both
/// writable and executable; a dynamic segment inside the file whose tags
/// before the null tag are all allowed.
pub open spec fn program_header_ok(data: Seq<u8>, n: int) -> bool {
    let p = crate::elf::le64(data, 32) + 56 * n;
    &&& p + 56 <= data.len()
    &&& !(crate::elf::le32(data, p) == 1 && crate::elf::le32(data, p + 4) & 3 == 3)
    &&& crate::elf::le32(data, p) == 2 ==> {
        let d = crate::elf::le64(data, p + 8);
        let len = crate::elf::le64(data, p + 32);
        &&& d + len <= data.len()
        &&& forall|row: int| 0 <= row < len / 16 ==> #[trigger] dynamic_row_ok(data, d as int, row)
    }
}

/// What `static_elf` accepts.
pub open spec fn static_elf_ok(data: Seq<u8>) -> bool {
    &&& data.len() >= 64
    &&& data.subrange(0, 6) == seq![0x7fu8, 0x45u8, 0x4cu8, 0x46u8, 2u8, 1u8]
    &&& data.subrange(16, 20) == seq![3u8, 0u8, 62u8, 0u8]
    &&& crate::elf::le16(data, 54) == 56
    &&& 0 < crate::elf::le16(data, 56) < 65535
    &&& forall|n: int| 0 <= n < crate::elf::le16(data, 56) ==> #[trigger] program_header_ok(data, n)
}

/// Checks the file is a 64-bit little-endian x86-64 shared object whose
/// load segments are never both writable and executable and whose dynamic
/// tags name no dependency, initializer, finalizer or relocation.
pub fn static_elf(data: &[u8]) -> (r: Result<(), String>)
    ensures
        r is Ok <==> static_elf_ok(data@),
{
    if data.len() < 64 {
        return err("formal target requires ELF64 little-endian x86-64 ET_DYN");
    }
    let ident = copy_span(data, 0, 6);
    let kind = copy_span(data, 16, 4);
    let elf_ident: Vec<u8> = vec![0x7fu8, 0x45u8, 0x4cu8, 0x46u8, 2u8, 1u8];
    let elf_kind: Vec<u8> = vec![3u8, 0u8, 62u8, 0u8];
    if !bytes_eq(ident.as_slice(), elf_ident.as_slice()) || !bytes_eq(kind.as_slice(), elf_kind.as_slice()) {
        return err("formal target requires ELF64 little-endian x86-64 ET_DYN");
    }
    assert(elf_ident@ =~= seq![0x7fu8, 0x45u8, 0x4cu8, 0x46u8, 2u8, 1u8]);
    assert(elf_kind@ =~= seq![3u8, 0u8, 62u8, 0u8]);
    assert(data@.len() == data.len());
    let offset = read_u64(data, 32);
    let size = read_u16(data, 54) as u64;
    let count = read_u16(data, 56) as u64;
    if size != 56 || count == 0 || count == 65535 {
        return err("unsupported ELF program header layout");
    }
    let mut n: u64 = 0;
    while n < count
        invariant
            0 <= n <= count,
            count < 65535,
            size == 56,
            data@.len() >= 64,
            data@.len() == data.len(),
            forall|m: int| 0 <= m < n ==> #[trigger] program_header_ok(data@, m),
            offset == crate::elf::le64(data@, 32),
            count == crate::elf::le16(data@, 56),
        decreases count - n,
    {
        let at = match offset.checked_add(n * size) {
            None => {
                assert(!program_header_ok(data@, n as int));
                return err("ELF header overflow");
            },
            Some(x) => x,
        };
        let p = match slice(data, at, size) {
            Ok(p) => p,
            Err(e) => {
                assert(!program_header_ok(data@, n as int));
                return Err(e);
            },
        };
        let kind = read_u32(data, p);
        let flags = read_u32(data, p + 4);
        if kind == 1 && flags & 3 == 3 {
            assert(!program_header_ok(data@, n as int));
            return err("writable executable segments unsupported");
        }
        if kind == 2 {
            let len = read_u64(data, p + 32);
            let d = match slice(data, read_u64(data, p + 8), len) {
                Ok(d) => d,
                Err(e) => {
                    assert(!program_header_ok(data@, n as int));
                    return Err(e);
                },
            };
            let rows = (len / 16) as usize;
            let mut row: usize = 0;
            while row < rows
                invariant
                    0 <= row <= rows,
                    rows * 16 <= len,
                    rows == len / 16,
                    d + len <= data@.len(),
                    0 <= n < count,
                    count == crate::elf::le16(data@, 56),
                    offset == crate::elf::le64(data@, 32),
                    p == offset + 56 * n,
                    p + 56 <= data@.len(),
                    kind == 2,
                    kind == crate::elf::le32(data@, p as int),
                    flags == crate::elf::le32(data@, p + 4),
                    len == crate::elf::le64(data@, p + 32),
                    d == crate::elf::le64(data@, p + 8),
                    data@.len() == data.len(),
                    forall|q: int| 0 <= q < row ==> #[trigger] crate::elf::le64(data@, d + 16 * q) != 0,
                    forall|q: int| 0 <= q < row ==> #[trigger] dynamic_row_ok(data@, d as int, q),
                ensures
                    forall|q: int| 0 <= q < rows ==> #[trigger] dynamic_row_ok(data@, d as int, q),
                decreases rows - row,
            {
                let tag = read_u64(data, d + 16 * row);
                if tag == 0 {
                    assert forall|q: int| 0 <= q < rows implies #[trigger] dynamic_row_ok(data@, d as int, q) by {
                        if q > row {
                            assert(crate::elf::le64(data@, d + 16 * row) == 0);
                        }
                    }
                    break;
                }
                if !(tag == 4 || tag == 5 || tag == 6 || tag == 10 || tag == 11 || tag == 14 || tag
                    == 0x6fff_fef5) {
                    assert(!dynamic_row_ok(data@, d as int, row as int));
                    assert(!program_header_ok(data@, n as int));
                    return err("ELF dependencies, initializers, finalizers and relocations unsupported");
                }
                assert(dynamic_row_ok(data@, d as int, row as int));
                row += 1;
            }
        }
        assert(program_header_ok(data@, n as int));
        n += 1;
    }
    Ok(())
}

fn read_u16(d: &[u8], o: usize) -> (r: u16)
    requires
        o + 2 <= d@.len(),
    ensures
        r == crate::elf::le16(d@, o as int),
{
    let v = copy_span(d, o, 2);
    vstd::bytes::u16_from_le_bytes(v.as_slice())
}

fn read_u32(d: &[u8], o: usize) -> (r: u32)
    requires
        o + 4 <= d@.len(),
    ensures
        r == crate::elf::le32(d@, o as int),
{
    let v = copy_span(d, o, 4);
    vstd::bytes::u32_from_le_bytes(v.as_slice())
}

fn read_u64(d: &[u8], o: usize) -> (r: u64)
    requires
        o + 8 <= d@.len(),
    ensures
        r == crate::elf::le64(d@, o as int),
{
    let v = copy_span(d, o, 8);
    vstd::bytes::u64_from_le_bytes(v.as_slice())
}

/// The start of the `size` bytes at `offset` of `data`.
fn slice(data: &[u8], offset: u64, size: u64) -> (r: Result<usize, String>)
    ensures
        r matches Ok(a) ==> a == offset && a + size <= data@.len(),
        r is Ok <==> offset + size <= data@.len(),
{
    assert(data@.len() == data.len() && data.len() <= usize::MAX && usize::MAX <= u64::MAX);
    let end = match offset.checked_add(size) {
        None => {
            return err("ELF range overflow");
        },
        Some(e) => e,
    };
    if offset > usize::MAX as u64 || end > usize::MAX as u64 {
        return err("ELF offset overflow");
    }
    if end as usize > data.len() {
        return err("ELF range outside file");
    }
    Ok(offset as usize)
}

/// The prefix bytes that may precede an opcode.
fn prefix_byte(b: u8) -> (r: bool)
    ensures
        r == (b == 0x26 || b == 0x2e || b == 0x36 || b == 0x3e || b == 0x64 || b == 0x65 || b == 0x66
            || b == 0xf0 || b == 0xf2 || b == 0xf3 || (0x40 <= b <= 0x4f)),
{
    b == 0x26 || b == 0x2e || b == 0x36 || b == 0x3e || b == 0x64 || b == 0x65 || b == 0x66 || b
        == 0xf0 || b == 0xf2 || b == 0xf3 || (0x40 <= b && b <= 0x4f)
}

/// The register number and width of a 32- or 64-bit caller-saved register.
fn register(r: Register) -> (res: Result<(u8, u32), String>)
    ensures
        res matches Ok((id, w)) ==> id < 9 && (w == 32 || w == 64),
{
    let bytes = register_size(r);
    if bytes != 4 && bytes != 8 {
        return Err(unsupported_register(r));
    }
    let width: u32 = if bytes == 4 {
        32
    } else {
        64
    };
    let id: u8 = match full_register(r) {
        FullRegister::Rax => 0,
        FullRegister::Rcx => 1,
        FullRegister::Rdx => 2,
        FullRegister::Rsi => 3,
        FullRegister::Rdi => 4,
        FullRegister::R8 => 5,
        FullRegister::R9 => 6,
        FullRegister::R10 => 7,
        FullRegister::R11 => 8,
        _ => {
            return Err(unsupported_register(r));
        },
    };
    Ok((id, width))
}

fn unsupported_register(r: Register) -> (s: String)
    ensures
        exists|name: Seq<char>| s@ == "unsupported register "@ + name,
{
    let mut m: Vec<char> = chars_of("unsupported register ");
    let name = chars_of(register_name(r).as_str());
    extend_chars(&mut m, &name);
    string_of(&m)
}

fn unsupported_instruction(m: Mnemonic) -> (s: String)
    ensures
        exists|name: Seq<char>| s@ == "unsupported instruction "@ + name,
{
    let mut t: Vec<char> = chars_of("unsupported instruction ");
    let name = chars_of(mnemonic_name(m).as_str());
    extend_chars(&mut t, &name);
    string_of(&t)
}

/// Operand `n` of the instruction at `offset`: a register or an immediate.
fn operand(code: &[u8], offset: usize, ip: u64, n: u32) -> (r: Result<Operand, String>)
    requires
        offset < code@.len(),
        n < 5,
    ensures
        r matches Ok(Operand::Reg(id, w)) ==> id < 9 && (w == 32 || w == 64),
{
    let (kind, reg, imm) = decode_operand(code, offset, ip, n);
    match operand_kind(kind) {
        OperandKind::Register => {
            let (id, w) = register(reg)?;
            Ok(Operand::Reg(id, w))
        },
        OperandKind::Immediate => match imm {
            Some(v) => Ok(Operand::Imm(v)),
            None => err("memory and non-register operands unsupported"),
        },
        _ => err("memory and non-register operands unsupported"),
    }
}

/// A 64-bit address register of a `lea`, if any.
fn address_register(r: Register) -> (res: Result<Option<u8>, String>)
    ensures
        res matches Ok(Some(id)) ==> id < 9,
{
    if no_register(r) {
        return Ok(None);
    }
    let (id, w) = register(r)?;
    if w != 64 {
        return err("only 64-bit LEA addressing is supported");
    }
    Ok(Some(id))
}

/// The assignments of the straight-line code at `address`: every
/// instruction a supported write to a caller-saved register, and one final
/// near return.
pub fn lift_code(code: &[u8], address: u64) -> (r: Result<Vec<Assignment>, String>)
    ensures
        r matches Ok(is) ==> is@.len() <= 256 && forall|k: int|
            0 <= k < is@.len() ==> (#[trigger] is@[k]).width == 32 || is@[k].width == 64,
        r matches Ok(is) ==> forall|k: int| 0 <= k < is@.len() ==> reads_destination(#[trigger] is@[k]),
{
    let mut instructions: Vec<Assignment> = Vec::new();
    let mut position: usize = 0;
    let mut returned = false;
    while position < code.len()
        invariant
            0 <= position <= code@.len(),
            instructions@.len() <= 256,
            forall|k: int| 0 <= k < instructions@.len() ==> (#[trigger] instructions@[k]).width == 32
                || instructions@[k].width == 64,
            forall|k: int| 0 <= k < instructions@.len() ==> reads_destination(#[trigger] instructions@[k]),
        decreases code@.len() - position,
    {
        let ip = address.wrapping_add(position as u64);
        let shape = decode_shape(code, position, ip);
        let stop = if shape.consumed <= code.len() - position {
            position + shape.consumed
        } else {
            code.len()
        };
        let mut b: usize = position;
        while b < stop
            invariant
                position <= b <= stop,
                stop <= code@.len(),
            decreases stop - b,
        {
            if code[b] == 0x67 {
                return err("address-size override unsupported");
            }
            if !prefix_byte(code[b]) {
                break;
            }
            b += 1;
        }
        if shape.invalid || shape.lock || shape.rep || shape.repne || !no_register(shape.segment)
            || shape.consumed == 0 {
            return err("invalid or prefixed instruction unsupported");
        }
        let mnemonic = mnemonic_kind(shape.mnemonic);
        if mnemonic == Mnem::Ret {
            if shape.len != 1 || !near_return(shape.code) || shape.op_count != 0 || stop < code.len() {
                return err("only one final near return is supported");
            }
            returned = true;
            break;
        }
        if instructions.len() >= 256 {
            return err("formal binary instruction limit is 256");
        }
        if shape.op_count == 0 {
            return Err(unsupported_instruction(shape.mnemonic));
        }
        let (kind0, reg0, _) = decode_operand(code, position, ip, 0);
        if operand_kind(kind0) != OperandKind::Register {
            return Err(unsupported_instruction(shape.mnemonic));
        }
        let (dst, width) = register(reg0)?;
        let count = shape.op_count;
        let operation = if mnemonic == Mnem::Mov && count == 2 {
            Operation::Move(operand(code, position, ip, 1)?)
        } else if mnemonic == Mnem::Xor && count == 2 && {
            let (kind1, reg1, _) = decode_operand(code, position, ip, 1);
            operand_kind(kind1) == OperandKind::Register && same_register(reg0, reg1)
        } {
            Operation::Move(Operand::Imm(0))
        } else if (mnemonic == Mnem::Add || mnemonic == Mnem::Sub || mnemonic == Mnem::Xor || mnemonic
            == Mnem::And || mnemonic == Mnem::Or) && count == 2 {
            let op = if mnemonic == Mnem::Add {
                BinaryOp::Add
            } else if mnemonic == Mnem::Sub {
                BinaryOp::Sub
            } else if mnemonic == Mnem::Xor {
                BinaryOp::Xor
            } else if mnemonic == Mnem::And {
                BinaryOp::And
            } else {
                BinaryOp::Or
            };
            let a = Operand::Reg(dst, width);
            let b = operand(code, position, ip, 1)?;
            Operation::Binary(op, a, b)
        } else if mnemonic == Mnem::Imul && (count == 2 || count == 3) {
            let first: u32 = if count == 2 {
                0
            } else {
                1
            };
            let a = operand(code, position, ip, first)?;
            let b = operand(code, position, ip, first + 1)?;
            Operation::Binary(BinaryOp::Mul, a, b)
        } else if (mnemonic == Mnem::Not || mnemonic == Mnem::Neg) && count == 1 {
            let op = if mnemonic == Mnem::Not {
                UnaryOp::Not
            } else {
                UnaryOp::Neg
            };
            Operation::Unary(op, operand(code, position, ip, 0)?)
        } else if mnemonic == Mnem::Lea && count == 2 && {
            let (kind1, _, _) = decode_operand(code, position, ip, 1);
            operand_kind(kind1) == OperandKind::Memory
        } {
            let (base, index) = {
                let (b, i, _, _) = decode_memory(code, position, ip);
                (b, i)
            };
            let (_, _, scale, disp) = decode_memory(code, position, ip);
            Operation::Lea(address_register(base)?, address_register(index)?, scale, disp)
        } else {
            return Err(unsupported_instruction(shape.mnemonic));
        };
        instructions.push(Assignment { dst, width, operation });
        position = stop;
    }
    if !returned {
        return err("function does not end in a supported return");
    }
    Ok(instructions)
}

/// The same register (`Register` equality).
#[verifier::external_body]
fn same_register(a: Register, b: Register) -> (r: bool) {
    a == b
}

/// A two-operand add, subtract, and, or or exclusive or reads the
/// destination register as its first operand: x86 computes
/// `destination op source` into the destination.
pub open spec fn reads_destination(x: Assignment) -> bool {
    match x.operation {
        Operation::Binary(op, a, _) => op is Mul || a == Operand::Reg(x.dst, x.width),
        _ => true,
    }
}

/// What an x86 two-operand instruction writes into its destination,
/// from the destination's old value `d` and the source value `s`.
pub open spec fn x86_alu(op: BinaryOp, d: u64, s: u64) -> u64 {
    match op {
        BinaryOp::Add => wrapping_add(d, s),
        BinaryOp::Sub => wrapping_sub(d, s),
        BinaryOp::Mul => wrapping_mul(d, s),
        BinaryOp::And => d & s,
        BinaryOp::Or => d | s,
        BinaryOp::Xor => d ^ s,
    }
}

/// A lifted add, subtract, and, or or exclusive or computes what x86
/// computes: the destination's old value combined with the source, in
/// that order (so a subtraction takes the source from the destination).
pub proof fn law_alu_destination_first(regs: Seq<Option<u64>>, x: Assignment, op: BinaryOp, first: Operand, src: Operand)
    requires
        reads_destination(x),
        x.operation == Operation::Binary(op, first, src),
        !(op is Mul),
        0 <= x.dst < regs.len(),
        regs[x.dst as int] is Some,
        read_word(regs, src) is Ok,
    ensures
        operation_word(regs, x.operation) == Ok::<u64, Seq<char>>(
            x86_alu(op, regs[x.dst as int]->0, read_word(regs, src)->Ok_0),
        ),
{
}

/// Lifts the exported function `contract.symbol` of the shared object
/// `data` to a register model: the file must have the contract's hash, be a
/// static-free x86-64 shared object, export exactly one defined function of
/// that name, of 1 to 4096 bytes, that the loader binds to the same record
/// and maps from one read-only executable segment; and its code must lift.
pub fn lift(contract: &crate::binary::BinaryContract, signature: &Signature, data: &[u8]) -> (r: Result<
    BinaryModel,
    String,
>)
    ensures
        r matches Ok(m) ==> {
            &&& m.wf()
            &&& crate::binary::contract_ok(*contract)
            &&& sig_valid(signature.arguments@, signature.return_type)
            &&& m.signature.arguments@ == signature.arguments@
            &&& m.signature.return_type == signature.return_type
            &&& m.binary_hash@ == crate::digest::sha256_hex(data@)
            &&& m.symbol@ == contract.symbol@
            &&& m.lifter@ == LIFTER_VERSION@
            &&& 1 <= m.size <= 4096
            &&& m.instructions@.len() <= 256
            &&& crate::elf::has_binding_record(data@, encode_utf8(contract.symbol@), m.entry, m.size)
        },
{
    contract.validate()?;
    signature.validate()?;
    let digest = crate::digest::hash(data);
    let expected = lower_hex_string(&contract.sha256);
    if !crate::text::chars_eq(&chars_of(digest.as_str()), &expected) {
        return err("binary hash mismatch");
    }
    static_elf(data)?;
    let symbols = dynamic_symbols(data)?;
    let name = chars_of(contract.symbol.as_str());
    let mut chosen: Option<usize> = None;
    let mut i: usize = 0;
    while i < symbols.len()
        invariant
            0 <= i <= symbols@.len(),
            chosen matches Some(k) ==> k < symbols@.len(),
        decreases symbols@.len() - i,
    {
        let s = &symbols[i];
        let named = match &s.name {
            Some(n) => crate::text::chars_eq(&chars_of(n.as_str()), &name),
            None => false,
        };
        if named && !s.undefined {
            if chosen.is_some() {
                return err("ambiguous exported symbol versions unsupported");
            }
            chosen = Some(i);
        }
        i += 1;
    }
    let symbol = match chosen {
        None => {
            return err("missing exported function");
        },
        Some(k) => &symbols[k],
    };
    match symbol.st_info {
        Some(info) => {
            if info & 15 != 2 {
                return err("only ordinary STT_FUNC symbols are supported, not resolvers");
            }
        },
        None => {
            return err("only ordinary STT_FUNC symbols are supported, not resolvers");
        },
    }
    if symbol.size == 0 || symbol.size > 4096 || !symbol.text {
        return err("formal symbol must be a nonempty function of at most 4096 bytes");
    }
    crate::elf::validate(data, contract.symbol.as_str(), symbol.address, symbol.size)?;
    let index = match symbol.section {
        None => {
            return err("symbol has no section");
        },
        Some(x) => x,
    };
    let (section_address, section_data) = section_contents(data, index)?;
    let offset = match symbol.address.checked_sub(section_address) {
        None => {
            return err("symbol outside section");
        },
        Some(x) => x,
    };
    let start = slice(section_data.as_slice(), offset, symbol.size)?;
    let size = symbol.size as usize;
    let code = copy_span(section_data.as_slice(), start, size);
    assert(data@.len() == data.len());
    let phoff = read_u64(data, 32);
    let phnum = read_u16(data, 56) as u64;
    let end = match symbol.address.checked_add(symbol.size) {
        None => {
            return err("symbol address overflow");
        },
        Some(x) => x,
    };
    let mut mapped = false;
    let mut n: u64 = 0;
    while n < phnum
        invariant
            0 <= n <= phnum,
            phnum < 65536,
            data@.len() >= 64,
            data@.len() == data.len(),
            code@.len() == size,
            size == symbol.size,
        decreases phnum - n,
    {
        let at = match phoff.checked_add(n * 56) {
            None => {
                return err("ELF header overflow");
            },
            Some(x) => x,
        };
        let p = slice(data, at, 56)?;
        if read_u32(data, p) != 1 {
            n += 1;
            continue;
        }
        let address = read_u64(data, p + 16);
        let memory_end = match address.checked_add(read_u64(data, p + 40)) {
            None => {
                return err("segment address overflow");
            },
            Some(x) => x,
        };
        let end_page = match end.checked_add(4095) {
            None => {
                return err("symbol page overflow");
            },
            Some(x) => x & !4095u64,
        };
        if address & !4095u64 >= end_page || memory_end <= symbol.address & !4095u64 {
            n += 1;
            continue;
        }
        let file_end = match address.checked_add(read_u64(data, p + 32)) {
            None => {
                return err("segment size overflow");
            },
            Some(x) => x,
        };
        if mapped || address > symbol.address || file_end < end || read_u32(data, p + 4) & 3 != 1 {
            return err("symbol has ambiguous, non-executable or writable load mapping");
        }
        let file_offset = match read_u64(data, p + 8).checked_add(symbol.address - address) {
            None => {
                return err("mapped offset overflow");
            },
            Some(x) => x,
        };
        let q = slice(data, file_offset, symbol.size)?;
        if !bytes_eq(copy_span(data, q, size).as_slice(), code.as_slice()) {
            return err("ELF symbol bytes differ from loaded bytes");
        }
        mapped = true;
        n += 1;
    }
    if !mapped {
        return err("symbol is outside executable load mapping");
    }
    let instructions = lift_code(code.as_slice(), symbol.address)?;
    let model = BinaryModel {
        binary_hash: crate::digest::hash(data),
        symbol: string_of(&name),
        entry: symbol.address,
        size: symbol.size,
        code_hash: crate::digest::hash(code.as_slice()),
        lifter: LIFTER_VERSION.to_owned(),
        signature: signature.copy(),
        instructions,
    };
    model.symbolic()?;
    Ok(model)
}

} // verus!
