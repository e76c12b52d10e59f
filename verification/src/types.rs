//! Fixed-width scalar types, values and the operator semantics of the IR.
use vstd::arithmetic::div_mod::{lemma_mod_mod, lemma_small_mod, lemma_mod_add_multiples_vanish};
use vstd::prelude::*;

use crate::text::{chars_eq, err, push_str_chars};
use vstd::arithmetic::power2::pow2;

verus! {

/// The scalar types of the IR: a boolean and eight fixed-width integers.
#[derive(Clone, Copy, Debug, PartialEq, Eq, PartialOrd, Ord, Hash, Structural)]
pub enum Type {
    Bool,
    U8,
    U16,
    U32,
    U64,
    I8,
    I16,
    I32,
    I64,
}

/// Every type, in declaration order.
pub open spec fn all_types() -> Seq<Type> {
    seq![
        Type::Bool,
        Type::U8,
        Type::U16,
        Type::U32,
        Type::U64,
        Type::I8,
        Type::I16,
        Type::I32,
        Type::I64,
    ]
}

impl Type {
    pub open spec fn spec_width(self) -> u32 {
        match self {
            Type::Bool => 1,
            Type::U8 | Type::I8 => 8,
            Type::U16 | Type::I16 => 16,
            Type::U32 | Type::I32 => 32,
            Type::U64 | Type::I64 => 64,
        }
    }

    /// Number of bits of the type.
    #[verifier::when_used_as_spec(spec_width)]
    pub fn width(self) -> (r: u32)
        ensures
            r == self.spec_width(),
    {
        match self {
            Type::Bool => 1,
            Type::U8 | Type::I8 => 8,
            Type::U16 | Type::I16 => 16,
            Type::U32 | Type::I32 => 32,
            Type::U64 | Type::I64 => 64,
        }
    }

    pub open spec fn spec_signed(self) -> bool {
        self is I8 || self is I16 || self is I32 || self is I64
    }

    /// Whether the type is a two's-complement signed integer.
    #[verifier::when_used_as_spec(spec_signed)]
    pub fn signed(self) -> (r: bool)
        ensures
            r == self.spec_signed(),
    {
        matches!(self, Type::I8 | Type::I16 | Type::I32 | Type::I64)
    }

    pub open spec fn spec_mask(self) -> u64 {
        match self {
            Type::Bool => 1,
            Type::U8 | Type::I8 => 0xff,
            Type::U16 | Type::I16 => 0xffff,
            Type::U32 | Type::I32 => 0xffff_ffff,
            Type::U64 | Type::I64 => 0xffff_ffff_ffff_ffff,
        }
    }

    /// The all-ones pattern of the type's width, `2^width - 1`.
    #[verifier::when_used_as_spec(spec_mask)]
    pub fn mask(self) -> (r: u64)
        ensures
            r == self.spec_mask(),
    {
        match self {
            Type::Bool => 1,
            Type::U8 | Type::I8 => 0xff,
            Type::U16 | Type::I16 => 0xffff,
            Type::U32 | Type::I32 => 0xffff_ffff,
            Type::U64 | Type::I64 => 0xffff_ffff_ffff_ffff,
        }
    }

    pub open spec fn spec_integer(self) -> bool {
        !(self is Bool)
    }

    /// Whether the type is one of the integer types.
    #[verifier::when_used_as_spec(spec_integer)]
    pub fn integer(self) -> (r: bool)
        ensures
            r == self.spec_integer(),
    {
        !matches!(self, Type::Bool)
    }

    /// `2^width`.
    pub open spec fn modulus(self) -> int {
        self.spec_mask() + 1
    }

    /// The pattern with only the most significant bit of the width set.
    pub open spec fn spec_sign_bit(self) -> u64 {
        match self {
            Type::Bool => 1,
            Type::U8 | Type::I8 => 0x80,
            Type::U16 | Type::I16 => 0x8000,
            Type::U32 | Type::I32 => 0x8000_0000,
            Type::U64 | Type::I64 => 0x8000_0000_0000_0000,
        }
    }

    #[verifier::when_used_as_spec(spec_sign_bit)]
    pub fn sign_bit(self) -> (r: u64)
        ensures
            r == self.spec_sign_bit(),
    {
        match self {
            Type::Bool => 1,
            Type::U8 | Type::I8 => 0x80,
            Type::U16 | Type::I16 => 0x8000,
            Type::U32 | Type::I32 => 0x8000_0000,
            Type::U64 | Type::I64 => 0x8000_0000_0000_0000,
        }
    }

    /// The lowercase name of the type in source text.
    pub open spec fn spec_name(self) -> Seq<char> {
        match self {
            Type::Bool => seq!['b', 'o', 'o', 'l'],
            Type::U8 => seq!['u', '8'],
            Type::U16 => seq!['u', '1', '6'],
            Type::U32 => seq!['u', '3', '2'],
            Type::U64 => seq!['u', '6', '4'],
            Type::I8 => seq!['i', '8'],
            Type::I16 => seq!['i', '1', '6'],
            Type::I32 => seq!['i', '3', '2'],
            Type::I64 => seq!['i', '6', '4'],
        }
    }

    /// The characters of the type's name.
    pub fn name_chars(self) -> (r: Vec<char>)
        ensures
            r@ == self.spec_name(),
    {
        match self {
            Type::Bool => vec!['b', 'o', 'o', 'l'],
            Type::U8 => vec!['u', '8'],
            Type::U16 => vec!['u', '1', '6'],
            Type::U32 => vec!['u', '3', '2'],
            Type::U64 => vec!['u', '6', '4'],
            Type::I8 => vec!['i', '8'],
            Type::I16 => vec!['i', '1', '6'],
            Type::I32 => vec!['i', '3', '2'],
            Type::I64 => vec!['i', '6', '4'],
        }
    }

    /// The type's name as a string (`u8`, `i64`, `bool`, ...).
    pub fn to_name(self) -> (r: String)
        ensures
            r@ == self.spec_name(),
    {
        let mut s = String::new();
        push_str_chars(&mut s, &self.name_chars());
        s
    }

    /// Looks a type up by its name.
    pub fn from_chars(s: &[char]) -> (r: Option<Type>)
        ensures
            r matches Some(t) ==> t.spec_name() == s@,
            r is None ==> forall|t: Type| t.spec_name() != s@,
    {
        let all = [
            Type::Bool,
            Type::U8,
            Type::U16,
            Type::U32,
            Type::U64,
            Type::I8,
            Type::I16,
            Type::I32,
            Type::I64,
        ];
        let mut i: usize = 0;
        while i < 9
            invariant
                0 <= i <= 9,
                all@ == all_types(),
                forall|j: int| 0 <= j < i ==> all_types()[j].spec_name() != s@,
            decreases 9 - i,
        {
            let t = all[i];
            let n = t.name_chars();
            if crate::text::chars_eq(&n, s) {
                return Some(t);
            }
            i += 1;
        }
        proof {
            assert forall|t: Type| t.spec_name() != s@ by {
                let j: int = match t {
                    Type::Bool => 0,
                    Type::U8 => 1,
                    Type::U16 => 2,
                    Type::U32 => 3,
                    Type::U64 => 4,
                    Type::I8 => 5,
                    Type::I16 => 6,
                    Type::I32 => 7,
                    Type::I64 => 8,
                };
                assert(all_types()[j] == t);
            }
        }
        None
    }

    /// Parses a type name; the error names the unknown type.
    pub fn parse_name(s: &[char]) -> (r: Result<Type, String>)
        ensures
            r matches Ok(t) ==> t.spec_name() == s@,
            r is Err ==> forall|t: Type| t.spec_name() != s@,
    {
        match Type::from_chars(s) {
            Some(t) => Ok(t),
            None => err("unknown type"),
        }
    }
}

/// `x & mask == x mod 2^width` for every type.
pub proof fn lemma_mask_is_mod(x: u64, t: Type)
    ensures
        (x & t.spec_mask()) as int == (x as int) % t.modulus(),
        (x & t.spec_mask()) <= t.spec_mask(),
{
    match t {
        Type::Bool => {
            assert(x & 1 == x % 2 && x & 1 <= 1) by (bit_vector);
        },
        Type::U8 | Type::I8 => {
            assert(x & 0xff == x % 256 && x & 0xff <= 0xff) by (bit_vector);
        },
        Type::U16 | Type::I16 => {
            assert(x & 0xffff == x % 65536 && x & 0xffff <= 0xffff) by (bit_vector);
        },
        Type::U32 | Type::I32 => {
            assert(x & 0xffff_ffff == x % 0x1_0000_0000 && x & 0xffff_ffff <= 0xffff_ffff)
                by (bit_vector);
        },
        Type::U64 | Type::I64 => {
            assert(x & 0xffff_ffff_ffff_ffff == x) by (bit_vector);
            lemma_small_mod(x as nat, 0x1_0000_0000_0000_0000nat);
        },
    }
}

/// Reducing modulo `2^64` first does not change a value modulo `2^width`.
pub proof fn lemma_mod_word(x: int, t: Type)
    ensures
        (x % 0x1_0000_0000_0000_0000int) % t.modulus() == x % t.modulus(),
{
    let m = t.modulus();
    let q: int = match t {
        Type::Bool => 0x8000_0000_0000_0000int,
        Type::U8 | Type::I8 => 0x100_0000_0000_0000int,
        Type::U16 | Type::I16 => 0x1_0000_0000_0000int,
        Type::U32 | Type::I32 => 0x1_0000_0000int,
        Type::U64 | Type::I64 => 1int,
    };
    assert(m * q == 0x1_0000_0000_0000_0000int);
    lemma_mod_mod(x, m, q);
}

/// Masking keeps a value within its width.
pub proof fn lemma_masked_le(x: u64, t: Type)
    ensures
        x & t.spec_mask() <= x,
        x <= t.spec_mask() ==> x & t.spec_mask() == x,
{
    lemma_mask_is_mod(x, t);
    if x <= t.spec_mask() {
        lemma_small_mod(x as nat, t.modulus() as nat);
    }
    let m = t.spec_mask();
    assert(x & m <= x) by (bit_vector);
}

/// A typed bit pattern. The bits are stored zero-extended in the low
/// `width` bits of a `u64`.
#[derive(Clone, Copy, Debug, PartialEq, Eq, PartialOrd, Ord, Hash, Structural)]
pub struct Value {
    pub ty: Type,
    pub bits: u64,
}

/// The value of `ty` whose bits are the low `width` bits of `bits`.
pub open spec fn spec_value(ty: Type, bits: u64) -> Value {
    Value { ty, bits: bits & ty.spec_mask() }
}

/// The value of `ty` congruent to the integer `n` modulo `2^width`.
pub open spec fn wrap(ty: Type, n: int) -> Value {
    Value { ty, bits: (n % ty.modulus()) as u64 }
}

/// Truncating (round toward zero) integer division.
pub open spec fn trunc_div(x: int, y: int) -> int {
    let q = abs(x) / abs(y);
    if (x < 0) == (y < 0) {
        q
    } else {
        -q
    }
}

/// Remainder of truncating division; it has the sign of the dividend.
pub open spec fn trunc_rem(x: int, y: int) -> int {
    x - y * trunc_div(x, y)
}

pub open spec fn abs(x: int) -> int {
    if x < 0 {
        -x
    } else {
        x
    }
}

pub open spec fn bool_bits(b: bool) -> u64 {
    if b {
        1
    } else {
        0
    }
}

/// The sign bit of a width splits the values that fit it in two.
pub proof fn lemma_sign_split(x: u64, s: u64, m: u64)
    requires
        (s == 1 && m == 1) || (s == 0x80 && m == 0xff) || (s == 0x8000 && m == 0xffff) || (s == 0x8000_0000 && m
            == 0xffff_ffff) || (s == 0x8000_0000_0000_0000 && m == 0xffff_ffff_ffff_ffff),
        x <= m,
    ensures
        x & s != 0 ==> x >= s,
        x & s == 0 ==> x < s,
{
    assert(x & s != 0 ==> x >= s) by (bit_vector)
        requires
            (s == 1 && m == 1) || (s == 0x80 && m == 0xff) || (s == 0x8000 && m == 0xffff) || (s == 0x8000_0000 && m
                == 0xffff_ffff) || (s == 0x8000_0000_0000_0000 && m == 0xffff_ffff_ffff_ffff),
            x <= m,
    ;
    assert(x & s == 0 ==> x < s) by (bit_vector)
        requires
            (s == 1 && m == 1) || (s == 0x80 && m == 0xff) || (s == 0x8000 && m == 0xffff) || (s == 0x8000_0000 && m
                == 0xffff_ffff) || (s == 0x8000_0000_0000_0000 && m == 0xffff_ffff_ffff_ffff),
            x <= m,
    ;
}

/// The two's-complement reading of a value lies in the range of its
/// width: from minus the sign bit up to one below it.
pub proof fn law_signed_range(v: Value)
    requires
        v.wf(),
    ensures
        -(v.ty.spec_sign_bit() as int) <= v.spec_signed() < v.ty.spec_sign_bit() as int,
        v.ty.modulus() == 2 * (v.ty.spec_sign_bit() as int),
{
    lemma_sign_split(v.bits, v.ty.spec_sign_bit(), v.ty.spec_mask());
}

impl Value {
    /// The bits fit the width of the type.
    pub open spec fn wf(self) -> bool {
        self.bits <= self.ty.spec_mask()
    }

    /// The two's-complement reading of the bits at the type's width.
    pub open spec fn spec_signed(self) -> int {
        if self.bits & self.ty.spec_sign_bit() != 0 {
            self.bits - self.ty.modulus()
        } else {
            self.bits as int
        }
    }

    /// Builds a value, keeping only the low `width` bits.
    pub fn new(ty: Type, bits: u64) -> (r: Value)
        ensures
            r == spec_value(ty, bits),
            r.wf(),
            r.bits as int == bits as int % ty.modulus(),
    {
        proof {
            lemma_mask_is_mod(bits, ty);
        }
        Value { ty, bits: bits & ty.mask() }
    }

    /// The two's-complement value of the bits.
    pub fn signed(self) -> (r: i128)
        ensures
            r == self.spec_signed(),
    {
        let n = self.bits as i128;
        if self.bits & self.ty.sign_bit() != 0 {
            n - (self.ty.mask() as i128 + 1)
        } else {
            n
        }
    }
}

/// For a well-formed value the sign bit is set exactly when the unsigned
/// reading is at least half the modulus.
pub proof fn lemma_signed_range(v: Value)
    requires
        v.wf(),
    ensures
        (v.bits & v.ty.spec_sign_bit() != 0) <==> v.bits >= v.ty.spec_sign_bit(),
        -(v.ty.spec_sign_bit() as int) <= v.spec_signed() < v.ty.spec_sign_bit(),
        v.ty.modulus() == 2 * v.ty.spec_sign_bit(),
{
    let x = v.bits;
    match v.ty {
        Type::Bool => {
            assert(x <= 1 ==> ((x & 1 != 0) <==> x >= 1)) by (bit_vector);
        },
        Type::U8 | Type::I8 => {
            assert(x <= 0xff ==> ((x & 0x80 != 0) <==> x >= 0x80)) by (bit_vector);
        },
        Type::U16 | Type::I16 => {
            assert(x <= 0xffff ==> ((x & 0x8000 != 0) <==> x >= 0x8000)) by (bit_vector);
        },
        Type::U32 | Type::I32 => {
            assert(x <= 0xffff_ffff ==> ((x & 0x8000_0000 != 0) <==> x >= 0x8000_0000))
                by (bit_vector);
        },
        Type::U64 | Type::I64 => {
            assert((x & 0x8000_0000_0000_0000 != 0) <==> x >= 0x8000_0000_0000_0000)
                by (bit_vector);
        },
    }
}

/// The operators of the IR.
#[derive(Clone, Copy, Debug, PartialEq, Eq, PartialOrd, Ord, Hash, Structural)]
pub enum Op {
    Add,
    Sub,
    Mul,
    Udiv,
    Sdiv,
    Urem,
    Srem,
    And,
    Or,
    Xor,
    Not,
    Shl,
    Lshr,
    Ashr,
    Rotl,
    Rotr,
    Eq,
    Ne,
    Ult,
    Ule,
    Ugt,
    Uge,
    Slt,
    Sle,
    Sgt,
    Sge,
    Select
}

/// Every operator, in declaration order.
pub open spec fn all_ops() -> Seq<Op> {
    seq![
        Op::Add,
        Op::Sub,
        Op::Mul,
        Op::Udiv,
        Op::Sdiv,
        Op::Urem,
        Op::Srem,
        Op::And,
        Op::Or,
        Op::Xor,
        Op::Not,
        Op::Shl,
        Op::Lshr,
        Op::Ashr,
        Op::Rotl,
        Op::Rotr,
        Op::Eq,
        Op::Ne,
        Op::Ult,
        Op::Ule,
        Op::Ugt,
        Op::Uge,
        Op::Slt,
        Op::Sle,
        Op::Sgt,
        Op::Sge,
        Op::Select
    ]
}

/// The sequence of the types of `vals`.
pub open spec fn types_of(vals: Seq<Value>) -> Seq<Type> {
    vals.map_values(|v: Value| v.ty)
}

/// The result type of `op` applied to operands of the given types, when
/// the application is well typed.
pub open spec fn spec_result(op: Op, types: Seq<Type>) -> Option<Type> {
    if types.len() != op.spec_arity() {
        None
    } else if op is Select {
        if types[0] is Bool && types[1] == types[2] {
            Some(types[1])
        } else {
            None
        }
    } else if types.len() == 2 && types[1] != types[0] {
        None
    } else if op is Eq || op is Ne {
        Some(Type::Bool)
    } else if !types[0].spec_integer() {
        None
    } else if op.unsigned_only() && types[0].spec_signed() {
        None
    } else if op.signed_only() && !types[0].spec_signed() {
        None
    } else if op.is_order() {
        Some(Type::Bool)
    } else {
        Some(types[0])
    }
}

/// The value computed by `op` on the operands `v`, or `None` when the
/// application is ill typed or traps (division by zero, signed overflow).
pub open spec fn spec_eval(op: Op, v: Seq<Value>) -> Option<Value> {
    if v.len() > 3 {
        None
    } else {
        match spec_result(op, types_of(v)) {
            None => None,
            Some(ty) => {
                let a = v[0];
                let b = if v.len() > 1 { v[1] } else { v[0] };
                let w = a.ty.spec_width();
                let k = (b.bits % (w as u64)) as u64;
                let x = a.spec_signed();
                let y = b.spec_signed();
                match op {
                    Op::Add => Some(wrap(ty, a.bits + b.bits)),
                    Op::Sub => Some(wrap(ty, a.bits - b.bits)),
                    Op::Mul => Some(wrap(ty, a.bits * b.bits)),
                    Op::Udiv => if b.bits == 0 { None } else { Some(spec_value(ty, a.bits / b.bits)) },
                    Op::Urem => if b.bits == 0 { None } else { Some(spec_value(ty, a.bits % b.bits)) },
                    Op::Sdiv => if y == 0 {
                        None
                    } else if x == -(a.ty.spec_sign_bit() as int) && y == -1 {
                        None
                    } else {
                        Some(wrap(ty, trunc_div(x, y)))
                    },
                    Op::Srem => if y == 0 {
                        None
                    } else if x == -(a.ty.spec_sign_bit() as int) && y == -1 {
                        None
                    } else {
                        Some(wrap(ty, trunc_rem(x, y)))
                    },
                    Op::And => Some(spec_value(ty, a.bits & b.bits)),
                    Op::Or => Some(spec_value(ty, a.bits | b.bits)),
                    Op::Xor => Some(spec_value(ty, a.bits ^ b.bits)),
                    Op::Not => Some(spec_value(ty, !a.bits)),
                    Op::Shl => Some(spec_value(ty, a.bits << k)),
                    Op::Lshr => Some(spec_value(ty, a.bits >> k)),
                    Op::Ashr => Some(wrap(ty, x / (pow2(k as nat) as int))),
                    Op::Rotl => if k == 0 {
                        Some(spec_value(ty, a.bits))
                    } else {
                        Some(spec_value(ty, (a.bits << k) | (a.bits >> ((w as u64) - k) as u64)))
                    },
                    Op::Rotr => if k == 0 {
                        Some(spec_value(ty, a.bits))
                    } else {
                        Some(spec_value(ty, (a.bits >> k) | (a.bits << ((w as u64) - k) as u64)))
                    },
                    Op::Eq => Some(spec_value(ty, bool_bits(a.bits == b.bits))),
                    Op::Ne => Some(spec_value(ty, bool_bits(a.bits != b.bits))),
                    Op::Ult => Some(spec_value(ty, bool_bits(a.bits < b.bits))),
                    Op::Ule => Some(spec_value(ty, bool_bits(a.bits <= b.bits))),
                    Op::Ugt => Some(spec_value(ty, bool_bits(a.bits > b.bits))),
                    Op::Uge => Some(spec_value(ty, bool_bits(a.bits >= b.bits))),
                    Op::Slt => Some(spec_value(ty, bool_bits(x < y))),
                    Op::Sle => Some(spec_value(ty, bool_bits(x <= y))),
                    Op::Sgt => Some(spec_value(ty, bool_bits(x > y))),
                    Op::Sge => Some(spec_value(ty, bool_bits(x >= y))),
                    Op::Select => Some(spec_value(ty, if a.bits != 0 { v[1].bits } else { v[2].bits })),
                }
            },
        }
    }
}

impl Op {
    /// Every operator, in declaration order.
    pub const ALL: [Op; 27] = [
        Op::Add,
        Op::Sub,
        Op::Mul,
        Op::Udiv,
        Op::Sdiv,
        Op::Urem,
        Op::Srem,
        Op::And,
        Op::Or,
        Op::Xor,
        Op::Not,
        Op::Shl,
        Op::Lshr,
        Op::Ashr,
        Op::Rotl,
        Op::Rotr,
        Op::Eq,
        Op::Ne,
        Op::Ult,
        Op::Ule,
        Op::Ugt,
        Op::Uge,
        Op::Slt,
        Op::Sle,
        Op::Sgt,
        Op::Sge,
        Op::Select
    ];

    pub open spec fn spec_arity(self) -> usize {
        match self {
            Op::Not => 1,
            Op::Select => 3,
            _ => 2,
        }
    }

    /// Number of operands.
    #[verifier::when_used_as_spec(spec_arity)]
    pub fn arity(self) -> (r: usize)
        ensures
            r == self.spec_arity(),
    {
        match self {
            Op::Not => 1,
            Op::Select => 3,
            _ => 2,
        }
    }

    /// Operators that accept only unsigned operands.
    pub open spec fn unsigned_only(self) -> bool {
        self is Udiv || self is Urem || self is Ult || self is Ule || self is Ugt || self is Uge
    }

    /// Operators that accept only signed operands.
    pub open spec fn signed_only(self) -> bool {
        self is Sdiv || self is Srem || self is Slt || self is Sle || self is Sgt || self is Sge
    }

    /// Ordering comparisons.
    pub open spec fn is_order(self) -> bool {
        self.unsigned_only() && !(self is Udiv || self is Urem) || self.signed_only() && !(
        self is Sdiv || self is Srem)
    }

    /// The lowercase name of the operator in source text.
    pub open spec fn spec_name(self) -> Seq<char> {
        match self {
            Op::Add => seq!['a', 'd', 'd'],
            Op::Sub => seq!['s', 'u', 'b'],
            Op::Mul => seq!['m', 'u', 'l'],
            Op::Udiv => seq!['u', 'd', 'i', 'v'],
            Op::Sdiv => seq!['s', 'd', 'i', 'v'],
            Op::Urem => seq!['u', 'r', 'e', 'm'],
            Op::Srem => seq!['s', 'r', 'e', 'm'],
            Op::And => seq!['a', 'n', 'd'],
            Op::Or => seq!['o', 'r'],
            Op::Xor => seq!['x', 'o', 'r'],
            Op::Not => seq!['n', 'o', 't'],
            Op::Shl => seq!['s', 'h', 'l'],
            Op::Lshr => seq!['l', 's', 'h', 'r'],
            Op::Ashr => seq!['a', 's', 'h', 'r'],
            Op::Rotl => seq!['r', 'o', 't', 'l'],
            Op::Rotr => seq!['r', 'o', 't', 'r'],
            Op::Eq => seq!['e', 'q'],
            Op::Ne => seq!['n', 'e'],
            Op::Ult => seq!['u', 'l', 't'],
            Op::Ule => seq!['u', 'l', 'e'],
            Op::Ugt => seq!['u', 'g', 't'],
            Op::Uge => seq!['u', 'g', 'e'],
            Op::Slt => seq!['s', 'l', 't'],
            Op::Sle => seq!['s', 'l', 'e'],
            Op::Sgt => seq!['s', 'g', 't'],
            Op::Sge => seq!['s', 'g', 'e'],
            Op::Select => seq!['s', 'e', 'l', 'e', 'c', 't'],
        }
    }

    /// The characters of the operator's name.
    pub fn name_chars(self) -> (r: Vec<char>)
        ensures
            r@ == self.spec_name(),
    {
        match self {
            Op::Add => vec!['a', 'd', 'd'],
            Op::Sub => vec!['s', 'u', 'b'],
            Op::Mul => vec!['m', 'u', 'l'],
            Op::Udiv => vec!['u', 'd', 'i', 'v'],
            Op::Sdiv => vec!['s', 'd', 'i', 'v'],
            Op::Urem => vec!['u', 'r', 'e', 'm'],
            Op::Srem => vec!['s', 'r', 'e', 'm'],
            Op::And => vec!['a', 'n', 'd'],
            Op::Or => vec!['o', 'r'],
            Op::Xor => vec!['x', 'o', 'r'],
            Op::Not => vec!['n', 'o', 't'],
            Op::Shl => vec!['s', 'h', 'l'],
            Op::Lshr => vec!['l', 's', 'h', 'r'],
            Op::Ashr => vec!['a', 's', 'h', 'r'],
            Op::Rotl => vec!['r', 'o', 't', 'l'],
            Op::Rotr => vec!['r', 'o', 't', 'r'],
            Op::Eq => vec!['e', 'q'],
            Op::Ne => vec!['n', 'e'],
            Op::Ult => vec!['u', 'l', 't'],
            Op::Ule => vec!['u', 'l', 'e'],
            Op::Ugt => vec!['u', 'g', 't'],
            Op::Uge => vec!['u', 'g', 'e'],
            Op::Slt => vec!['s', 'l', 't'],
            Op::Sle => vec!['s', 'l', 'e'],
            Op::Sgt => vec!['s', 'g', 't'],
            Op::Sge => vec!['s', 'g', 'e'],
            Op::Select => vec!['s', 'e', 'l', 'e', 'c', 't'],
        }
    }

    /// The operator's name as a string (`add`, `select`, ...).
    pub fn to_name(self) -> (r: String)
        ensures
            r@ == self.spec_name(),
    {
        let mut s = String::new();
        push_str_chars(&mut s, &self.name_chars());
        s
    }

    /// Looks an operator up by its name.
    pub fn from_chars(s: &[char]) -> (r: Option<Op>)
        ensures
            r matches Some(o) ==> o.spec_name() == s@,
            r is None ==> forall|o: Op| o.spec_name() != s@,
    {
        let all = Op::ALL;
        let mut i: usize = 0;
        while i < 27
            invariant
                0 <= i <= 27,
                all@ == all_ops(),
                forall|j: int| 0 <= j < i ==> all_ops()[j].spec_name() != s@,
            decreases 27 - i,
        {
            let o = all[i];
            let n = o.name_chars();
            if chars_eq(&n, s) {
                return Some(o);
            }
            i += 1;
        }
        proof {
            assert forall|o: Op| o.spec_name() != s@ by {
                let j: int = match o {
                    Op::Add => 0,
                    Op::Sub => 1,
                    Op::Mul => 2,
                    Op::Udiv => 3,
                    Op::Sdiv => 4,
                    Op::Urem => 5,
                    Op::Srem => 6,
                    Op::And => 7,
                    Op::Or => 8,
                    Op::Xor => 9,
                    Op::Not => 10,
                    Op::Shl => 11,
                    Op::Lshr => 12,
                    Op::Ashr => 13,
                    Op::Rotl => 14,
                    Op::Rotr => 15,
                    Op::Eq => 16,
                    Op::Ne => 17,
                    Op::Ult => 18,
                    Op::Ule => 19,
                    Op::Ugt => 20,
                    Op::Uge => 21,
                    Op::Slt => 22,
                    Op::Sle => 23,
                    Op::Sgt => 24,
                    Op::Sge => 25,
                    Op::Select => 26,
                };
                assert(all_ops()[j] == o);
            }
        }
        None
    }

    /// Parses an operator name; the error names the unknown operator.
    pub fn parse_name(s: &[char]) -> (r: Result<Op, String>)
        ensures
            r matches Ok(o) ==> o.spec_name() == s@,
            r is Err ==> forall|o: Op| o.spec_name() != s@,
    {
        match Op::from_chars(s) {
            Some(o) => Ok(o),
            None => err("unknown operator"),
        }
    }

    /// The result type of the operator on operands of the given types.
    pub fn result(self, types: &[Type]) -> (r: Result<Type, String>)
        ensures
            r matches Ok(t) ==> spec_result(self, types@) == Some(t),
            r is Err ==> spec_result(self, types@) is None,
    {
        let n = types.len();
        if n > 3 {
            return err("wrong operand count");
        }
        let t0 = if n > 0 { types[0] } else { Type::Bool };
        let t1 = if n > 1 { types[1] } else { Type::Bool };
        let t2 = if n > 2 { types[2] } else { Type::Bool };
        assert(seq![t0, t1, t2].subrange(0, n as int) =~= types@);
        self.result_n(n, t0, t1, t2)
    }

    /// `result` on the first `n` of three operand types.
    pub fn result_n(self, n: usize, t0: Type, t1: Type, t2: Type) -> (r: Result<Type, String>)
        requires
            n <= 3,
        ensures
            r matches Ok(t) ==> spec_result(self, seq![t0, t1, t2].subrange(0, n as int)) == Some(t),
            r is Err ==> spec_result(self, seq![t0, t1, t2].subrange(0, n as int)) is None,
    {
        let ghost types = seq![t0, t1, t2].subrange(0, n as int);
        if n != self.arity() {
            return err("wrong operand count");
        }
        if matches!(self, Op::Select) {
            return if matches!(t0, Type::Bool) && t1 == t2 {
                Ok(t1)
            } else {
                err("select requires bool and identical alternatives")
            };
        }
        let t = t0;
        if n == 2 && t1 != t {
            return err("operator requires identical operand types");
        }
        if matches!(self, Op::Eq | Op::Ne) {
            return Ok(Type::Bool);
        }
        if !t.integer() {
            return err("operator requires integers");
        }
        if matches!(self, Op::Udiv | Op::Urem | Op::Ult | Op::Ule | Op::Ugt | Op::Uge) && t.signed() {
            return err("operator requires unsigned type");
        }
        if matches!(self, Op::Sdiv | Op::Srem | Op::Slt | Op::Sle | Op::Sgt | Op::Sge) && !t.signed() {
            return err("operator requires signed type");
        }
        if matches!(self, Op::Ult | Op::Ule | Op::Ugt | Op::Uge | Op::Slt | Op::Sle | Op::Sgt | Op::Sge) {
            Ok(Type::Bool)
        } else {
            Ok(t)
        }
    }
}

/// `2^64`.
pub open spec fn word() -> int {
    0x1_0000_0000_0000_0000int
}

/// `wrapping_add` is addition modulo `2^64`.
proof fn lemma_wrapping_add(a: u64, b: u64)
    ensures
        vstd::wrapping::u64_specs::wrapping_add(a, b) as int == (a + b) % word(),
{
    let s = a + b;
    if s > u64::MAX {
        vstd::arithmetic::div_mod::lemma_fundamental_div_mod_converse(s, word(), 1, s - word());
    } else {
        vstd::arithmetic::div_mod::lemma_fundamental_div_mod_converse(s, word(), 0, s);
    }
}

/// `wrapping_sub` is subtraction modulo `2^64`.
proof fn lemma_wrapping_sub(a: u64, b: u64)
    ensures
        vstd::wrapping::u64_specs::wrapping_sub(a, b) as int == (a - b) % word(),
{
    let s = a - b;
    if s < 0 {
        vstd::arithmetic::div_mod::lemma_fundamental_div_mod_converse(s, word(), -1, s + word());
    } else {
        vstd::arithmetic::div_mod::lemma_fundamental_div_mod_converse(s, word(), 0, s);
    }
}

/// A machine word congruent to `n` modulo `2^64`, masked to a width, is
/// `n` wrapped to that width.
proof fn lemma_wrap_word(n: int, r: u64, t: Type)
    requires
        r as int == n % word(),
    ensures
        spec_value(t, r) == wrap(t, n),
{
    lemma_mask_is_mod(r, t);
    lemma_mod_word(n, t);
}

/// A residue below the modulus is unchanged by masking.
proof fn lemma_residue(n: int, r: u64, t: Type)
    requires
        r as int == n % t.modulus(),
    ensures
        spec_value(t, r) == wrap(t, n),
{
    vstd::arithmetic::div_mod::lemma_mod_bound(n, t.modulus());
    lemma_masked_le(r, t);
}

/// `n mod 2^width` for an integer of magnitude at most `2^64`.
fn wrap_bits(n: i128, t: Type) -> (r: u64)
    requires
        -word() <= n <= word(),
    ensures
        r as int == (n as int) % t.modulus(),
{
    let m: u128 = t.mask() as u128 + 1;
    if n >= 0 {
        let r = (n as u128) % m;
        r as u64
    } else {
        let p = ((-n) as u128) % m;
        proof {
            let ni = n as int;
            let mi = m as int;
            vstd::arithmetic::div_mod::lemma_fundamental_div_mod(-ni, mi);
            let q = (-ni) / mi;
            if p == 0 {
                assert(ni == (-q) * mi) by (nonlinear_arith)
                    requires
                        -ni == mi * q,
                ;
                vstd::arithmetic::div_mod::lemma_fundamental_div_mod_converse(ni, mi, -q, 0);
            } else {
                assert(ni == (-q - 1) * mi + (mi - p)) by (nonlinear_arith)
                    requires
                        -ni == mi * q + p,
                ;
                vstd::arithmetic::div_mod::lemma_fundamental_div_mod_converse(
                    ni,
                    mi,
                    -q - 1,
                    mi - p,
                );
            }
        }
        if p == 0 {
            0
        } else {
            (m - p) as u64
        }
    }
}

/// Truncating division of integers of magnitude at most `2^64`.
fn trunc_div_exec(x: i128, y: i128) -> (q: i128)
    requires
        y != 0,
        -word() <= x <= word(),
        -word() <= y <= word(),
    ensures
        q == trunc_div(x as int, y as int),
        -word() <= q <= word(),
{
    let ax: u128 = if x < 0 { (-x) as u128 } else { x as u128 };
    let ay: u128 = if y < 0 { (-y) as u128 } else { y as u128 };
    let q = ax / ay;
    proof {
        vstd::arithmetic::div_mod::lemma_div_is_ordered_by_denominator(ax as int, 1, ay as int);
    }
    if (x < 0) == (y < 0) {
        q as i128
    } else {
        -(q as i128)
    }
}

/// Remainder of truncating division of integers of magnitude at most `2^64`.
fn trunc_rem_exec(x: i128, y: i128) -> (r: i128)
    requires
        y != 0,
        -word() <= x <= word(),
        -word() <= y <= word(),
    ensures
        r == trunc_rem(x as int, y as int),
        -word() <= r <= word(),
{
    let ax: u128 = if x < 0 { (-x) as u128 } else { x as u128 };
    let ay: u128 = if y < 0 { (-y) as u128 } else { y as u128 };
    let q = ax / ay;
    let r = ax % ay;
    proof {
        vstd::arithmetic::div_mod::lemma_fundamental_div_mod(ax as int, ay as int);
        let xi = x as int;
        let yi = y as int;
        let qi = q as int;
        let ri = r as int;
        let axi = ax as int;
        let ayi = ay as int;
        assert(axi == ayi * qi + ri);
        if (x < 0) == (y < 0) {
            assert(trunc_div(xi, yi) == qi);
            if x < 0 {
                assert(xi - yi * qi == -ri) by (nonlinear_arith)
                    requires
                        axi == ayi * qi + ri,
                        axi == -xi,
                        ayi == -yi,
                ;
            } else {
                assert(xi - yi * qi == ri) by (nonlinear_arith)
                    requires
                        axi == ayi * qi + ri,
                        axi == xi,
                        ayi == yi,
                ;
            }
        } else {
            assert(trunc_div(xi, yi) == -qi);
            if x < 0 {
                assert(xi - yi * (-qi) == -ri) by (nonlinear_arith)
                    requires
                        axi == ayi * qi + ri,
                        axi == -xi,
                        ayi == yi,
                ;
            } else {
                assert(xi - yi * (-qi) == ri) by (nonlinear_arith)
                    requires
                        axi == ayi * qi + ri,
                        axi == xi,
                        ayi == -yi,
                ;
            }
        }
    }
    if x < 0 {
        -(r as i128)
    } else {
        r as i128
    }
}

/// Floor division by `2^k` of an integer of magnitude at most `2^64`.
fn floor_shift(s: i128, k: u32) -> (r: i128)
    requires
        k < 64,
        -word() <= s < word(),
    ensures
        r == s as int / (pow2(k as nat) as int),
        -word() <= r < word(),
{
    proof {
        vstd::bits::lemma_u64_pow2_no_overflow(k as nat);
    }
    let ghost d = pow2(k as nat) as int;
    if s >= 0 {
        let u = s as u64;
        proof {
            vstd::bits::lemma_u64_shr_is_div(u, k as u64);
            vstd::arithmetic::div_mod::lemma_div_is_ordered_by_denominator(u as int, 1, d);
        }
        (u >> (k as u64)) as i128
    } else {
        let t = (-s - 1) as u64;
        proof {
            vstd::bits::lemma_u64_shr_is_div(t, k as u64);
            vstd::arithmetic::div_mod::lemma_fundamental_div_mod(t as int, d);
            vstd::arithmetic::div_mod::lemma_div_is_ordered_by_denominator(t as int, 1, d);
            let q = (t as int) / d;
            let rr = (t as int) % d;
            assert(s as int == (-q - 1) * d + (d - rr - 1)) by (nonlinear_arith)
                requires
                    t as int == d * q + rr,
                    t as int == -(s as int) - 1,
            ;
            vstd::arithmetic::div_mod::lemma_fundamental_div_mod_converse(
                s as int,
                d,
                -q - 1,
                d - rr - 1,
            );
        }
        let q = (t >> (k as u64)) as i128;
        -q - 1
    }
}

/// The magnitude bound of a two's-complement reading.
proof fn lemma_signed_bound(v: Value)
    ensures
        -word() <= v.spec_signed() < word(),
{
}

impl Op {
    /// Applies the operator to the operands. Errors on ill-typed
    /// applications, division by zero and signed division overflow.
    pub fn eval(self, v: &[Value]) -> (r: Result<Value, String>)
        ensures
            r matches Ok(x) ==> spec_eval(self, v@) == Some(x),
            r is Err ==> spec_eval(self, v@) is None,
    {
        let n = v.len();
        if n > 3 {
            return err("too many operands");
        }
        if n == 0 {
            let r = self.result_n(0, Type::Bool, Type::Bool, Type::Bool);
            assert(seq![Type::Bool, Type::Bool, Type::Bool].subrange(0, 0) =~= types_of(v@));
            return match r {
                Ok(_) => err("missing operands"),
                Err(e) => Err(e),
            };
        }
        let zero = Value { ty: Type::Bool, bits: 0 };
        let x0 = v[0];
        let x1 = if n > 1 { v[1] } else { zero };
        let x2 = if n > 2 { v[2] } else { zero };
        assert(seq![x0, x1, x2].subrange(0, n as int) =~= v@);
        self.apply(n, x0, x1, x2)
    }

    /// `eval` on the first `n` of three operands.
    #[verifier::spinoff_prover]
    #[verifier::rlimit(40)]
    pub fn apply(self, n: usize, x0: Value, x1: Value, x2: Value) -> (r: Result<Value, String>)
        requires
            1 <= n <= 3,
        ensures
            r matches Ok(x) ==> spec_eval(self, seq![x0, x1, x2].subrange(0, n as int)) == Some(x),
            r is Err ==> spec_eval(self, seq![x0, x1, x2].subrange(0, n as int)) is None,
    {
        let ghost v = seq![x0, x1, x2].subrange(0, n as int);
        assert(types_of(v) =~= seq![x0.ty, x1.ty, x2.ty].subrange(0, n as int));
        let ty = match self.result_n(n, x0.ty, x1.ty, x2.ty) {
            Ok(t) => t,
            Err(e) => return Err(e),
        };
        let a = x0;
        let b = if n > 1 { x1 } else { x0 };
        let w = a.ty.width();
        let k = (b.bits % (w as u64)) as u32;
        let x = a.signed();
        let y = b.signed();
        proof {
            lemma_signed_bound(a);
            lemma_signed_bound(b);
            assert(k < 64);
        }
        let bits: u64 = match self {
            Op::Add => {
                let s = a.bits.wrapping_add(b.bits);
                proof {
                    lemma_wrapping_add(a.bits, b.bits);
                    lemma_wrap_word(a.bits + b.bits, s, ty);
                }
                s
            },
            Op::Sub => {
                let s = a.bits.wrapping_sub(b.bits);
                proof {
                    lemma_wrapping_sub(a.bits, b.bits);
                    lemma_wrap_word(a.bits - b.bits, s, ty);
                }
                s
            },
            Op::Mul => {
                let s = a.bits.wrapping_mul(b.bits);
                proof {
                    lemma_wrap_word(a.bits * b.bits, s, ty);
                }
                s
            },
            Op::Udiv | Op::Urem => {
                if b.bits == 0 {
                    return err("division by zero");
                }
                if matches!(self, Op::Udiv) {
                    a.bits / b.bits
                } else {
                    a.bits % b.bits
                }
            },
            Op::Sdiv | Op::Srem => {
                if y == 0 {
                    return err("division by zero");
                }
                if x == -(a.ty.sign_bit() as i128) && y == -1 {
                    return err("signed division overflow");
                }
                let n = if matches!(self, Op::Sdiv) {
                    trunc_div_exec(x, y)
                } else {
                    trunc_rem_exec(x, y)
                };
                let r = wrap_bits(n, ty);
                proof {
                    lemma_residue(n as int, r, ty);
                }
                r
            },
            Op::And => a.bits & b.bits,
            Op::Or => a.bits | b.bits,
            Op::Xor => a.bits ^ b.bits,
            Op::Not => !a.bits,
            Op::Shl => a.bits << k,
            Op::Lshr => a.bits >> k,
            Op::Ashr => {
                let n = floor_shift(x, k);
                let r = wrap_bits(n, ty);
                proof {
                    lemma_residue(n as int, r, ty);
                }
                r
            },
            Op::Rotl => {
                if k == 0 {
                    a.bits
                } else {
                    (a.bits << k) | (a.bits >> (w - k))
                }
            },
            Op::Rotr => {
                if k == 0 {
                    a.bits
                } else {
                    (a.bits >> k) | (a.bits << (w - k))
                }
            },
            Op::Eq => if a.bits == b.bits { 1 } else { 0 },
            Op::Ne => if a.bits != b.bits { 1 } else { 0 },
            Op::Ult => if a.bits < b.bits { 1 } else { 0 },
            Op::Ule => if a.bits <= b.bits { 1 } else { 0 },
            Op::Ugt => if a.bits > b.bits { 1 } else { 0 },
            Op::Uge => if a.bits >= b.bits { 1 } else { 0 },
            Op::Slt => if x < y { 1 } else { 0 },
            Op::Sle => if x <= y { 1 } else { 0 },
            Op::Sgt => if x > y { 1 } else { 0 },
            Op::Sge => if x >= y { 1 } else { 0 },
            Op::Select => if a.bits != 0 { x1.bits } else { x2.bits },
        };
        Ok(Value::new(ty, bits))
    }
}

} // verus!
