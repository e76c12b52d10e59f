//! Textual forms of values: fixed-width hexadecimal and typed literals.
use vstd::prelude::*;

use crate::text::{chars_of, err, string_of};
use crate::types::{spec_value, wrap, Type, Value};

verus! {

/// The lowercase hexadecimal digit of `d < 16`.
pub open spec fn hex_char(d: int) -> char {
    if d < 10 {
        ('0' as int + d) as char
    } else {
        ('a' as int + d - 10) as char
    }
}

/// The value of a hexadecimal digit of either case.
pub open spec fn hex_value_of(c: char) -> int {
    if '0' <= c <= '9' {
        c as int - '0' as int
    } else if 'a' <= c <= 'f' {
        c as int - 'a' as int + 10
    } else {
        c as int - 'A' as int + 10
    }
}

pub open spec fn is_hex_char(c: char) -> bool {
    '0' <= c <= '9' || 'a' <= c <= 'f' || 'A' <= c <= 'F'
}

pub open spec fn is_dec_char(c: char) -> bool {
    '0' <= c <= '9'
}

pub open spec fn all_hex(s: Seq<char>) -> bool {
    forall|i: int| 0 <= i < s.len() ==> is_hex_char(#[trigger] s[i])
}

pub open spec fn all_dec(s: Seq<char>) -> bool {
    forall|i: int| 0 <= i < s.len() ==> is_dec_char(#[trigger] s[i])
}

/// The number written by the hexadecimal digits `s`.
pub open spec fn hex_number(s: Seq<char>) -> nat
    decreases s.len(),
{
    if s.len() == 0 {
        0
    } else {
        (hex_number(s.drop_last()) * 16 + hex_value_of(s.last())) as nat
    }
}

/// The number written by the decimal digits `s`.
pub open spec fn dec_number(s: Seq<char>) -> nat
    decreases s.len(),
{
    if s.len() == 0 {
        0
    } else {
        (dec_number(s.drop_last()) * 10 + (s.last() as int - '0' as int)) as nat
    }
}

/// The hexadecimal digits of `n`, zero-padded to at least `count` digits.
pub open spec fn hex_digits(n: nat, count: nat) -> Seq<char>
    decreases n, count,
{
    if n == 0 && count == 0 {
        seq![]
    } else {
        hex_digits(n / 16, if count > 0 { (count - 1) as nat } else { 0 }).push(
            hex_char((n % 16) as int),
        )
    }
}

/// Number of hexadecimal digits of the fixed-width form of a type.
pub open spec fn hex_width(t: Type) -> nat {
    match t {
        Type::Bool => 1,
        Type::U8 | Type::I8 => 2,
        Type::U16 | Type::I16 => 4,
        Type::U32 | Type::I32 => 8,
        Type::U64 | Type::I64 => 16,
    }
}

/// `0x` followed by the digits of the bits, zero-padded to the width.
pub open spec fn spec_hex(v: Value) -> Seq<char> {
    seq!['0', 'x'] + hex_digits(v.bits as nat, hex_width(v.ty))
}

/// The fixed-width hexadecimal form accepted for an integer type.
pub open spec fn spec_from_hex(ty: Type, s: Seq<char>) -> Option<Value> {
    if ty.spec_integer() && s.len() == 2 + ty.spec_width() / 4 && s[0] == '0' && s[1] == 'x'
        && all_hex(s.skip(2)) {
        Some(Value { ty, bits: hex_number(s.skip(2)) as u64 })
    } else {
        None
    }
}

pub open spec fn true_chars() -> Seq<char> {
    seq!['t', 'r', 'u', 'e']
}

pub open spec fn false_chars() -> Seq<char> {
    seq!['f', 'a', 'l', 's', 'e']
}

/// The type suffixes of literals, in the order they are tried.
pub open spec fn suffix_order() -> Seq<Type> {
    seq![Type::U16, Type::U32, Type::U64, Type::I16, Type::I32, Type::I64, Type::U8, Type::I8]
}

pub open spec fn ends_with(s: Seq<char>, suffix: Seq<char>) -> bool {
    suffix.len() <= s.len() && s.skip(s.len() - suffix.len()) == suffix
}

/// The first suffix in `suffix_order()[from..]` that `s` ends with.
pub open spec fn literal_suffix_from(s: Seq<char>, from: nat) -> Option<Type>
    decreases 8 - from,
{
    if from >= 8 {
        None
    } else if ends_with(s, suffix_order()[from as int].spec_name()) {
        Some(suffix_order()[from as int])
    } else {
        literal_suffix_from(s, from + 1)
    }
}

/// Smallest and largest integers of a type.
pub open spec fn low(t: Type) -> int {
    if t.spec_signed() {
        -(t.spec_sign_bit() as int)
    } else {
        0
    }
}

pub open spec fn high(t: Type) -> int {
    if t.spec_signed() {
        t.spec_sign_bit() - 1
    } else {
        t.spec_mask() as int
    }
}

/// The value written by a typed literal: `true`, `false`, `0x..T` or
/// an optionally negative decimal followed by an integer type suffix.
pub open spec fn spec_parse_literal(s: Seq<char>) -> Option<Value> {
    if s == true_chars() {
        Some(Value { ty: Type::Bool, bits: 1 })
    } else if s == false_chars() {
        Some(Value { ty: Type::Bool, bits: 0 })
    } else {
        match literal_suffix_from(s, 0) {
            None => None,
            Some(ty) => {
                let digits = s.subrange(0, s.len() - ty.spec_name().len());
                if digits.len() >= 2 && digits[0] == '0' && digits[1] == 'x' {
                    let h = digits.skip(2);
                    if h.len() == 0 || !all_hex(h) || hex_number(h) > ty.spec_mask() {
                        None
                    } else {
                        Some(Value { ty, bits: hex_number(h) as u64 })
                    }
                } else {
                    let neg = digits.len() > 0 && digits[0] == '-';
                    let d = if neg { digits.skip(1) } else { digits };
                    if d.len() == 0 || !all_dec(d) || (neg && !ty.spec_signed()) {
                        None
                    } else {
                        let n = if neg { -dec_number(d) } else { dec_number(d) as int };
                        if n < low(ty) || n > high(ty) {
                            None
                        } else {
                            Some(wrap(ty, n))
                        }
                    }
                }
            },
        }
    }
}

proof fn lemma_hex_char_is_hex(d: int)
    requires
        0 <= d < 16,
    ensures
        is_hex_char(hex_char(d)),
{
}

fn hex_digit_char(d: u64) -> (c: char)
    requires
        d < 16,
    ensures
        c == hex_char(d as int),
{
    if d < 10 {
        ((48 + d) as u8) as char
    } else {
        ((97 + d - 10) as u8) as char
    }
}

/// `hex_digits` never shrinks below the requested count and grows by
/// one digit per step.
proof fn lemma_hex_digits_step(n: nat, count: nat)
    requires
        !(n == 0 && count == 0),
    ensures
        hex_digits(n, count) == hex_digits(n / 16, if count > 0 { (count - 1) as nat } else { 0 }).push(
            hex_char((n % 16) as int),
        ),
{
}

impl Value {
    /// `0x` followed by the lowercase hexadecimal digits of the bits,
    /// zero-padded to the width of the type.
    pub fn hex(self) -> (r: String)
        ensures
            r@ == spec_hex(self),
    {
        let mut out: Vec<char> = Vec::new();
        let mut n: u64 = self.bits;
        let mut count: u64 = match self.ty {
            Type::Bool => 1,
            Type::U8 | Type::I8 => 2,
            Type::U16 | Type::I16 => 4,
            Type::U32 | Type::I32 => 8,
            Type::U64 | Type::I64 => 16,
        };
        let ghost total = hex_digits(self.bits as nat, hex_width(self.ty));
        while !(n == 0 && count == 0)
            invariant
                total == hex_digits(n as nat, count as nat) + out@.reverse(),
                total == hex_digits(self.bits as nat, hex_width(self.ty)),
                count <= 16,
            decreases n, count,
        {
            let d = n % 16;
            let c = hex_digit_char(d);
            proof {
                lemma_hex_digits_step(n as nat, count as nat);
                assert(out@.push(c).reverse() =~= seq![c] + out@.reverse());
            }
            out.push(c);
            n = n / 16;
            if count > 0 {
                count = count - 1;
            }
        }
        let mut res: Vec<char> = vec!['0', 'x'];
        let len = out.len();
        let mut i: usize = len;
        while i > 0
            invariant
                0 <= i <= len,
                len == out@.len(),
                res@ == seq!['0', 'x'] + out@.reverse().subrange(0, (len - i) as int),
            decreases i,
        {
            i -= 1;
            res.push(out[i]);
            assert(out@.reverse().subrange(0, (len - i) as int) =~= out@.reverse().subrange(
                0,
                (len - i - 1) as int,
            ).push(out@[i as int]));
        }
        assert(out@.reverse().subrange(0, len as int) =~= out@.reverse());
        assert(total =~= out@.reverse());
        string_of(&res)
    }

    /// Parses the fixed-width hexadecimal form of an integer type:
    /// `0x` followed by exactly `width / 4` hexadecimal digits.
    pub fn from_hex(ty: Type, s: &str) -> (r: Result<Value, String>)
        ensures
            r matches Ok(v) ==> spec_from_hex(ty, s@) == Some(v),
            r is Err ==> spec_from_hex(ty, s@) is None,
    {
        let cs = chars_of(s);
        Value::from_hex_chars(ty, &cs)
    }

    /// `from_hex` on a character slice.
    pub fn from_hex_chars(ty: Type, cs: &[char]) -> (r: Result<Value, String>)
        ensures
            r matches Ok(v) ==> spec_from_hex(ty, cs@) == Some(v),
            r is Err ==> spec_from_hex(ty, cs@) is None,
    {
        if !ty.integer() || cs.len() != 2 + (ty.width() / 4) as usize || cs[0] != '0' || cs[1]
            != 'x' {
            return err("expected fixed-width hexadecimal");
        }
        let ghost h = cs@.skip(2);
        let mut bits: u64 = 0;
        let mut i: usize = 2;
        while i < cs.len()
            invariant
                2 <= i <= cs@.len(),
                cs@.len() <= 18,
                h == cs@.skip(2),
                all_hex(h.subrange(0, i - 2)),
                bits as nat == hex_number(h.subrange(0, i - 2)),
                bits < pow16(i - 2),
            decreases cs@.len() - i,
        {
            let c = cs[i];
            let d: u64 = if '0' <= c && c <= '9' {
                (c as u64) - 48
            } else if 'a' <= c && c <= 'f' {
                (c as u64) - 97 + 10
            } else if 'A' <= c && c <= 'F' {
                (c as u64) - 65 + 10
            } else {
                proof {
                    assert(h[i - 2] == c);
                    assert(!all_hex(h));
                }
                return err("expected fixed-width hexadecimal");
            };
            proof {
                let sub = h.subrange(0, i - 2 + 1);
                assert(sub.drop_last() =~= h.subrange(0, i - 2));
                assert(sub.last() == c);
                lemma_pow16_step((i - 2) as nat, bits as int, d as int);
            }
            bits = bits * 16 + d;
            i += 1;
        }
        assert(h.subrange(0, h.len() as int) =~= h);
        Ok(Value { ty, bits })
    }

    /// Source text of the value: `true`/`false`, or the fixed-width
    /// hexadecimal form followed by the type name.
    pub fn literal(self) -> (r: String)
        ensures
            r@ == spec_literal(self),
    {
        if matches!(self.ty, Type::Bool) {
            if self.bits != 0 {
                string_of(&vec!['t', 'r', 'u', 'e'])
            } else {
                string_of(&vec!['f', 'a', 'l', 's', 'e'])
            }
        } else {
            let mut s = self.hex();
            crate::text::push_str_chars(&mut s, &self.ty.name_chars());
            s
        }
    }
}

/// `16^n`.
pub open spec fn pow16(n: int) -> int
    decreases n,
{
    if n <= 0 {
        1
    } else {
        16 * pow16(n - 1)
    }
}

proof fn lemma_pow16_step(n: nat, bits: int, d: int)
    requires
        0 <= bits < pow16(n as int),
        0 <= d < 16,
        n < 16,
    ensures
        bits * 16 + d < pow16(n + 1int),
        pow16(n + 1int) <= 0x1_0000_0000_0000_0000int,
{
    lemma_pow16_bound(n + 1);
    assert(bits * 16 + d < pow16(n + 1int)) by (nonlinear_arith)
        requires
            bits < pow16(n as int),
            d < 16,
            pow16(n + 1int) == 16 * pow16(n as int),
            bits >= 0,
    ;
}

proof fn lemma_pow16_mono(a: int, b: int)
    requires
        0 <= a <= b,
    ensures
        1 <= pow16(a) <= pow16(b),
    decreases b,
{
    if b > a {
        lemma_pow16_mono(a, b - 1);
    } else if a > 0 {
        lemma_pow16_mono(a - 1, a - 1);
    }
}

proof fn lemma_pow16_bound(n: nat)
    requires
        n <= 16,
    ensures
        1 <= pow16(n as int) <= 0x1_0000_0000_0000_0000int,
        n < 16 ==> pow16(n as int) * 16 <= 0x1_0000_0000_0000_0000int,
{
    assert(pow16(16) == 0x1_0000_0000_0000_0000int) by {
        reveal_with_fuel(pow16, 17);
    }
    lemma_pow16_mono(n as int, 16);
    if n < 16 {
        lemma_pow16_mono(n + 1int, 16);
    }
}

proof fn lemma_hex_prefix_mono(h: Seq<char>, i: int)
    requires
        0 <= i <= h.len(),
        all_hex(h),
    ensures
        hex_number(h.subrange(0, i)) <= hex_number(h),
    decreases h.len() - i,
{
    if i < h.len() {
        lemma_hex_prefix_mono(h, i + 1);
        let p = h.subrange(0, i + 1);
        assert(p.drop_last() =~= h.subrange(0, i));
        assert(is_hex_char(h[i]));
        assert(p.last() == h[i]);
    } else {
        assert(h.subrange(0, i) =~= h);
    }
}

pub proof fn lemma_dec_prefix_mono(h: Seq<char>, i: int)
    requires
        0 <= i <= h.len(),
        all_dec(h),
    ensures
        dec_number(h.subrange(0, i)) <= dec_number(h),
    decreases h.len() - i,
{
    if i < h.len() {
        lemma_dec_prefix_mono(h, i + 1);
        let p = h.subrange(0, i + 1);
        assert(p.drop_last() =~= h.subrange(0, i));
        assert(is_dec_char(h[i]));
        assert(p.last() == h[i]);
    } else {
        assert(h.subrange(0, i) =~= h);
    }
}

/// Whether `s` ends with the characters `suffix`.
fn ends_with_exec(s: &[char], suffix: &[char]) -> (r: bool)
    ensures
        r == ends_with(s@, suffix@),
{
    if suffix.len() > s.len() {
        return false;
    }
    let off = s.len() - suffix.len();
    let mut j: usize = off;
    while j < s.len()
        invariant
            off <= j <= s@.len(),
            off + suffix@.len() == s@.len(),
            forall|k: int| off <= k < j ==> s@[k] == suffix@[k - off],
        decreases s@.len() - j,
    {
        if s[j] != suffix[j - off] {
            assert(s@.skip(off as int)[j - off] != suffix@[j - off]);
            return false;
        }
        j += 1;
    }
    assert(s@.skip(off as int) =~= suffix@);
    true
}

proof fn lemma_literal_suffix(s: Seq<char>, from: nat)
    ensures
        literal_suffix_from(s, from) matches Some(t) ==> ends_with(s, t.spec_name())
            && t.spec_integer() && t.spec_mask() >= 0xff,
    decreases 8 - from,
{
    if from < 8 {
        lemma_literal_suffix(s, from + 1);
    }
}

/// The type suffix of a literal.
fn literal_suffix(s: &[char]) -> (r: Option<Type>)
    ensures
        r == literal_suffix_from(s@, 0),
        r matches Some(t) ==> ends_with(s@, t.spec_name()) && t.spec_integer() && t.spec_mask()
            >= 0xff,
{
    proof {
        lemma_literal_suffix(s@, 0);
    }
    let order = [Type::U16, Type::U32, Type::U64, Type::I16, Type::I32, Type::I64, Type::U8, Type::I8];
    let mut i: usize = 0;
    while i < 8
        invariant
            0 <= i <= 8,
            order@ == suffix_order(),
            literal_suffix_from(s@, 0) == literal_suffix_from(s@, i as nat),
        decreases 8 - i,
    {
        let t = order[i];
        if ends_with_exec(s, &t.name_chars()) {
            return Some(t);
        }
        i += 1;
    }
    None
}

impl Value {
    /// Parses a typed literal: `true`, `false`, `0x<hex><type>` or an
    /// optionally negative decimal followed by an integer type name.
    pub fn parse(s: &str) -> (r: Result<Value, String>)
        ensures
            r matches Ok(v) ==> spec_parse_literal(s@) == Some(v),
            r is Err ==> spec_parse_literal(s@) is None,
    {
        let cs = chars_of(s);
        Value::parse_chars(&cs)
    }

    /// `parse` on a character slice.
    #[verifier::loop_isolation(false)]
    #[verifier::spinoff_prover]
    #[verifier::rlimit(50)]
    pub fn parse_chars(cs: &[char]) -> (r: Result<Value, String>)
        ensures
            r matches Ok(v) ==> spec_parse_literal(cs@) == Some(v),
            r is Err ==> spec_parse_literal(cs@) is None,
    {
        let t_chars = vec!['t', 'r', 'u', 'e'];
        let f_chars = vec!['f', 'a', 'l', 's', 'e'];
        if crate::text::chars_eq(cs, &t_chars) {
            return Ok(Value { ty: Type::Bool, bits: 1 });
        }
        if crate::text::chars_eq(cs, &f_chars) {
            return Ok(Value { ty: Type::Bool, bits: 0 });
        }
        let ty = match literal_suffix(cs) {
            None => return err("literal requires integer type suffix"),
            Some(t) => t,
        };
        let name_len = ty.name_chars().len();
        let dlen = cs.len() - name_len;
        let ghost digits = cs@.subrange(0, dlen as int);
        assert(cs@ != true_chars());
        assert(cs@ != false_chars());
        assert(literal_suffix_from(cs@, 0) == Some(ty));
        assert(digits == cs@.subrange(0, cs@.len() - ty.spec_name().len()));
        if dlen >= 2 && cs[0] == '0' && cs[1] == 'x' {
            let ghost h = digits.skip(2);
            if dlen == 2 {
                return err("invalid literal");
            }
            let mask = ty.mask();
            let mut acc: u64 = 0;
            let mut i: usize = 2;
            while i < dlen
                invariant
                    2 <= i <= dlen,
                    dlen <= cs@.len(),
                    digits == cs@.subrange(0, dlen as int),
                    h == digits.skip(2),
                    mask == ty.spec_mask(),
                    mask >= 0xff,
                    all_hex(h.subrange(0, i - 2)),
                    acc as nat == hex_number(h.subrange(0, i - 2)),
                    acc <= mask,
                decreases dlen - i,
            {
                let c = cs[i];
                let d: u64 = if '0' <= c && c <= '9' {
                    (c as u64) - 48
                } else if 'a' <= c && c <= 'f' {
                    (c as u64) - 97 + 10
                } else if 'A' <= c && c <= 'F' {
                    (c as u64) - 65 + 10
                } else {
                    proof {
                        assert(h[i - 2] == c);
                        assert(!is_hex_char(c));
                        assert(!all_hex(h));
                        assert(digits.len() >= 2 && digits[0] == '0' && digits[1] == 'x');
                    }
                    return err("invalid literal");
                };
                proof {
                    let sub = h.subrange(0, i - 2 + 1);
                    assert(sub.drop_last() =~= h.subrange(0, i - 2));
                    assert(sub.last() == c);
                    assert(h[i - 2] == c);
                }
                if acc > (mask - d) / 16 {
                    proof {
                        assert(hex_number(h.subrange(0, i - 2 + 1)) > mask) by (nonlinear_arith)
                            requires
                                hex_number(h.subrange(0, i - 2 + 1)) == acc * 16 + d,
                                acc > (mask - d) / 16,
                                d <= mask,
                        ;
                        if all_hex(h) {
                            lemma_hex_prefix_mono(h, i - 2 + 1);
                        }
                    }
                    return err("out-of-range literal");
                }
                proof {
                    assert(acc * 16 + d <= mask) by (nonlinear_arith)
                        requires
                            acc <= (mask - d) / 16,
                            d <= mask,
                    ;
                }
                acc = acc * 16 + d;
                i += 1;
            }
            assert(h.subrange(0, h.len() as int) =~= h);
            return Ok(Value { ty, bits: acc });
        }
        let neg = dlen > 0 && cs[0] == '-';
        let start: usize = if neg { 1 } else { 0 };
        let ghost d = if neg { digits.skip(1) } else { digits };
        if start == dlen {
            return err("invalid literal");
        }
        if neg && !ty.signed() {
            return err("invalid literal");
        }
        let limit: u64 = if neg {
            ty.sign_bit()
        } else if ty.signed() {
            ty.sign_bit() - 1
        } else {
            ty.mask()
        };
        let mut acc: u64 = 0;
        let mut i: usize = start;
        while i < dlen
            invariant
                start <= i <= dlen,
                dlen <= cs@.len(),
                start == (if neg { 1int } else { 0int }),
                digits == cs@.subrange(0, dlen as int),
                d == (if neg { digits.skip(1) } else { digits }),
                all_dec(d.subrange(0, i - start)),
                acc as nat == dec_number(d.subrange(0, i - start)),
                acc <= limit,
            decreases dlen - i,
        {
            let c = cs[i];
            if !('0' <= c && c <= '9') {
                proof {
                    assert(d[i - start] == c);
                }
                return err("invalid literal");
            }
            let dv = (c as u64) - 48;
            proof {
                let sub = d.subrange(0, i - start + 1);
                assert(sub.drop_last() =~= d.subrange(0, i - start));
                assert(sub.last() == c);
                assert(d[i - start] == c);
            }
            if dv > limit || acc > (limit - dv) / 10 {
                proof {
                    assert(dec_number(d.subrange(0, i - start + 1)) > limit) by (nonlinear_arith)
                        requires
                            dec_number(d.subrange(0, i - start + 1)) == acc * 10 + dv,
                            dv > limit || acc > (limit - dv) / 10,
                    ;
                    if all_dec(d) {
                        lemma_dec_prefix_mono(d, i - start + 1);
                    }
                }
                return err("out-of-range literal");
            }
            proof {
                assert(acc * 10 + dv <= limit) by (nonlinear_arith)
                    requires
                        acc <= (limit - dv) / 10,
                        dv <= limit,
                ;
            }
            acc = acc * 10 + dv;
            i += 1;
        }
        assert(d.subrange(0, d.len() as int) =~= d);
        proof {
            crate::types::lemma_masked_le(acc, ty);
        }
        if neg {
            let bits = if acc == 0 { 0 } else { ty.mask() - acc + 1 };
            proof {
                let m = ty.modulus();
                if acc == 0 {
                    vstd::arithmetic::div_mod::lemma_fundamental_div_mod_converse(0, m, 0, 0);
                } else {
                    vstd::arithmetic::div_mod::lemma_fundamental_div_mod_converse(
                        -(acc as int),
                        m,
                        -1,
                        m - acc,
                    );
                }
            }
            Ok(Value { ty, bits })
        } else {
            proof {
                vstd::arithmetic::div_mod::lemma_small_mod(acc as nat, ty.modulus() as nat);
            }
            Ok(Value { ty, bits: acc })
        }
    }
}


/// The source text of a value, as `Value::literal` writes it.
pub open spec fn spec_literal(v: Value) -> Seq<char> {
    if v.ty is Bool {
        if v.bits != 0 {
            true_chars()
        } else {
            false_chars()
        }
    } else {
        spec_hex(v) + v.ty.spec_name()
    }
}

/// The digits of `hex_digits` are hexadecimal and read back as the number.
proof fn lemma_hex_digits_read(n: nat, count: nat)
    ensures
        all_hex(hex_digits(n, count)),
        hex_number(hex_digits(n, count)) == n,
    decreases n, count,
{
    if !(n == 0 && count == 0) {
        let c2: nat = if count > 0 {
            (count - 1) as nat
        } else {
            0
        };
        lemma_hex_digits_read(n / 16, c2);
        let d = hex_digits(n, count);
        let p = hex_digits(n / 16, c2);
        let last = hex_char((n % 16) as int);
        assert(d == p.push(last));
        assert(d.drop_last() =~= p);
        assert(hex_value_of(last) == n % 16);
        assert forall|i: int| 0 <= i < d.len() implies is_hex_char(#[trigger] d[i]) by {
            if i < p.len() {
                assert(d[i] == p[i]);
            } else {
                lemma_hex_char_is_hex((n % 16) as int);
            }
        }
    }
}

/// Below `16^count`, `hex_digits` writes exactly `count` digits.
proof fn lemma_hex_digits_len(n: nat, count: nat)
    requires
        n < pow16(count as int),
    ensures
        hex_digits(n, count).len() == count,
    decreases n, count,
{
    if !(n == 0 && count == 0) {
        assert(count > 0);
        let c2 = (count - 1) as nat;
        assert(pow16(count as int) == 16 * pow16(c2 as int));
        lemma_pow16_mono(0, c2 as int);
        assert(n / 16 < pow16(c2 as int)) by (nonlinear_arith)
            requires
                n < 16 * pow16(c2 as int),
                pow16(c2 as int) >= 1,
        ;
        lemma_hex_digits_len(n / 16, c2);
    }
}

/// The fixed-width hexadecimal form of a value has the width of its type.
proof fn lemma_hex_fits(v: Value)
    requires
        v.wf(),
    ensures
        hex_digits(v.bits as nat, hex_width(v.ty)).len() == hex_width(v.ty),
        v.ty.spec_integer() ==> hex_width(v.ty) == v.ty.spec_width() / 4,
        hex_width(v.ty) >= 1,
{
    assert(pow16(1) == 16 && pow16(2) == 256 && pow16(4) == 0x1_0000 && pow16(8) == 0x1_0000_0000
        && pow16(16) == 0x1_0000_0000_0000_0000int) by {
        reveal_with_fuel(pow16, 17);
    }
    lemma_hex_digits_len(v.bits as nat, hex_width(v.ty));
}

/// A value of an integer type, written in its fixed-width hexadecimal
/// form, reads back as the same value.
pub proof fn law_hex_round_trip(v: Value)
    requires
        v.wf(),
        v.ty.spec_integer(),
    ensures
        spec_from_hex(v.ty, spec_hex(v)) == Some(v),
{
    let h = hex_digits(v.bits as nat, hex_width(v.ty));
    lemma_hex_digits_read(v.bits as nat, hex_width(v.ty));
    lemma_hex_fits(v);
    let s = spec_hex(v);
    assert(s.skip(2) =~= h);
}

/// Where a type's name stands in `suffix_order()`.
pub open spec fn suffix_rank(t: Type) -> nat {
    match t {
        Type::U16 => 0,
        Type::U32 => 1,
        Type::U64 => 2,
        Type::I16 => 3,
        Type::I32 => 4,
        Type::I64 => 5,
        Type::U8 => 6,
        Type::I8 => 7,
        Type::Bool => 8,
    }
}

/// A text that ends with a suffix agrees with it at its last character
/// and at the suffix's first character.
proof fn lemma_ends_with_chars(s: Seq<char>, t: Seq<char>)
    requires
        ends_with(s, t),
        t.len() > 0,
    ensures
        s[s.len() - 1] == t[t.len() - 1],
        s[s.len() - t.len()] == t[0],
{
    assert(s.skip(s.len() - t.len())[t.len() - 1] == t[t.len() - 1]);
    assert(s.skip(s.len() - t.len())[0] == t[0]);
}

/// A text made of anything followed by an integer type's name has that
/// type as its literal suffix.
proof fn lemma_suffix_of_name(hp: Seq<char>, t: Type, from: nat)
    requires
        t.spec_integer(),
        from <= suffix_rank(t),
    ensures
        literal_suffix_from(hp + t.spec_name(), from) == Some(t),
    decreases 8 - from,
{
    let s = hp + t.spec_name();
    let n = t.spec_name();
    let u = suffix_order()[from as int];
    assert(s[s.len() - 1] == n[n.len() - 1]);
    if from == suffix_rank(t) {
        assert(u == t);
        assert(s.skip(s.len() - n.len()) =~= n);
    } else {
        if ends_with(s, u.spec_name()) {
            lemma_ends_with_chars(s, u.spec_name());
            let m = u.spec_name();
            assert(s[s.len() - m.len()] == n[0]);
            assert(false);
        }
        lemma_suffix_of_name(hp, t, from + 1);
    }
}

/// A value's literal parses back as the same value.
pub proof fn law_literal_round_trip(v: Value)
    requires
        v.wf(),
    ensures
        spec_parse_literal(spec_literal(v)) == Some(v),
{
    if !(v.ty is Bool) {
        let hp = spec_hex(v);
        let n = v.ty.spec_name();
        let s = hp + n;
        let h = hex_digits(v.bits as nat, hex_width(v.ty));
        lemma_hex_digits_read(v.bits as nat, hex_width(v.ty));
        lemma_hex_fits(v);
        lemma_suffix_of_name(hp, v.ty, 0);
        assert(s.len() > 5);
        assert(s != true_chars());
        assert(s != false_chars());
        let digits = s.subrange(0, s.len() - n.len());
        assert(digits =~= hp);
        assert(digits.skip(2) =~= h);
    }
}


/// `k` hexadecimal digits write a number below `16^k`.
proof fn lemma_hex_number_bound(h: Seq<char>)
    requires
        all_hex(h),
    ensures
        hex_number(h) < pow16(h.len() as int),
    decreases h.len(),
{
    if h.len() > 0 {
        let p = h.drop_last();
        assert(all_hex(p)) by {
            assert forall|i: int| 0 <= i < p.len() implies is_hex_char(#[trigger] p[i]) by {
                assert(p[i] == h[i]);
            }
        }
        lemma_hex_number_bound(p);
        assert(is_hex_char(h[h.len() - 1]));
        let d = hex_value_of(h.last());
        assert(0 <= d < 16);
        assert(pow16(h.len() as int) == 16 * pow16(p.len() as int));
        assert(hex_number(p) * 16 + d < 16 * pow16(p.len() as int)) by (nonlinear_arith)
            requires
                hex_number(p) < pow16(p.len() as int),
                0 <= d < 16,
        ;
    }
}

/// A value read from its hexadecimal form has the requested type and
/// fits its width.
pub proof fn lemma_from_hex_wf(ty: Type, s: Seq<char>)
    ensures
        spec_from_hex(ty, s) matches Some(v) ==> v.ty == ty && v.wf() && ty.spec_integer(),
{
    if spec_from_hex(ty, s) is Some {
        let h = s.skip(2);
        lemma_hex_number_bound(h);
        assert(pow16(2) == 256 && pow16(4) == 0x1_0000 && pow16(8) == 0x1_0000_0000 && pow16(16)
            == 0x1_0000_0000_0000_0000int) by {
            reveal_with_fuel(pow16, 17);
        }
    }
}

} // verus!
