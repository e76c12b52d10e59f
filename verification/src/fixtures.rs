//! Independent development oracles: small reference functions that the
//! search never sees, used to build corpora.
use vstd::prelude::*;

use crate::sig::Signature;
use crate::text::{chars_eq, chars_of, err};
use crate::types::{Type, Value};

verus! {

/// The fixture names, in order.
pub open spec fn fixture_names() -> Seq<Seq<char>> {
    seq![
        "min_u8"@, "bounded_sum_u8"@, "identity_u64"@, "increment_u64"@, "xor_u64"@, "add_u64"@,
        "composed_u64"@, "affine_u64"@,
    ]
}

/// The argument types of a fixture.
pub open spec fn fixture_args(name: Seq<char>) -> Option<Seq<Type>> {
    if name == "min_u8"@ || name == "bounded_sum_u8"@ {
        Some(seq![Type::U8, Type::U8])
    } else if name == "identity_u64"@ || name == "increment_u64"@ || name == "xor_u64"@ || name
        == "composed_u64"@ || name == "affine_u64"@ {
        Some(seq![Type::U64])
    } else if name == "add_u64"@ {
        Some(seq![Type::U64, Type::U64])
    } else {
        None
    }
}

/// The return type of a fixture.
pub open spec fn fixture_ret(name: Seq<char>) -> Type {
    if name == "min_u8"@ || name == "bounded_sum_u8"@ {
        Type::U8
    } else {
        Type::U64
    }
}

/// What fixture `name` computes on the first two argument patterns.
pub open spec fn fixture_value(name: Seq<char>, x: u64, y: u64) -> u64 {
    if name == "min_u8"@ {
        if x <= y { x } else { y }
    } else if name == "bounded_sum_u8"@ {
        (if x <= 8 { x } else { 8u64 }).wrapping_mul(y)
    } else if name == "identity_u64"@ {
        x
    } else if name == "increment_u64"@ {
        x.wrapping_add(1)
    } else if name == "xor_u64"@ {
        x ^ 0x12345678u64
    } else if name == "add_u64"@ {
        x.wrapping_add(y)
    } else if name == "composed_u64"@ {
        x.wrapping_mul(3).wrapping_add(1)
    } else {
        (x ^ 0x12345678u64).wrapping_mul(7).wrapping_add(3)
    }
}

fn is(name: &[char], want: &str) -> (r: bool)
    ensures
        r == (name@ == want@),
{
    let w = chars_of(want);
    chars_eq(name, &w)
}

/// The signature of a fixture.
pub fn fixture_signature(name: &str) -> (r: Result<Signature, String>)
    ensures
        r matches Ok(s) ==> fixture_args(name@) == Some(s.arguments@) && s.return_type == fixture_ret(
            name@,
        ),
        r is Err <==> fixture_args(name@) is None,
{
    let n = chars_of(name);
    if is(&n, "min_u8") || is(&n, "bounded_sum_u8") {
        return Ok(Signature { arguments: vec![Type::U8, Type::U8], return_type: Type::U8 });
    }
    if is(&n, "identity_u64") || is(&n, "increment_u64") || is(&n, "xor_u64") || is(
        &n,
        "composed_u64",
    ) || is(&n, "affine_u64") {
        let r = Signature { arguments: vec![Type::U64], return_type: Type::U64 };
        assert(r.arguments@ =~= seq![Type::U64]);
        return Ok(r);
    }
    if is(&n, "add_u64") {
        return Ok(Signature { arguments: vec![Type::U64, Type::U64], return_type: Type::U64 });
    }
    err("unknown fixture")
}

/// Runs a fixture on arguments of its signature.
pub fn fixture_observe(name: &str, args: &[Value]) -> (r: Result<Value, String>)
    ensures
        r is Ok <==> (fixture_args(name@) matches Some(ts) && ts.len() == args@.len() && forall|i: int|
            0 <= i < ts.len() ==> (#[trigger] args@[i]).ty == ts[i]),
        r matches Ok(v) ==> v == (Value {
            ty: fixture_ret(name@),
            bits: fixture_value(name@, args@[0].bits, if args@.len() > 1 { args@[1].bits } else { 0 })
                & fixture_ret(name@).spec_mask(),
        }),
{
    let s = fixture_signature(name)?;
    if args.len() != s.arguments.len() {
        return err("fixture argument mismatch");
    }
    let mut i: usize = 0;
    while i < args.len()
        invariant
            0 <= i <= args@.len(),
            args@.len() == s.arguments@.len(),
            fixture_args(name@) == Some(s.arguments@),
            forall|j: int| 0 <= j < i ==> (#[trigger] args@[j]).ty == s.arguments@[j],
        decreases args@.len() - i,
    {
        if args[i].ty != s.arguments[i] {
            return err("fixture argument mismatch");
        }
        i += 1;
    }
    let n = chars_of(name);
    let x = args[0].bits;
    let y = if args.len() > 1 {
        args[1].bits
    } else {
        0
    };
    let out = if is(&n, "min_u8") {
        if x <= y {
            x
        } else {
            y
        }
    } else if is(&n, "bounded_sum_u8") {
        (if x <= 8 {
            x
        } else {
            8u64
        }).wrapping_mul(y)
    } else if is(&n, "identity_u64") {
        x
    } else if is(&n, "increment_u64") {
        x.wrapping_add(1)
    } else if is(&n, "xor_u64") {
        x ^ 0x12345678u64
    } else if is(&n, "add_u64") {
        x.wrapping_add(y)
    } else if is(&n, "composed_u64") {
        x.wrapping_mul(3).wrapping_add(1)
    } else {
        (x ^ 0x12345678u64).wrapping_mul(7).wrapping_add(3)
    };
    Ok(Value::new(s.return_type, out))
}

/// A fingerprint of the fixture oracles: the SHA-256 of their
/// definitions as this library states them.
pub fn fixture_fingerprint() -> (r: String)
    ensures
        r@.len() == 64,
        r@ == crate::digest::sha256_hex(vstd::utf8::encode_utf8(fixture_text())),
{
    let text = "min_u8(x,y)=min(x,y);bounded_sum_u8(x,y)=min(x,8)*y;identity_u64(x)=x;increment_u64(x)=x+1;xor_u64(x)=x^0x12345678;add_u64(x,y)=x+y;composed_u64(x)=x*3+1;affine_u64(x)=(x^0x12345678)*7+3";
    assert(text@ == fixture_text());
    crate::digest::hash(text.as_bytes())
}

/// The description of every fixture oracle, which the fingerprint hashes.
pub open spec fn fixture_text() -> Seq<char> {
    "min_u8(x,y)=min(x,y);bounded_sum_u8(x,y)=min(x,8)*y;identity_u64(x)=x;increment_u64(x)=x+1;xor_u64(x)=x^0x12345678;add_u64(x,y)=x+y;composed_u64(x)=x*3+1;affine_u64(x)=(x^0x12345678)*7+3"@
}

} // verus!
