//! Command-line flags: `<command> --flag value --flag value ...`, each flag
//! from an allowed list and given at most once.
use vstd::prelude::*;

use crate::text::{chars_eq, chars_of, string_of};

verus! {

/// The exit code of an input error.
pub const INPUT_ERROR: i32 = 2;

pub open spec fn strings_of(v: Seq<String>) -> Seq<Seq<char>> {
    v.map_values(|s: String| s@)
}

pub open spec fn pairs_of(v: Seq<(String, String)>) -> Seq<(Seq<char>, Seq<char>)> {
    v.map_values(|p: (String, String)| (p.0@, p.1@))
}

/// The flag names of the pairs.
pub open spec fn names_of(ps: Seq<(Seq<char>, Seq<char>)>) -> Seq<Seq<char>> {
    ps.map_values(|p: (Seq<char>, Seq<char>)| p.0)
}

/// The flag-value pairs after the command: `args[1..]` read two by two.
pub open spec fn pairs(args: Seq<Seq<char>>) -> Seq<(Seq<char>, Seq<char>)> {
    Seq::new(((args.len() - 1) / 2) as nat, |k: int| (args[1 + 2 * k], args[2 + 2 * k]))
}

/// The pairs are allowed and name each flag once.
pub open spec fn flags_ok(ps: Seq<(Seq<char>, Seq<char>)>, allowed: Seq<Seq<char>>) -> bool {
    &&& forall|k: int| 0 <= k < ps.len() ==> allowed.contains(#[trigger] ps[k].0)
    &&& forall|k: int, j: int| 0 <= k < j < ps.len() ==> #[trigger] ps[k].0 != #[trigger] ps[j].0
}

/// The flags of a command line, in order, or the input error that
/// rejects them: an odd number of words after the command, or a flag that
/// is not allowed or comes twice.
pub fn flags(args: &Vec<String>, allowed: &Vec<&str>) -> (r: Result<Vec<(String, String)>, (i32, String)>)
    ensures
        args@.len() % 2 != 1 ==> (r matches Err((c, m)) && c == INPUT_ERROR && m@ == "flags require values"@),
        args@.len() % 2 == 1 && flags_ok(pairs(strings_of(args@)), allowed@.map_values(|a: &str| a@)) ==> (r
            matches Ok(v) && pairs_of(v@) == pairs(strings_of(args@))),
        args@.len() % 2 == 1 && !flags_ok(pairs(strings_of(args@)), allowed@.map_values(|a: &str| a@)) ==> (r
            matches Err((c, m)) && c == INPUT_ERROR && m@ == "unknown or duplicate flag"@),
{
    let ghost av = strings_of(args@);
    let ghost allow = allowed@.map_values(|a: &str| a@);
    if args.len() % 2 != 1 {
        return Err((INPUT_ERROR, "flags require values".to_owned()));
    }
    let ghost ps = pairs(av);
    let n = (args.len() - 1) / 2;
    let mut out: Vec<(String, String)> = Vec::new();
    let mut k: usize = 0;
    while k < n
        invariant
            0 <= k <= n,
            n == ps.len(),
            args@.len() == 2 * n + 1,
            args.len() == args@.len(),
            av == strings_of(args@),
            allow == allowed@.map_values(|a: &str| a@),
            ps == pairs(av),
            pairs_of(out@) == ps.take(k as int),
            flags_ok(ps.take(k as int), allow),
        decreases n - k,
    {
        let name = chars_of(args[1 + 2 * k].as_str());
        assert(ps[k as int] == (av[1 + 2 * k], av[2 + 2 * k]));
        assert(av[1 + 2 * k] == args@[1 + 2 * k]@);
        assert(av[2 + 2 * k] == args@[2 + 2 * k]@);
        let mut known = false;
        let mut a: usize = 0;
        while a < allowed.len()
            invariant
                0 <= a <= allowed@.len(),
                allow == allowed@.map_values(|a: &str| a@),
                known <==> exists|i: int| 0 <= i < a && allow[i] == name@,
            decreases allowed@.len() - a,
        {
            assert(allow[a as int] == allowed@[a as int]@);
            if chars_eq(&chars_of(allowed[a]), &name) {
                known = true;
            }
            a += 1;
        }
        let mut seen = false;
        let mut j: usize = 0;
        while j < out.len()
            invariant
                0 <= j <= out@.len(),
                seen <==> exists|i: int| 0 <= i < j && pairs_of(out@)[i].0 == name@,
            decreases out@.len() - j,
        {
            assert(pairs_of(out@)[j as int].0 == out@[j as int].0@);
            if chars_eq(&chars_of(out[j].0.as_str()), &name) {
                seen = true;
            }
            j += 1;
        }
        if !known || seen {
            proof {
                if !known {
                    assert(!allow.contains(ps[k as int].0));
                } else {
                    let i = choose|i: int| 0 <= i < j && pairs_of(out@)[i].0 == name@;
                    assert(ps[i].0 == ps[k as int].0);
                }
            }
            return Err((INPUT_ERROR, "unknown or duplicate flag".to_owned()));
        }
        let ghost prev = out@;
        out.push((string_of(&name), string_of(&chars_of(args[2 + 2 * k].as_str()))));
        proof {
            assert(pairs_of(out@) =~= pairs_of(prev).push(ps[k as int]));
            assert(ps.take(k + 1 as int) =~= ps.take(k as int).push(ps[k as int]));
            assert(allow.contains(ps[k as int].0)) by {
                let i = choose|i: int| 0 <= i < allowed@.len() && allow[i] == name@;
                assert(allow[i] == ps[k as int].0);
            }
        }
        k += 1;
    }
    assert(ps.take(k as int) =~= ps);
    Ok(out)
}

/// The value of a flag that must be given.
pub fn required(flags: &Vec<(String, String)>, name: &str) -> (r: Result<String, (i32, String)>)
    ensures
        (exists|k: int| 0 <= k < flags@.len() && flags@[k].0@ == name@) ==> (r matches Ok(v) && exists|k: int|
            0 <= k < flags@.len() && flags@[k].0@ == name@ && v@ == flags@[k].1@),
        !(exists|k: int| 0 <= k < flags@.len() && flags@[k].0@ == name@) ==> (r matches Err((c, m)) && c
            == INPUT_ERROR && m@ == "missing "@ + name@),
{
    let wanted = chars_of(name);
    let mut k: usize = 0;
    while k < flags.len()
        invariant
            0 <= k <= flags@.len(),
            wanted@ == name@,
            forall|i: int| 0 <= i < k ==> flags@[i].0@ != name@,
        decreases flags@.len() - k,
    {
        if chars_eq(&chars_of(flags[k].0.as_str()), &wanted) {
            return Ok(string_of(&chars_of(flags[k].1.as_str())));
        }
        k += 1;
    }
    let mut m = chars_of("missing ");
    crate::text::extend_chars(&mut m, &wanted);
    Err((INPUT_ERROR, string_of(&m)))
}

} // verus!
