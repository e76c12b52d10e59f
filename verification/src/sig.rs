//! Function signatures.
use vstd::prelude::*;

use crate::text::err;
use crate::types::Type;

verus! {

/// Argument and return types of a function.
#[derive(Clone, Debug, PartialEq, Eq)]
pub struct Signature {
    pub arguments: Vec<Type>,
    pub return_type: Type,
}

/// A signature accepted by every backend: at most four arguments, and
/// integer arguments and return.
pub open spec fn sig_valid(arguments: Seq<Type>, return_type: Type) -> bool {
    &&& arguments.len() <= 4
    &&& return_type.spec_integer()
    &&& forall|i: int| 0 <= i < arguments.len() ==> (#[trigger] arguments[i]).spec_integer()
}

impl Signature {
    /// The signature as plain values.
    pub open spec fn view_pair(&self) -> (Seq<Type>, Type) {
        (self.arguments@, self.return_type)
    }

    /// Checks that the signature is supported.
    pub fn validate(&self) -> (r: Result<(), String>)
        ensures
            r is Ok <==> sig_valid(self.arguments@, self.return_type),
    {
        if self.arguments.len() > 4 {
            return err("signatures support at most four arguments");
        }
        if !self.return_type.integer() {
            return err("signature arguments and return must be integers");
        }
        let mut i: usize = 0;
        while i < self.arguments.len()
            invariant
                0 <= i <= self.arguments@.len(),
                forall|j: int| 0 <= j < i ==> (#[trigger] self.arguments@[j]).spec_integer(),
            decreases self.arguments@.len() - i,
        {
            if !self.arguments[i].integer() {
                return err("signature arguments and return must be integers");
            }
            i += 1;
        }
        Ok(())
    }

    /// Equality of argument lists and return types.
    pub fn same(&self, other: &Signature) -> (r: bool)
        ensures
            r == (self.view_pair() == other.view_pair()),
    {
        types_eq(&self.arguments, &other.arguments) && self.return_type == other.return_type
    }

    /// A copy of the signature.
    pub fn copy(&self) -> (r: Signature)
        ensures
            r.view_pair() == self.view_pair(),
    {
        Signature { arguments: copy_types(&self.arguments), return_type: self.return_type }
    }
}

/// Element-wise equality of type lists.
pub fn types_eq(a: &[Type], b: &[Type]) -> (r: bool)
    ensures
        r == (a@ == b@),
{
    if a.len() != b.len() {
        return false;
    }
    let mut i: usize = 0;
    while i < a.len()
        invariant
            0 <= i <= a@.len(),
            a@.len() == b@.len(),
            forall|j: int| 0 <= j < i ==> a@[j] == b@[j],
        decreases a@.len() - i,
    {
        if a[i] != b[i] {
            return false;
        }
        i += 1;
    }
    assert(a@ =~= b@);
    true
}

/// A copy of a type list.
pub fn copy_types(a: &[Type]) -> (r: Vec<Type>)
    ensures
        r@ == a@,
{
    let mut out: Vec<Type> = Vec::new();
    let mut i: usize = 0;
    while i < a.len()
        invariant
            0 <= i <= a@.len(),
            out@ == a@.subrange(0, i as int),
        decreases a@.len() - i,
    {
        out.push(a[i]);
        i += 1;
        assert(a@.subrange(0, i as int) == a@.subrange(0, i - 1 as int).push(a@[i - 1]));
    }
    assert(a@.subrange(0, a@.len() as int) == a@);
    out
}

} // verus!
