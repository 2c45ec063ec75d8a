//! Query terms: a field identifier paired with a byte-string value.

use vstd::prelude::*;

verus! {

/// A term of the vocabulary: an opaque (field identifier, byte string)
/// pair.  Equality and ordering are byte-wise within a field.
pub struct Term {
    pub field: u32,
    pub text: Vec<u8>,
}

/// Two terms denote the same vocabulary entry: same field, same bytes.
pub open spec fn same_term(a: Term, b: Term) -> bool {
    a.field == b.field && a.text@ == b.text@
}

/// Byte-wise equality of two byte strings.
pub fn bytes_eq(a: &Vec<u8>, b: &Vec<u8>) -> (r: bool)
    ensures
        r == (a@ == b@),
{
    if a.len() != b.len() {
        return false;
    }
    let mut i: usize = 0;
    while i < a.len()
        invariant
            i <= a@.len(),
            a@.len() == b@.len(),
            forall|j: int| 0 <= j < i ==> a@[j] == b@[j],
        decreases a@.len() - i,
    {
        if a[i] != b[i] {
            return false;
        }
        i += 1;
    }
    proof {
        assert(a@ =~= b@);
    }
    true
}

/// Byte-wise term equality.
pub fn term_eq(a: &Term, b: &Term) -> (r: bool)
    ensures
        r == same_term(*a, *b),
{
    a.field == b.field && bytes_eq(&a.text, &b.text)
}

/// An owned copy of a byte string.
pub fn clone_bytes(v: &Vec<u8>) -> (r: Vec<u8>)
    ensures
        r@ == v@,
{
    let mut r: Vec<u8> = Vec::new();
    let mut i: usize = 0;
    while i < v.len()
        invariant
            i <= v@.len(),
            r@ == v@.take(i as int),
        decreases v@.len() - i,
    {
        r.push(v[i]);
        proof {
            assert(r@ =~= v@.take(i + 1));
        }
        i += 1;
    }
    proof {
        assert(v@.take(v@.len() as int) =~= v@);
    }
    r
}

/// An owned copy of a term.
pub fn clone_term(t: &Term) -> (r: Term)
    ensures
        same_term(r, *t),
        r.field == t.field,
{
    Term { field: t.field, text: clone_bytes(&t.text) }
}

} // verus!
