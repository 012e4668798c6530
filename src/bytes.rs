//! Small verified helpers on byte strings.
use vstd::prelude::*;

verus! {

/// A copy of a byte vector.
pub fn clone_bytes(v: &Vec<u8>) -> (r: Vec<u8>)
    ensures
        r@ == v@,
{
    let mut out: Vec<u8> = Vec::new();
    let mut j: usize = 0;
    while j < v.len()
        invariant
            j <= v@.len(),
            out@ == v@.take(j as int),
        decreases v@.len() - j,
    {
        out.push(v[j]);
        assert(v@.take(j + 1 as int) =~= v@.take(j as int).push(v@[j as int]));
        j += 1;
    }
    assert(v@.take(j as int) =~= v@);
    out
}

/// Whether two byte strings are equal.
pub fn bytes_eq(a: &[u8], b: &[u8]) -> (r: bool)
    ensures
        r == (a@ == b@),
{
    if a.len() != b.len() {
        return false;
    }
    let mut i: usize = 0;
    while i < a.len()
        invariant
            a@.len() == b@.len(),
            i <= a@.len(),
            forall|k: int| 0 <= k < i ==> a@[k] == b@[k],
        decreases a@.len() - i,
    {
        if a[i] != b[i] {
            return false;
        }
        i += 1;
    }
    assert(a@ =~= b@);
    true
}

/// The byte with ASCII upper-case letters mapped to lower case.
pub open spec fn lower_byte(b: u8) -> u8 {
    if 65 <= b <= 90 {
        (b + 32) as u8
    } else {
        b
    }
}

/// The string with ASCII upper-case letters mapped to lower case.
pub open spec fn ascii_lower(s: Seq<u8>) -> Seq<u8> {
    Seq::new(s.len(), |i: int| lower_byte(s[i]))
}

/// Lower-cases the ASCII letters of a byte string; other bytes stay.
pub fn to_ascii_lower(s: &[u8]) -> (r: Vec<u8>)
    ensures
        r@ == ascii_lower(s@),
{
    let mut out: Vec<u8> = Vec::new();
    let mut j: usize = 0;
    while j < s.len()
        invariant
            j <= s@.len(),
            out@ == ascii_lower(s@).take(j as int),
        decreases s@.len() - j,
    {
        let b = s[j];
        let l = if 65 <= b && b <= 90 {
            b + 32
        } else {
            b
        };
        out.push(l);
        assert(ascii_lower(s@).take(j + 1 as int) =~= ascii_lower(s@).take(j as int).push(l));
        j += 1;
    }
    assert(ascii_lower(s@).take(j as int) =~= ascii_lower(s@));
    out
}

} // verus!

verus! {

/// The bytes of an ASCII text.
pub open spec fn bytes_of(s: Seq<char>) -> Seq<u8> {
    s.map_values(|c: char| c as u8)
}

/// The bytes of an ASCII string literal.
pub fn ascii_bytes(s: &str) -> (r: Vec<u8>)
    requires
        s.is_ascii(),
    ensures
        r@ == bytes_of(s@),
{
    let b = s.as_bytes();
    proof {
        vstd::string::is_ascii_spec_bytes(s);
    }
    let v = vstd::slice::slice_to_vec(b);
    assert(v@ =~= bytes_of(s@));
    v
}

/// Whether `x` spells the ASCII word `w`.
pub fn is_word(x: &[u8], w: &str) -> (r: bool)
    requires
        w.is_ascii(),
    ensures
        r == (x@ == bytes_of(w@)),
{
    let wb = ascii_bytes(w);
    bytes_eq(x, wb.as_slice())
}

/// Appends `b` to `out`.
pub fn append_bytes(out: &mut Vec<u8>, b: &[u8])
    ensures
        final(out)@ == old(out)@ + b@,
{
    let mut j: usize = 0;
    while j < b.len()
        invariant
            j <= b@.len(),
            out@ == old(out)@ + b@.take(j as int),
        decreases b@.len() - j,
    {
        out.push(b[j]);
        assert(b@.take(j + 1 as int) =~= b@.take(j as int).push(b@[j as int]));
        j += 1;
    }
    assert(b@.take(j as int) =~= b@);
}

} // verus!
