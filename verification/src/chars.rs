//! Small character-level helpers over `String` and `&str`: the two places
//! this library leans on std for text it cannot express itself, and a
//! verified conversion from a string slice to its characters.

use vstd::prelude::*;
use vstd::string::StrSliceExecFns;

verus! {

/// Relies on `String::push`: appends exactly the given character.
#[verifier::external_body]
pub fn push_char(s: &mut String, c: char)
    ensures
        final(s)@ == old(s)@.push(c),
{
    s.push(c);
}

/// Relies on `char::from_u32`: yields the scalar value for every code point
/// that is neither a surrogate nor above the Unicode maximum, and nothing
/// otherwise.
#[verifier::external_body]
pub fn char_from_u32(u: u32) -> (r: Option<char>)
    ensures
        (u < 0xD800 || (0xE000 <= u && u <= 0x10FFFF)) <==> r is Some,
        r matches Some(c) ==> c == (u as char),
{
    char::from_u32(u)
}

/// The characters of a string slice, in order.
pub fn chars_of(s: &str) -> (v: Vec<char>)
    ensures
        v@ == s@,
{
    let n = s.unicode_len();
    let mut v: Vec<char> = Vec::new();
    let mut i: usize = 0;
    while i < n
        invariant
            i <= n,
            n == s@.len(),
            v@ == s@.take(i as int),
        decreases n - i,
    {
        v.push(s.get_char(i));
        i = i + 1;
        proof {
            assert(v@ =~= s@.take(i as int));
        }
    }
    proof {
        assert(v@ =~= s@);
    }
    v
}

/// Whether two string slices hold the same characters.
pub fn str_eq(a: &str, b: &str) -> (r: bool)
    ensures
        r == (a@ == b@),
{
    let na = a.unicode_len();
    let nb = b.unicode_len();
    if na != nb {
        proof {
            assert(a@ != b@);
        }
        return false;
    }
    let mut i: usize = 0;
    while i < na
        invariant
            i <= na,
            na == a@.len(),
            na == b@.len(),
            forall|k: int| 0 <= k < i ==> a@[k] == b@[k],
        decreases na - i,
    {
        if a.get_char(i) != b.get_char(i) {
            return false;
        }
        i = i + 1;
    }
    proof {
        assert(a@ =~= b@);
    }
    true
}

/// A `String` holding exactly the given characters.
pub fn string_of(cs: &Vec<char>) -> (s: String)
    ensures
        s@ == cs@,
{
    let mut s = String::new();
    let mut i: usize = 0;
    while i < cs.len()
        invariant
            i <= cs@.len(),
            s@ == cs@.take(i as int),
        decreases cs@.len() - i,
    {
        push_char(&mut s, cs[i]);
        i = i + 1;
        proof {
            assert(s@ =~= cs@.take(i as int));
        }
    }
    proof {
        assert(s@ =~= cs@);
    }
    s
}

} // verus!
