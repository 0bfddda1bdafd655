use vstd::prelude::*;
use vstd::string::*;

verus! {

/// Character-wise equality of two string slices.
pub fn str_eq(a: &str, b: &str) -> (r: bool)
    ensures
        r == (a@ == b@),
{
    let n = a.unicode_len();
    let m = b.unicode_len();
    if n != m {
        return false;
    }
    let mut i: usize = 0;
    while i < n
        invariant
            n == a@.len(),
            m == b@.len(),
            n == m,
            i <= n,
            forall|j: int| 0 <= j < i ==> a@[j] == b@[j],
        decreases n - i,
    {
        if a.get_char(i) != b.get_char(i) {
            return false;
        }
        i = i + 1;
    }
    assert(a@ =~= b@);
    true
}

/// ASCII upper-casing of one character; every other character is unchanged.
pub open spec fn ascii_upper(c: char) -> char {
    if 'a' <= c && c <= 'z' {
        ((c as u32) - 32) as char
    } else {
        c
    }
}

/// ASCII upper-casing of a whole string, character by character.
pub open spec fn ascii_upper_seq(s: Seq<char>) -> Seq<char> {
    s.map_values(|c: char| ascii_upper(c))
}

fn upper_matches(c: char, d: char) -> (r: bool)
    ensures
        r == (ascii_upper(c) == d),
{
    if 'a' <= c && c <= 'z' {
        (d as u32) + 32 == (c as u32)
    } else {
        c == d
    }
}

/// Whether the ASCII upper-casing of `a` equals `b` exactly.
pub fn upper_eq(a: &str, b: &str) -> (r: bool)
    ensures
        r == (ascii_upper_seq(a@) == b@),
{
    let n = a.unicode_len();
    let m = b.unicode_len();
    if n != m {
        assert(ascii_upper_seq(a@).len() == n);
        return false;
    }
    let mut i: usize = 0;
    while i < n
        invariant
            n == a@.len(),
            m == b@.len(),
            n == m,
            i <= n,
            forall|j: int| 0 <= j < i ==> ascii_upper(a@[j]) == b@[j],
        decreases n - i,
    {
        if !upper_matches(a.get_char(i), b.get_char(i)) {
            assert(ascii_upper_seq(a@)[i as int] != b@[i as int]);
            return false;
        }
        i = i + 1;
    }
    assert(ascii_upper_seq(a@) =~= b@);
    true
}

} // verus!
