//! Small helpers for building strings character by character.
use vstd::prelude::*;

verus! {

/// The characters of `s`, in order, in a vector that can be indexed in
/// constant time.
pub fn chars_of(s: &str) -> (v: Vec<char>)
    ensures
        v@ == s@,
{
    let mut v: Vec<char> = Vec::new();
    for c in it: s.chars()
        invariant
            v@ == it.seq().take(it.index() as int),
            it.seq() == s@,
    {
        v.push(c);
    }
    v
}

/// Appends one character to a string (`String::push`).
#[verifier::external_body]
pub(crate) fn push_char(s: &mut String, c: char)
    ensures
        final(s)@ == old(s)@.push(c),
{
    s.push(c);
}

/// Appends the characters `p[from..to]` to `s`.
pub(crate) fn push_chars(s: &mut String, p: &Vec<char>, from: usize, to: usize)
    requires
        from <= to <= p.len(),
    ensures
        final(s)@ == old(s)@ + p@.subrange(from as int, to as int),
{
    let ghost base = s@;
    let mut j = from;
    proof {
        assert(s@ =~= base + p@.subrange(from as int, from as int));
    }
    while j < to
        invariant
            from <= j <= to <= p.len(),
            s@ == base + p@.subrange(from as int, j as int),
            base == old(s)@,
        decreases to - j,
    {
        push_char(s, p[j]);
        proof {
            assert(p@.subrange(from as int, j + 1) =~= p@.subrange(from as int, j as int).push(
                p@[j as int],
            ));
        }
        j += 1;
    }
}

/// Appends all of `t` to `s`.
pub(crate) fn push_str(s: &mut String, t: &str)
    ensures
        final(s)@ == old(s)@ + t@,
{
    let v = chars_of(t);
    push_chars(s, &v, 0, v.len());
    proof {
        assert(v@.subrange(0, v@.len() as int) =~= t@);
    }
}

/// A new string holding the characters `p[from..to]`.
pub(crate) fn string_of_range(p: &Vec<char>, from: usize, to: usize) -> (s: String)
    requires
        from <= to <= p.len(),
    ensures
        s@ == p@.subrange(from as int, to as int),
{
    let mut s = String::new();
    push_chars(&mut s, p, from, to);
    proof {
        assert(s@ =~= p@.subrange(from as int, to as int));
    }
    s
}

/// The position of the last `/` of `p`, if it holds one.
pub(crate) fn last_slash(p: &Vec<char>) -> (r: Option<usize>)
    ensures
        match r {
            Some(j) => j < p.len() && p@[j as int] == '/' && forall|k: int|
                j < k < p.len() ==> p@[k] != '/',
            None => forall|k: int| 0 <= k < p.len() ==> p@[k] != '/',
        },
{
    let mut j = p.len();
    while j > 0 && p[j - 1] != '/'
        invariant
            j <= p.len(),
            forall|k: int| j <= k < p.len() ==> p@[k] != '/',
        decreases j,
    {
        j -= 1;
    }
    if j == 0 {
        None
    } else {
        Some(j - 1)
    }
}

} // verus!
