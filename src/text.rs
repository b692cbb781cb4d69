//! Character-level helpers shared by the parser and the renderer.
use vstd::prelude::*;

verus! {

/// Relies on `String::push`: appends one character at the end.
#[verifier::external_body]
pub(crate) fn push_char(s: &mut String, c: char)
    ensures
        final(s)@ == old(s)@.push(c),
{
    s.push(c)
}

/// The characters of `s`, in order.
pub fn chars_of(s: &str) -> (r: Vec<char>)
    ensures
        r@ == s@,
{
    broadcast use vstd::string::axiom_spec_iter;
    let mut out: Vec<char> = Vec::new();
    for c in it: s.chars()
        invariant
            out@ == it.seq().take(it.index() as int),
    {
        out.push(c);
        assert(out@ =~= it.seq().take(it.index() + 1));
    }
    assert(out@ =~= s@);
    out
}

/// A string holding the characters `v[lo..hi]`.
pub fn string_of(v: &Vec<char>, lo: usize, hi: usize) -> (r: String)
    requires
        lo <= hi <= v@.len(),
    ensures
        r@ == v@.subrange(lo as int, hi as int),
{
    let mut out = String::new();
    let mut i: usize = lo;
    while i < hi
        invariant
            lo <= i <= hi <= v@.len(),
            out@ == v@.subrange(lo as int, i as int),
        decreases hi - i,
    {
        push_char(&mut out, v[i]);
        i = i + 1;
        assert(out@ =~= v@.subrange(lo as int, i as int));
    }
    out
}

/// A vector holding the characters `v[lo..hi]`.
pub fn slice_of(v: &Vec<char>, lo: usize, hi: usize) -> (r: Vec<char>)
    requires
        lo <= hi <= v@.len(),
    ensures
        r@ == v@.subrange(lo as int, hi as int),
{
    let mut out: Vec<char> = Vec::new();
    let mut i: usize = lo;
    while i < hi
        invariant
            lo <= i <= hi <= v@.len(),
            out@ == v@.subrange(lo as int, i as int),
        decreases hi - i,
    {
        out.push(v[i]);
        i = i + 1;
        assert(out@ =~= v@.subrange(lo as int, i as int));
    }
    out
}

/// Whether `pat` occurs in `s` starting at position `i`.
pub open spec fn occurs_at(s: Seq<char>, pat: Seq<char>, i: int) -> bool {
    0 <= i && i + pat.len() <= s.len() && s.subrange(i, i + pat.len()) == pat
}

/// The first position at or after `i` where `pat` occurs in `s`.
pub open spec fn find_from(s: Seq<char>, pat: Seq<char>, i: int) -> Option<int>
    decreases s.len() + 1 - i,
{
    if i < 0 || i + pat.len() > s.len() {
        None
    } else if occurs_at(s, pat, i) {
        Some(i)
    } else {
        find_from(s, pat, i + 1)
    }
}

/// Whether `pat` occurs in `s` at position `i`.
pub fn matches_at(s: &Vec<char>, pat: &Vec<char>, i: usize) -> (r: bool)
    requires
        i + pat@.len() <= s@.len(),
    ensures
        r == occurs_at(s@, pat@, i as int),
{
    let n = s.len();
    let mut j: usize = 0;
    while j < pat.len()
        invariant
            n == s@.len(),
            i + pat@.len() <= s@.len(),
            j <= pat@.len(),
            s@.subrange(i as int, i + j) == pat@.subrange(0, j as int),
        decreases pat@.len() - j,
    {
        if s[i + j] != pat[j] {
            assert(s@.subrange(i as int, i + pat@.len())[j as int] != pat@[j as int]);
            return false;
        }
        j = j + 1;
        assert(s@.subrange(i as int, i + j) =~= pat@.subrange(0, j as int));
    }
    assert(pat@.subrange(0, j as int) =~= pat@);
    true
}

/// The first position at or after `from` where `pat` occurs in `s`.
pub fn find(s: &Vec<char>, pat: &Vec<char>, from: usize) -> (r: Option<usize>)
    ensures
        r matches Some(p) ==> find_from(s@, pat@, from as int) == Some(p as int) && from <= p
            && occurs_at(s@, pat@, p as int),
        r is None ==> find_from(s@, pat@, from as int) is None,
{
    if pat.len() > s.len() {
        assert(find_from(s@, pat@, from as int) is None);
        return None;
    }
    let last = s.len() - pat.len();
    let mut i: usize = from;
    while i <= last
        invariant
            last == s@.len() - pat@.len(),
            from <= i,
            find_from(s@, pat@, from as int) == find_from(s@, pat@, i as int),
        decreases last + 1 - i,
    {
        if matches_at(s, pat, i) {
            return Some(i);
        }
        if i == last {
            return None;
        }
        i = i + 1;
    }
    None
}

/// Whether two character sequences are equal.
pub fn same_chars(a: &Vec<char>, b: &Vec<char>) -> (r: bool)
    ensures
        r == (a@ == b@),
{
    if a.len() != b.len() {
        return false;
    }
    let mut i: usize = 0;
    while i < a.len()
        invariant
            a@.len() == b@.len(),
            i <= a@.len(),
            a@.take(i as int) == b@.take(i as int),
        decreases a@.len() - i,
    {
        if a[i] != b[i] {
            assert(a@[i as int] != b@[i as int]);
            return false;
        }
        i = i + 1;
        assert(a@.take(i as int) =~= a@.take(i - 1).push(a@[i - 1]));
        assert(b@.take(i as int) =~= b@.take(i - 1).push(b@[i - 1]));
    }
    assert(a@.take(i as int) =~= a@);
    assert(b@.take(i as int) =~= b@);
    true
}

} // verus!
