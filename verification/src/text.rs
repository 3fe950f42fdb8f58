//! Conversions between strings and character vectors.

use vstd::prelude::*;
use vstd::utf8::is_ascii_chars;

verus! {

/// Appends one character to a string, through `String::push`.
/// Claimed: the string's characters afterwards are the old ones followed by `c`.
#[verifier::external_body]
pub(crate) fn push_char(s: &mut String, c: char)
    ensures
        final(s)@ == old(s)@.push(c),
{
    s.push(c);
}

/// The characters of `s`, in order.
pub fn chars_of(s: &str) -> (v: Vec<char>)
    ensures
        v@ == s@,
{
    let n = s.unicode_len();
    let mut v: Vec<char> = Vec::new();
    let mut i: usize = 0;
    while i < n
        invariant
            n == s@.len(),
            i <= n,
            v@ == s@.subrange(0, i as int),
        decreases n - i,
    {
        v.push(s.get_char(i));
        i += 1;
    }
    assert(v@ =~= s@);
    v
}

/// A string holding the characters of `v`, in order.
pub fn string_of(v: &[char]) -> (s: String)
    ensures
        s@ == v@,
{
    let mut s = String::new();
    let mut i: usize = 0;
    while i < v.len()
        invariant
            i <= v@.len(),
            s@ == v@.subrange(0, i as int),
        decreases v@.len() - i,
    {
        push_char(&mut s, v[i]);
        assert(v@.subrange(0, i + 1) =~= v@.subrange(0, i as int).push(v@[i as int]));
        i += 1;
    }
    assert(s@ =~= v@);
    s
}

/// Whether `v` holds the characters of `pat` from position `at` on.
pub fn window_eq(v: &[char], at: usize, pat: &[char]) -> (r: bool)
    requires
        at + pat@.len() <= v@.len(),
    ensures
        r == (v@.subrange(at as int, at + pat@.len()) == pat@),
{
    let n = v.len();
    let mut k: usize = 0;
    while k < pat.len()
        invariant
            n == v@.len(),
            at + pat@.len() <= v@.len(),
            k <= pat@.len(),
            forall|j: int| 0 <= j < k ==> v@[at + j] == pat@[j],
        decreases pat@.len() - k,
    {
        if v[at + k] != pat[k] {
            assert(v@.subrange(at as int, at + pat@.len())[k as int] != pat@[k as int]);
            return false;
        }
        k += 1;
    }
    assert(v@.subrange(at as int, at + pat@.len()) =~= pat@);
    true
}

/// Appends the characters of `src` from position `from` up to `to` to `out`.
pub fn extend_range(out: &mut Vec<char>, src: &[char], from: usize, to: usize)
    requires
        from <= to <= src@.len(),
    ensures
        final(out)@ == old(out)@ + src@.subrange(from as int, to as int),
{
    let mut k: usize = from;
    while k < to
        invariant
            from <= k <= to <= src@.len(),
            out@ == old(out)@ + src@.subrange(from as int, k as int),
        decreases to - k,
    {
        out.push(src[k]);
        assert(src@.subrange(from as int, k + 1) =~= src@.subrange(from as int, k as int).push(src@[k as int]));
        k += 1;
    }
}

/// `x` with every occurrence of `c` left out.
pub open spec fn drop_char(x: Seq<char>, c: char) -> Seq<char>
    decreases x.len(),
{
    if x.len() == 0 {
        x
    } else if x.last() == c {
        drop_char(x.drop_last(), c)
    } else {
        drop_char(x.drop_last(), c).push(x.last())
    }
}

/// Leaving out a character distributes over concatenation.
pub proof fn lemma_drop_char_add(a: Seq<char>, b: Seq<char>, c: char)
    ensures
        drop_char(a + b, c) == drop_char(a, c) + drop_char(b, c),
    decreases b.len(),
{
    if b.len() == 0 {
        assert(a + b =~= a);
        assert(drop_char(a, c) + drop_char(b, c) =~= drop_char(a, c));
    } else {
        assert((a + b).drop_last() =~= a + b.drop_last());
        assert((a + b).last() == b.last());
        lemma_drop_char_add(a, b.drop_last(), c);
        if b.last() != c {
            assert(drop_char(a, c) + drop_char(b.drop_last(), c).push(b.last()) =~= (drop_char(a, c)
                + drop_char(b.drop_last(), c)).push(b.last()));
        }
    }
}

/// Leaving out a character that does not occur changes nothing.
pub proof fn lemma_drop_char_absent(x: Seq<char>, c: char)
    requires
        forall|j: int| 0 <= j < x.len() ==> x[j] != c,
    ensures
        drop_char(x, c) == x,
    decreases x.len(),
{
    if x.len() > 0 {
        lemma_drop_char_absent(x.drop_last(), c);
        assert(x.drop_last().push(x.last()) =~= x);
    }
}

/// Whether `a` and `b` hold the same characters.
pub fn chars_equal(a: &[char], b: &[char]) -> (r: bool)
    ensures
        r == (a@ == b@),
{
    if a.len() != b.len() {
        return false;
    }
    let r = window_eq(a, 0, b);
    assert(a@.subrange(0, b@.len() as int) =~= a@);
    r
}

/// Characters that are ASCII stay ASCII when put together.
pub proof fn lemma_ascii_add(a: Seq<char>, b: Seq<char>)
    requires
        is_ascii_chars(a),
        is_ascii_chars(b),
    ensures
        is_ascii_chars(a + b),
{
    assert forall|i: int| 0 <= i < (a + b).len() implies '\0' <= #[trigger] (a + b)[i] <= '\u{7f}' by {
        if i < a.len() {
            assert((a + b)[i] == a[i]);
        } else {
            assert((a + b)[i] == b[i - a.len()]);
        }
    }
}

/// A part of ASCII characters is ASCII.
pub proof fn lemma_ascii_subrange(a: Seq<char>, i: int, j: int)
    requires
        is_ascii_chars(a),
        0 <= i <= j <= a.len(),
    ensures
        is_ascii_chars(a.subrange(i, j)),
{
    assert forall|k: int| 0 <= k < j - i implies '\0' <= #[trigger] a.subrange(i, j)[k] <= '\u{7f}' by {
        assert(a.subrange(i, j)[k] == a[i + k]);
    }
}

/// Leaving out a character keeps ASCII.
pub proof fn lemma_ascii_drop_char(x: Seq<char>, c: char)
    requires
        is_ascii_chars(x),
    ensures
        is_ascii_chars(drop_char(x, c)),
    decreases x.len(),
{
    if x.len() > 0 {
        lemma_ascii_subrange(x, 0, x.len() - 1);
        assert(x.subrange(0, x.len() - 1) =~= x.drop_last());
        lemma_ascii_drop_char(x.drop_last(), c);
        if x.last() != c {
            lemma_ascii_add(drop_char(x.drop_last(), c), seq![x.last()]);
            assert(drop_char(x.drop_last(), c).push(x.last()) =~= drop_char(x.drop_last(), c) + seq![x.last()]);
        }
    }
}

} // verus!
