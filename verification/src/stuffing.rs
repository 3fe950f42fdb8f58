//! Bit stuffing of frames that start with the flag `01110111`.
//!
//! Sending side: after every occurrence of `0111011` in the frame body a stuffing
//! symbol (`0`) is inserted, so that the body cannot be mistaken for a flag.
//! Receiving side: the same scan, with a stride of eight, marks every stuffed
//! symbol with `b`, which the data extraction later drops.

use vstd::prelude::*;
use vstd::utf8::is_ascii_chars;
use crate::text::{
    chars_of, drop_char, extend_range, lemma_ascii_add, lemma_ascii_subrange,
    lemma_drop_char_absent, lemma_drop_char_add, string_of, window_eq,
};

verus! {

/// The frame delimiter `01110111`.
pub open spec fn flag() -> Seq<char> {
    seq!['0', '1', '1', '1', '0', '1', '1', '1']
}

/// The seven characters after which a stuffing symbol is inserted: `0111011`.
pub open spec fn stuffing_pattern() -> Seq<char> {
    seq!['0', '1', '1', '1', '0', '1', '1']
}

/// What the stuffing scan of `s` emits from position `start` on.
///
/// Where the seven characters at `start` form the stuffing pattern, they are emitted
/// followed by `symbol` and the scan moves on by `step`; otherwise one character is
/// emitted and the scan moves on by one. Fewer than seven characters left are copied.
/// `None` where the scan would have to continue from a position past the end of `s`,
/// or would not move on (`step == 0`).
pub open spec fn stuff_from(s: Seq<char>, start: nat, step: nat, symbol: Seq<char>) -> Option<Seq<char>>
    decreases s.len() - start,
{
    if start + 7 > s.len() {
        if start <= s.len() {
            Some(s.subrange(start as int, s.len() as int))
        } else {
            None
        }
    } else if s.subrange(start as int, start + 7 as int) == stuffing_pattern() {
        if step == 0 || start + step > s.len() {
            None
        } else {
            match stuff_from(s, start + step, step, symbol) {
                Some(rest) => Some(s.subrange(start as int, start + 7 as int) + symbol + rest),
                None => None,
            }
        }
    } else {
        match stuff_from(s, start + 1, step, symbol) {
            Some(rest) => Some(seq![s[start as int]] + rest),
            None => None,
        }
    }
}

/// The stuffed frame: the flag, then the stuffing scan of `s` from position 8 on
/// (the first eight characters of `s` are replaced by the flag).
pub open spec fn staffed(s: Seq<char>, step: nat, symbol: Seq<char>) -> Option<Seq<char>> {
    match stuff_from(s, 8, step, symbol) {
        Some(body) => Some(flag() + body),
        None => None,
    }
}

/// Stuffs `udata` with `symbol`, moving on by `step` after each stuffing pattern.
///
/// With step 7 and symbol `0` this is the sender's stuffing; with step 8 and symbol
/// `b` it is the receiver's marking of stuffed symbols.
pub fn bit_staffing(udata: String, step: usize, symbol: &str) -> (out: String)
    requires
        is_ascii_chars(udata@),
        staffed(udata@, step as nat, symbol@) is Some,
    ensures
        out@ == staffed(udata@, step as nat, symbol@).unwrap(),
{
    try_bit_staffing(udata.as_str(), step, symbol).unwrap()
}

/// Stuffs `udata` as `bit_staffing` does, or `None` where the scan would run past the
/// end of `udata` (shorter than the flag, or a pattern whose step leads past its end).
pub fn try_bit_staffing(udata: &str, step: usize, symbol: &str) -> (out: Option<String>)
    ensures
        match staffed(udata@, step as nat, symbol@) {
            Some(t) => out matches Some(o) && o@ == t,
            None => out is None,
        },
{
    let s = chars_of(udata);
    if s.len() < 8 {
        return None;
    }
    let sym = chars_of(symbol);
    let pattern: [char; 7] = ['0', '1', '1', '1', '0', '1', '1'];
    let flag_chars: [char; 8] = ['0', '1', '1', '1', '0', '1', '1', '1'];
    assert(pattern@ =~= stuffing_pattern());
    assert(flag_chars@ =~= flag());
    let mut out: Vec<char> = Vec::new();
    extend_range(&mut out, &flag_chars, 0, 8);
    assert(flag_chars@.subrange(0, 8) =~= flag());
    let ghost whole = stuff_from(s@, 8, step as nat, sym@);
    let ghost total = whole.unwrap();
    let mut start: usize = 8;
    let n = s.len();
    while n - start >= 7
        invariant
            n == s@.len(),
            start <= n,
            s@ == udata@,
            sym@ == symbol@,
            pattern@ == stuffing_pattern(),
            whole == stuff_from(s@, 8, step as nat, sym@),
            total == whole.unwrap(),
            whole is Some <==> stuff_from(s@, start as nat, step as nat, sym@) is Some,
            whole is Some ==> out@ + stuff_from(s@, start as nat, step as nat, sym@).unwrap() == flag() + total,
        decreases n - start,
    {
        let ghost before = stuff_from(s@, start as nat, step as nat, sym@).unwrap();
        let ghost old_out = out@;
        if window_eq(&s, start, &pattern) {
            if step == 0 || step > n - start {
                assert(stuff_from(s@, start as nat, step as nat, sym@) is None);
                return None;
            }
            let ghost rest = stuff_from(s@, (start + step) as nat, step as nat, sym@).unwrap();
            extend_range(&mut out, &s, start, start + 7);
            extend_range(&mut out, &sym, 0, sym.len());
            proof {
                assert(sym@.subrange(0, sym@.len() as int) =~= sym@);
                assert(out@ =~= old_out + s@.subrange(start as int, start + 7) + sym@);
                if whole is Some {
                    assert(before == s@.subrange(start as int, start + 7) + sym@ + rest);
                    assert(out@ + rest =~= old_out + before);
                }
            }
            start = start + step;
        } else {
            let ghost rest = stuff_from(s@, (start + 1) as nat, step as nat, sym@).unwrap();
            out.push(s[start]);
            proof {
                if whole is Some {
                    assert(before == seq![s@[start as int]] + rest);
                    assert(out@ + rest =~= old_out + before);
                }
            }
            start = start + 1;
        }
    }
    extend_range(&mut out, &s, start, n);
    assert(out@ =~= flag() + total);
    Some(string_of(&out))
}

/// With stride 7 the scan never runs past the end: it is defined from every position
/// up to the end of the frame.
proof fn lemma_stride7_defined(s: Seq<char>, i: nat, symbol: Seq<char>)
    requires
        i <= s.len(),
    ensures
        stuff_from(s, i, 7, symbol) is Some,
    decreases s.len() - i,
{
    if i + 7 <= s.len() {
        if s.subrange(i as int, i + 7 as int) == stuffing_pattern() {
            lemma_stride7_defined(s, i + 7, symbol);
        } else {
            lemma_stride7_defined(s, i + 1, symbol);
        }
    }
}

/// The stride-7 scan from `i` starts by copying the next (up to seven) characters.
pub proof fn lemma_stride7_prefix(s: Seq<char>, i: nat, symbol: Seq<char>)
    requires
        i <= s.len(),
    ensures
        ({
            let m = if s.len() - i < 7 { s.len() - i } else { 7 };
            let out = stuff_from(s, i, 7, symbol).unwrap();
            out.len() >= m && out.subrange(0, m) == s.subrange(i as int, i + m as int)
        }),
    decreases s.len() - i,
{
    lemma_stride7_defined(s, i, symbol);
    if i + 7 <= s.len() {
        if s.subrange(i as int, i + 7 as int) == stuffing_pattern() {
            lemma_stride7_defined(s, i + 7, symbol);
            let rest = stuff_from(s, i + 7, 7, symbol).unwrap();
            assert((s.subrange(i as int, i + 7 as int) + symbol + rest).subrange(0, 7)
                =~= s.subrange(i as int, i + 7 as int));
        } else {
            lemma_stride7_prefix(s, i + 1, symbol);
            let rest = stuff_from(s, i + 1, 7, symbol).unwrap();
            assert(rest.subrange(0, 6) =~= s.subrange(i + 1 as int, i + 7 as int));
            assert forall|j: int| 0 <= j < 7 implies (seq![s[i as int]] + rest)[j] == s[i + j] by {
                if j > 0 {
                    assert(rest.subrange(0, 6)[j - 1] == s.subrange(i + 1 as int, i + 7 as int)[j - 1]);
                }
            }
            assert((seq![s[i as int]] + rest).subrange(0, 7) =~= s.subrange(i as int, i + 7 as int));
        }
    }
}

/// The stride-8 scan over a prefix `p` followed by the stride-7 output of `s` from `i`
/// makes the same decisions as the stride-7 scan, and so marks exactly the inserted
/// symbols (any one-character symbol), emitting `marker` in their place.
proof fn lemma_stride8_over_stride7(p: Seq<char>, s: Seq<char>, i: nat, symbol: Seq<char>, marker: Seq<char>)
    requires
        i <= s.len(),
        symbol.len() == 1,
    ensures
        stuff_from(s, i, 7, symbol) is Some,
        stuff_from(p + stuff_from(s, i, 7, symbol).unwrap(), p.len(), 8, marker)
            == stuff_from(s, i, 7, marker),
    decreases s.len() - i,
{
    lemma_stride7_defined(s, i, symbol);
    lemma_stride7_defined(s, i, marker);
    let t = p + stuff_from(s, i, 7, symbol).unwrap();
    let k = p.len();
    if i + 7 > s.len() {
        assert(t.subrange(k as int, t.len() as int) =~= s.subrange(i as int, s.len() as int));
    } else if s.subrange(i as int, i + 7 as int) == stuffing_pattern() {
        let pat = s.subrange(i as int, i + 7 as int);
        lemma_stride7_defined(s, i + 7, symbol);
        let rest = stuff_from(s, i + 7, 7, symbol).unwrap();
        let p2 = p + pat + symbol;
        assert(t =~= p2 + rest);
        assert(t.subrange(k as int, k + 7 as int) =~= pat);
        lemma_stride8_over_stride7(p2, s, i + 7, symbol, marker);
        assert(p2.len() == k + 8);
    } else {
        lemma_stride7_defined(s, i + 1, symbol);
        lemma_stride7_prefix(s, i + 1, symbol);
        let rest = stuff_from(s, i + 1, 7, symbol).unwrap();
        let p2 = p + seq![s[i as int]];
        assert(t =~= p2 + rest);
        assert(rest.subrange(0, 6) =~= s.subrange(i + 1 as int, i + 7 as int));
        assert forall|j: int| 0 <= j < 7 implies #[trigger] t.subrange(k as int, k + 7 as int)[j]
            == s.subrange(i as int, i + 7 as int)[j] by {
            if j > 0 {
                assert(t[k + j] == rest[j - 1]);
                assert(rest.subrange(0, 6)[j - 1] == s.subrange(i + 1 as int, i + 7 as int)[j - 1]);
            }
        }
        assert(t.subrange(k as int, k + 7 as int) =~= s.subrange(i as int, i + 7 as int));
        assert(t[k as int] == s[i as int]);
        lemma_stride8_over_stride7(p2, s, i + 1, symbol, marker);
    }
}

/// Dropping the marker from the marking scan gives back the scanned characters,
/// where they hold no marker themselves.
proof fn lemma_drop_marker(s: Seq<char>, i: nat, c: char)
    requires
        i <= s.len(),
        forall|j: int| i <= j < s.len() ==> s[j] != c,
    ensures
        stuff_from(s, i, 7, seq![c]) is Some,
        drop_char(stuff_from(s, i, 7, seq![c]).unwrap(), c) == s.subrange(i as int, s.len() as int),
    decreases s.len() - i,
{
    lemma_stride7_defined(s, i, seq![c]);
    if i + 7 > s.len() {
        lemma_drop_char_absent(s.subrange(i as int, s.len() as int), c);
    } else if s.subrange(i as int, i + 7 as int) == stuffing_pattern() {
        let pat = s.subrange(i as int, i + 7 as int);
        lemma_drop_marker(s, i + 7, c);
        let rest = stuff_from(s, i + 7, 7, seq![c]).unwrap();
        lemma_drop_char_add(pat + seq![c], rest, c);
        lemma_drop_char_add(pat, seq![c], c);
        lemma_drop_char_absent(pat, c);
        assert(drop_char(seq![c], c) =~= Seq::<char>::empty()) by {
            assert(seq![c].drop_last() =~= Seq::<char>::empty());
            assert(seq![c].last() == c);
            assert(drop_char(Seq::<char>::empty(), c) == Seq::<char>::empty());
        }
        assert(pat + s.subrange(i + 7 as int, s.len() as int) =~= s.subrange(i as int, s.len() as int));
    } else {
        lemma_drop_marker(s, i + 1, c);
        let rest = stuff_from(s, i + 1, 7, seq![c]).unwrap();
        lemma_drop_char_add(seq![s[i as int]], rest, c);
        lemma_drop_char_absent(seq![s[i as int]], c);
        assert(seq![s[i as int]] + s.subrange(i + 1 as int, s.len() as int) =~= s.subrange(i as int, s.len() as int));
    }
}

/// The receiver undoes the sender's stuffing.
///
/// Every frame that the sender stuffs (stride 7, symbol `0`) can be scanned by the
/// receiver (stride 8, marker `b`) without running past its end. The receiver's scan
/// gives the flag and the sender's body with a `b` in place of each stuffed `0`, and
/// dropping the `b`s gives back the flag and the body, where the body held no `b`.
pub proof fn lemma_receiver_undoes_stuffing(s: Seq<char>)
    requires
        s.len() >= 8,
    ensures
        staffed(s, 7, seq!['0']) is Some,
        staffed(staffed(s, 7, seq!['0']).unwrap(), 8, seq!['b']) == staffed(s, 7, seq!['b']),
        staffed(s, 7, seq!['b']) is Some,
        (forall|j: int| 8 <= j < s.len() ==> s[j] != 'b') ==> drop_char(
            staffed(s, 7, seq!['b']).unwrap(),
            'b',
        ) == flag() + s.subrange(8, s.len() as int),
{
    lemma_stride8_over_stride7(flag(), s, 8, seq!['0'], seq!['b']);
    lemma_stride7_defined(s, 8, seq!['b']);
    if forall|j: int| 8 <= j < s.len() ==> s[j] != 'b' {
        lemma_drop_marker(s, 8, 'b');
        let body = stuff_from(s, 8, 7, seq!['b']).unwrap();
        lemma_drop_char_add(flag(), body, 'b');
        lemma_drop_char_absent(flag(), 'b');
    }
}

/// Where the stuffing pattern occurs nowhere from `i` on, the scan copies the rest.
pub proof fn lemma_scan_copies(s: Seq<char>, i: nat, step: nat, symbol: Seq<char>)
    requires
        i <= s.len(),
        forall|j: int| i <= j && j + 7 <= s.len() ==> #[trigger] s.subrange(j, j + 7) != stuffing_pattern(),
    ensures
        stuff_from(s, i, step, symbol) == Some(s.subrange(i as int, s.len() as int)),
    decreases s.len() - i,
{
    if i + 7 <= s.len() {
        assert(s.subrange(i as int, i + 7 as int) != stuffing_pattern());
        lemma_scan_copies(s, i + 1, step, symbol);
        assert(seq![s[i as int]] + s.subrange(i + 1 as int, s.len() as int) =~= s.subrange(i as int, s.len() as int));
    }
}

/// The stride-7 scan copies the characters from `i` up to `k` where no pattern starts
/// among them.
pub proof fn lemma_scan_copies_until(s: Seq<char>, i: nat, k: nat, symbol: Seq<char>)
    requires
        i <= k <= s.len(),
        forall|j: int| i <= j < k && j + 7 <= s.len() ==> #[trigger] s.subrange(j, j + 7)
            != stuffing_pattern(),
    ensures
        stuff_from(s, i, 7, symbol) is Some,
        stuff_from(s, k, 7, symbol) is Some,
        stuff_from(s, i, 7, symbol).unwrap() == s.subrange(i as int, k as int) + stuff_from(s, k, 7, symbol).unwrap(),
    decreases k - i,
{
    lemma_stride7_defined(s, i, symbol);
    lemma_stride7_defined(s, k, symbol);
    if i < k && i + 7 > s.len() {
        assert(s.subrange(i as int, k as int) + s.subrange(k as int, s.len() as int) =~= s.subrange(
            i as int,
            s.len() as int,
        ));
    } else if i < k {
        assert(s.subrange(i as int, i + 7 as int) != stuffing_pattern());
        lemma_scan_copies_until(s, i + 1, k, symbol);
        assert(seq![s[i as int]] + s.subrange(i + 1 as int, k as int) =~= s.subrange(i as int, k as int));
        assert(seq![s[i as int]] + (s.subrange(i + 1 as int, k as int) + stuff_from(s, k, 7, symbol).unwrap())
            =~= s.subrange(i as int, k as int) + stuff_from(s, k, 7, symbol).unwrap());
    } else {
        assert(s.subrange(i as int, k as int) =~= Seq::<char>::empty());
        assert(Seq::<char>::empty() + stuff_from(s, k, 7, symbol).unwrap() =~= stuff_from(s, k, 7, symbol).unwrap());
    }
}

/// Where `s` does not end in `1` (the pattern's last character), the stride-7 scan
/// from any position before the end ends with the last character of `s`.
pub proof fn lemma_scan_last(s: Seq<char>, i: nat, symbol: Seq<char>)
    requires
        i < s.len(),
        s.last() != '1',
    ensures
        stuff_from(s, i, 7, symbol) is Some,
        stuff_from(s, i, 7, symbol).unwrap().len() > 0,
        stuff_from(s, i, 7, symbol).unwrap().last() == s.last(),
    decreases s.len() - i,
{
    lemma_stride7_defined(s, i, symbol);
    if i + 7 > s.len() {
    } else if s.subrange(i as int, i + 7 as int) == stuffing_pattern() {
        assert(s.subrange(i as int, i + 7 as int)[6] == '1');
        assert(i + 7 < s.len());
        lemma_scan_last(s, i + 7, symbol);
    } else {
        lemma_scan_last(s, i + 1, symbol);
    }
}

/// The scan of ASCII characters with an ASCII symbol is ASCII.
pub proof fn lemma_stuff_ascii(s: Seq<char>, i: nat, step: nat, symbol: Seq<char>)
    requires
        is_ascii_chars(s),
        is_ascii_chars(symbol),
        stuff_from(s, i, step, symbol) is Some,
    ensures
        is_ascii_chars(stuff_from(s, i, step, symbol).unwrap()),
    decreases s.len() - i,
{
    if i + 7 > s.len() {
        lemma_ascii_subrange(s, i as int, s.len() as int);
    } else if s.subrange(i as int, i + 7 as int) == stuffing_pattern() {
        lemma_stuff_ascii(s, i + step, step, symbol);
        lemma_ascii_subrange(s, i as int, i + 7 as int);
        lemma_ascii_add(s.subrange(i as int, i + 7 as int), symbol);
        lemma_ascii_add(s.subrange(i as int, i + 7 as int) + symbol, stuff_from(s, i + step, step, symbol).unwrap());
    } else {
        lemma_stuff_ascii(s, i + 1, step, symbol);
        lemma_ascii_subrange(s, i as int, i + 1 as int);
        assert(s.subrange(i as int, i + 1 as int) =~= seq![s[i as int]]);
        lemma_ascii_add(seq![s[i as int]], stuff_from(s, i + 1, step, symbol).unwrap());
    }
}

/// The stuffing of ASCII characters with an ASCII symbol is ASCII.
pub proof fn lemma_staffed_ascii(s: Seq<char>, step: nat, symbol: Seq<char>)
    requires
        is_ascii_chars(s),
        is_ascii_chars(symbol),
        staffed(s, step, symbol) is Some,
    ensures
        is_ascii_chars(staffed(s, step, symbol).unwrap()),
{
    lemma_stuff_ascii(s, 8, step, symbol);
    lemma_ascii_add(flag(), stuff_from(s, 8, step, symbol).unwrap());
}

/// A `0` appended after a scan that runs to its end is copied at the end: no pattern
/// can end with it, since the pattern ends in `1`.
pub proof fn lemma_scan_append_zero(x: Seq<char>, i: nat, step: nat, symbol: Seq<char>)
    requires
        stuff_from(x, i, step, symbol) is Some,
    ensures
        stuff_from(x.push('0'), i, step, symbol) == Some(stuff_from(x, i, step, symbol).unwrap().push('0')),
    decreases x.len() - i,
{
    let y = x.push('0');
    if i + 7 > x.len() {
        assert forall|j: int| i <= j && j + 7 <= y.len() implies #[trigger] y.subrange(j, j + 7)
            != stuffing_pattern() by {
            assert(y.subrange(j, j + 7)[6] == y[j + 6]);
            assert(j + 6 == x.len());
        }
        lemma_scan_copies(y, i, step, symbol);
        assert(y.subrange(i as int, y.len() as int) =~= x.subrange(i as int, x.len() as int).push('0'));
    } else {
        assert(y.subrange(i as int, i + 7 as int) =~= x.subrange(i as int, i + 7 as int));
        if x.subrange(i as int, i + 7 as int) == stuffing_pattern() {
            lemma_scan_append_zero(x, i + step, step, symbol);
            let rest = stuff_from(x, i + step, step, symbol).unwrap();
            assert(x.subrange(i as int, i + 7 as int) + symbol + rest.push('0') =~= (x.subrange(
                i as int,
                i + 7 as int,
            ) + symbol + rest).push('0'));
        } else {
            lemma_scan_append_zero(x, i + 1, step, symbol);
            let rest = stuff_from(x, i + 1, step, symbol).unwrap();
            assert(y[i as int] == x[i as int]);
            assert(seq![x[i as int]] + rest.push('0') =~= (seq![x[i as int]] + rest).push('0'));
        }
    }
}

/// A `0` appended to a frame that can be stuffed is copied at the end of its stuffing.
pub proof fn lemma_staffed_append_zero(x: Seq<char>, step: nat, symbol: Seq<char>)
    requires
        staffed(x, step, symbol) is Some,
    ensures
        staffed(x.push('0'), step, symbol) == Some(staffed(x, step, symbol).unwrap().push('0')),
{
    lemma_scan_append_zero(x, 8, step, symbol);
    let out = stuff_from(x, 8, step, symbol).unwrap();
    assert(flag() + out.push('0') =~= (flag() + out).push('0'));
}

/// Where the stuffing pattern occurs in `s` from `j` on, the stride-7 scan from `j`
/// emits it: at the start where it starts at `j`, later otherwise.
pub proof fn lemma_scan_keeps_pattern(s: Seq<char>, j: nat, i: int, symbol: Seq<char>)
    requires
        j <= i,
        i + 7 <= s.len(),
        s.subrange(i, i + 7) == stuffing_pattern(),
    ensures
        stuff_from(s, j, 7, symbol) is Some,
        exists|k: int|
            0 <= k && k + 7 <= stuff_from(s, j, 7, symbol).unwrap().len() && (k == 0 ==> s.subrange(
                j as int,
                j + 7 as int,
            ) == stuffing_pattern()) && #[trigger] stuff_from(s, j, 7, symbol).unwrap().subrange(k, k + 7)
                == stuffing_pattern(),
    decreases i - j,
{
    lemma_stride7_defined(s, j, symbol);
    let out = stuff_from(s, j, 7, symbol).unwrap();
    if s.subrange(j as int, j + 7 as int) == stuffing_pattern() {
        lemma_stride7_defined(s, j + 7, symbol);
        let rest = stuff_from(s, j + 7, 7, symbol).unwrap();
        assert(out == s.subrange(j as int, j + 7 as int) + symbol + rest);
        assert(out.subrange(0, 7) =~= s.subrange(j as int, j + 7 as int));
        assert(stuff_from(s, j, 7, symbol).unwrap().subrange(0, 7) == stuffing_pattern());
        assert(0 <= 0int && 0int + 7 <= stuff_from(s, j, 7, symbol).unwrap().len());
        assert(exists|k: int|
            0 <= k && k + 7 <= stuff_from(s, j, 7, symbol).unwrap().len() && (k == 0 ==> s.subrange(
                j as int,
                j + 7 as int,
            ) == stuffing_pattern()) && #[trigger] stuff_from(s, j, 7, symbol).unwrap().subrange(k, k + 7)
                == stuffing_pattern());
    } else {
        lemma_scan_keeps_pattern(s, j + 1, i, symbol);
        let rest = stuff_from(s, j + 1, 7, symbol).unwrap();
        let k = choose|k: int|
            0 <= k && k + 7 <= rest.len() && (k == 0 ==> s.subrange(j + 1 as int, j + 1 + 7 as int)
                == stuffing_pattern()) && #[trigger] rest.subrange(k, k + 7) == stuffing_pattern();
        assert(out == seq![s[j as int]] + rest);
        assert(out.subrange(k + 1, k + 8) =~= rest.subrange(k, k + 7));
        assert(stuff_from(s, j, 7, symbol).unwrap().subrange(k + 1, k + 1 + 7) == stuffing_pattern());
        assert(k + 1 + 7 <= stuff_from(s, j, 7, symbol).unwrap().len());
        assert(exists|k: int|
            0 <= k && k + 7 <= stuff_from(s, j, 7, symbol).unwrap().len() && (k == 0 ==> s.subrange(
                j as int,
                j + 7 as int,
            ) == stuffing_pattern()) && #[trigger] stuff_from(s, j, 7, symbol).unwrap().subrange(k, k + 7)
                == stuffing_pattern());
    }
}

/// A scan over characters that avoid `c`, with a symbol that avoids `c`, avoids `c`.
pub proof fn lemma_scan_avoids(s: Seq<char>, i: nat, step: nat, symbol: Seq<char>, c: char)
    requires
        stuff_from(s, i, step, symbol) is Some,
        forall|j: int| i <= j < s.len() ==> s[j] != c,
        forall|j: int| 0 <= j < symbol.len() ==> symbol[j] != c,
    ensures
        forall|j: int|
            0 <= j < stuff_from(s, i, step, symbol).unwrap().len() ==> #[trigger] stuff_from(
                s,
                i,
                step,
                symbol,
            ).unwrap()[j] != c,
    decreases s.len() - i,
{
    let out = stuff_from(s, i, step, symbol).unwrap();
    if i + 7 > s.len() {
    } else if s.subrange(i as int, i + 7 as int) == stuffing_pattern() {
        lemma_scan_avoids(s, i + step, step, symbol, c);
        let rest = stuff_from(s, i + step, step, symbol).unwrap();
        assert forall|j: int| 0 <= j < out.len() implies out[j] != c by {
            if j < 7 {
                assert(out[j] == s[i + j]);
            } else if j < 7 + symbol.len() {
                assert(out[j] == symbol[j - 7]);
            } else {
                assert(out[j] == rest[j - 7 - symbol.len()]);
            }
        }
    } else {
        lemma_scan_avoids(s, i + 1, step, symbol, c);
        let rest = stuff_from(s, i + 1, step, symbol).unwrap();
        assert forall|j: int| 0 <= j < out.len() implies out[j] != c by {
            if j > 0 {
                assert(out[j] == rest[j - 1]);
            }
        }
    }
}

} // verus!
