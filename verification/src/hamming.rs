//! Hamming check bits over a frame's data, and the receiver's single-error correction.
//!
//! The data bits are laid out over positions 0, 1, 2, ...; positions whose number plus
//! one is a power of two are check positions (marked `x`), the others hold the data in
//! order. Check bit `i` is the parity of the ones at the positions `j` for which
//! `(j + 1) / 2^i` is odd. The check field is the check bits followed by the parity of
//! all data ones.

use vstd::prelude::*;
use crate::outside::{gen_range_inclusive, power, thread_rng, two_to_the};
use crate::framing::extractable;
use crate::packet::zero_address;
use crate::text::{
    chars_equal, chars_of, drop_char, extend_range, lemma_ascii_add, lemma_ascii_subrange,
    push_char, string_of, window_eq,
};
use vstd::utf8::is_ascii_chars;

verus! {

/// The character `1` for true, `0` for false.
pub open spec fn bit_char(b: bool) -> char {
    if b {
        '1'
    } else {
        '0'
    }
}

/// Whether `n` is a power of two.
pub open spec fn is_power_of_two(n: nat) -> bool
    decreases n,
{
    if n == 1 {
        true
    } else if n < 2 || n % 2 == 1 {
        false
    } else {
        is_power_of_two(n / 2)
    }
}

/// The number of check positions (positions `j` with `j + 1` a power of two) below `n`.
pub open spec fn checks_below(n: nat) -> nat
    decreases n,
{
    if n == 0 {
        0
    } else {
        checks_below((n - 1) as nat) + if is_power_of_two(n) {
            1nat
        } else {
            0nat
        }
    }
}

/// The Hamming layout of `data` over `n` positions: `x` at every check position and
/// the data characters, in order, at the other positions.
pub open spec fn layout(data: Seq<char>, n: nat) -> Seq<char> {
    Seq::new(
        n,
        |i: int|
            if is_power_of_two((i + 1) as nat) {
                'x'
            } else {
                data[i - checks_below(i as nat)]
            },
    )
}

/// The number of ones among the first `n` characters of `s` at positions `j` with
/// `(j + 1) / p` odd: the ones that check bit `p` covers.
pub open spec fn covered_ones(s: Seq<char>, p: nat, n: nat) -> nat
    decreases n,
{
    if n == 0 {
        0
    } else {
        covered_ones(s, p, (n - 1) as nat) + if s[n - 1] == '1' && (n / p) % 2 == 1 {
            1nat
        } else {
            0nat
        }
    }
}

/// The number of ones in `s`.
pub open spec fn ones(s: Seq<char>) -> nat
    decreases s.len(),
{
    if s.len() == 0 {
        0
    } else {
        ones(s.drop_last()) + if s.last() == '1' {
            1nat
        } else {
            0nat
        }
    }
}

/// Powers of two are positive, and each is twice the one before.
pub proof fn lemma_power2_step(k: nat)
    ensures
        power(2, k) >= 1,
        power(2, k + 1) == 2 * power(2, k),
    decreases k,
{
    if k > 0 {
        lemma_power2_step((k - 1) as nat);
    }
}

/// Powers of two grow with the exponent.
pub proof fn lemma_power2_mono(a: nat, b: nat)
    requires
        a <= b,
    ensures
        power(2, a) <= power(2, b),
    decreases b,
{
    if a < b {
        lemma_power2_mono(a, (b - 1) as nat);
        lemma_power2_step((b - 1) as nat);
    }
}

/// `2^k` is a power of two.
pub proof fn lemma_power2_is_power_of_two(k: nat)
    ensures
        is_power_of_two(power(2, k) as nat),
    decreases k,
{
    lemma_power2_step(k);
    if k > 0 {
        lemma_power2_step((k - 1) as nat);
        lemma_power2_is_power_of_two((k - 1) as nat);
        let q = power(2, (k - 1) as nat);
        assert((2 * q) / 2 == q);
        assert((2 * q) % 2 == 0);
    }
}

/// No number strictly between `2^k` and `2^(k+1)` is a power of two.
pub proof fn lemma_between_powers(k: nat, m: nat)
    requires
        power(2, k) < m < power(2, k + 1),
    ensures
        !is_power_of_two(m),
    decreases k,
{
    lemma_power2_step(k);
    if k > 0 && m % 2 == 0 {
        lemma_power2_step((k - 1) as nat);
        lemma_between_powers((k - 1) as nat, m / 2);
    }
}

/// Below `n`, with `2^g <= n < 2^(g+1)`, lie exactly `g + 1` check positions.
pub proof fn lemma_checks_below_log(n: nat, g: nat)
    requires
        power(2, g) <= n < power(2, g + 1),
    ensures
        checks_below(n) == g + 1,
    decreases n,
{
    lemma_power2_step(g);
    if n == 1 {
        assert(g == 0) by {
            if g > 0 {
                lemma_power2_mono(1, g);
                lemma_power2_step(0);
            }
        }
        assert(checks_below(0) == 0);
    } else if n == power(2, g) {
        assert(g > 0) by {
            if g == 0 {
                assert(power(2, 0) == 1);
            }
        }
        lemma_power2_step((g - 1) as nat);
        lemma_checks_below_log((n - 1) as nat, (g - 1) as nat);
        lemma_power2_is_power_of_two(g);
    } else {
        lemma_checks_below_log((n - 1) as nat, g);
        lemma_between_powers(g, n);
    }
}

/// Between `a` and `b` lie no more check positions than positions.
pub proof fn lemma_checks_below_growth(a: nat, b: nat)
    requires
        a <= b,
    ensures
        checks_below(a) <= checks_below(b),
        checks_below(b) - checks_below(a) <= b - a,
    decreases b,
{
    if a < b {
        lemma_checks_below_growth(a, (b - 1) as nat);
    }
}

/// The Hamming layout of `data`, with `size` check positions among
/// `size + data.len()` positions.
#[verifier::spinoff_prover]
#[verifier::rlimit(30)]
pub fn make_hamming_string(data: String, size: usize) -> (hs: String)
    requires
        is_ascii_chars(data@),
        size + data@.len() <= 0x4000_0000,
        checks_below((size + data@.len()) as nat) >= size,
    ensures
        hs@ == layout(data@, (size + data@.len()) as nat),
{
    let d = chars_of(data.as_str());
    let n = size + d.len();
    let ghost total = layout(d@, n as nat);
    let mut out: Vec<char> = Vec::new();
    let mut grade: usize = 0;
    let mut index: usize = 0;
    let mut i: usize = 0;
    proof {
        lemma_power2_step(0);
    }
    while i < n
        invariant
            n == size + d@.len(),
            n <= 0x4000_0000,
            checks_below(n as nat) >= size,
            total == layout(d@, n as nat),
            i <= n,
            grade == checks_below(i as nat),
            index == i - grade,
            i + 1 <= power(2, grade as nat),
            grade > 0 ==> power(2, (grade - 1) as nat) < i + 1,
            grade <= 31,
            out@ == total.subrange(0, i as int),
        decreases n - i,
    {
        proof {
            lemma_power2_step(grade as nat);
        }
        let next = two_to_the(grade);
        if i as u64 == next - 1 {
            proof {
                lemma_power2_is_power_of_two(grade as nat);
                assert(total[i as int] == 'x');
                if grade >= 30 {
                    lemma_power2_mono(30, grade as nat);
                    reveal_with_fuel(power, 31);
                }
            }
            out.push('x');
            grade += 1;
        } else {
            proof {
                assert(grade > 0) by {
                    if grade == 0 {
                        assert(power(2, 0) == 1);
                    }
                }
                lemma_power2_step((grade - 1) as nat);
                lemma_between_powers((grade - 1) as nat, (i + 1) as nat);
                lemma_checks_below_growth((i + 1) as nat, n as nat);
                assert(total[i as int] == d@[index as int]);
            }
            out.push(d[index]);
            index += 1;
        }
        assert(out@ =~= total.subrange(0, i + 1));
        i += 1;
    }
    assert(out@ =~= total);
    string_of(&out)
}

/// Whether check bit `p` covers position `j`: `(j + 1) / p` is odd.
pub open spec fn covers_position(p: nat, j: int) -> bool {
    ((j + 1) / (p as int)) % 2 == 1
}

/// The parity of the ones that check bit `position` covers among the first `size`
/// characters of `data`: 1 for odd, 0 for even. Positions that it covers must lie
/// within `data`.
pub fn hamming_parity_counting(data: String, position: u32, size: u32) -> (p: u32)
    requires
        is_ascii_chars(data@),
        position >= 1,
        forall|j: int| data@.len() <= j < size ==> !#[trigger] covers_position(position as nat, j),
    ensures
        p == covered_ones(data@, position as nat, size as nat) % 2,
{
    let d = chars_of(data.as_str());
    let mut is_odd = false;
    let mut j: u32 = 0;
    while j < size
        invariant
            d@ == data@,
            j <= size,
            position >= 1,
            forall|k: int| d@.len() <= k < size ==> !#[trigger] covers_position(position as nat, k),
            is_odd == (covered_ones(d@, position as nat, j as nat) % 2 == 1),
        decreases size - j,
    {
        assert(covers_position(position as nat, j as int) == ((j + 1) / (position as int) % 2 == 1));
        if (j as u64 + 1) / (position as u64) % 2 == 1 && d[j as usize] == '1' {
            is_odd = !is_odd;
        }
        j += 1;
    }
    if is_odd {
        1
    } else {
        0
    }
}

/// The ones of a prefix extended by one character.
pub proof fn lemma_ones_prefix(s: Seq<char>, i: int)
    requires
        0 <= i < s.len(),
    ensures
        ones(s.subrange(0, i + 1)) == ones(s.subrange(0, i)) + if s[i] == '1' {
            1nat
        } else {
            0nat
        },
{
    assert(s.subrange(0, i + 1).drop_last() =~= s.subrange(0, i));
}

/// Whether `s` holds an odd number of ones.
fn odd_ones(s: &Vec<char>) -> (odd: bool)
    ensures
        odd == (ones(s@) % 2 == 1),
{
    let mut odd = false;
    let mut i: usize = 0;
    while i < s.len()
        invariant
            i <= s@.len(),
            odd == (ones(s@.subrange(0, i as int)) % 2 == 1),
        decreases s@.len() - i,
    {
        proof {
            lemma_ones_prefix(s@, i as int);
        }
        if s[i] == '1' {
            odd = !odd;
        }
        i += 1;
    }
    assert(s@.subrange(0, s@.len() as int) =~= s@);
    odd
}

/// The parity of the ones in `frame` after its first twenty characters (which are
/// ASCII, so that the characters after them start at the twentieth byte): `1` for
/// odd, `0` for even.
pub fn data_parity(frame: String) -> (p: String)
    requires
        frame@.len() >= 20,
        is_ascii_chars(frame@.subrange(0, 20)),
    ensures
        p@ == seq![bit_char(ones(frame@.subrange(20, frame@.len() as int)) % 2 == 1)],
{
    let f = chars_of(frame.as_str());
    let mut tail: Vec<char> = Vec::new();
    extend_range(&mut tail, &f, 20, f.len());
    let odd = odd_ones(&tail);
    let mut p = String::new();
    push_char(&mut p, if odd { '1' } else { '0' });
    p
}

/// `frame` with a `|` inserted before its last `k` characters.
pub open spec fn mark_check_field(frame: Seq<char>, k: nat) -> Seq<char> {
    frame.subrange(0, frame.len() - k) + seq!['|'] + frame.subrange(frame.len() - k, frame.len() as int)
}

/// `rframe` with a `|` inserted before its last `fcs_index` characters, so that the
/// check field can be shown apart.
pub fn frame_for_print(rframe: String, fcs_index: usize) -> (frame: String)
    requires
        is_ascii_chars(rframe@),
        fcs_index <= rframe@.len(),
    ensures
        frame@ == mark_check_field(rframe@, fcs_index as nat),
{
    let f = chars_of(rframe.as_str());
    let cut = f.len() - fcs_index;
    let mut out: Vec<char> = Vec::new();
    extend_range(&mut out, &f, 0, cut);
    out.push('|');
    extend_range(&mut out, &f, cut, f.len());
    assert(out@ =~= mark_check_field(rframe@, fcs_index as nat));
    string_of(&out)
}

/// `r` check bits suffice for `len` data bits (`2^r >= len + r + 1`), and `r - 1` would not.
pub open spec fn is_check_count(len: nat, r: nat) -> bool {
    power(2, r) >= len + r + 1 && (r == 0 || power(2, (r - 1) as nat) < len + r)
}

/// The number of check bits for `len` data bits.
pub open spec fn check_count(len: nat) -> nat {
    choose|r: nat| is_check_count(len, r)
}

/// The check field of `data`: one check bit per check position of its layout, then
/// the parity of all its ones.
pub open spec fn hamming_fcs(data: Seq<char>) -> Seq<char> {
    let r = check_count(data.len());
    let n = r + data.len();
    let hs = layout(data, n);
    Seq::new(r, |i: int| bit_char(covered_ones(hs, power(2, i as nat) as nat, n) % 2 == 1)) + seq![
        bit_char(ones(data) % 2 == 1),
    ]
}

/// `2^k - k` grows with `k`.
pub proof fn lemma_power2_minus_exp_mono(a: nat, b: nat)
    requires
        a <= b,
    ensures
        power(2, b) - b >= power(2, a) - a,
    decreases b,
{
    if a < b {
        lemma_power2_minus_exp_mono(a, (b - 1) as nat);
        lemma_power2_step((b - 1) as nat);
    }
}

/// There is only one right number of check bits.
pub proof fn lemma_check_count_unique(len: nat, r: nat)
    requires
        is_check_count(len, r),
    ensures
        check_count(len) == r,
{
    let c = check_count(len);
    assert(is_check_count(len, c));
    if c < r {
        lemma_power2_minus_exp_mono(c, (r - 1) as nat);
    } else if r < c {
        lemma_power2_minus_exp_mono(r, (c - 1) as nat);
    }
}

/// `2^r` is at least `2r` for `r >= 1`.
pub proof fn lemma_power2_double(r: nat)
    requires
        r >= 1,
    ensures
        power(2, r) >= 2 * r,
    decreases r,
{
    lemma_power2_step((r - 1) as nat);
    if r > 1 {
        lemma_power2_double((r - 1) as nat);
    }
}

/// The search for the number of check bits, from `r` upwards, ends.
pub proof fn lemma_check_count_from(len: nat, r: nat)
    requires
        r == 0 || power(2, (r - 1) as nat) < len + r,
    ensures
        exists|c: nat| is_check_count(len, c),
    decreases len + 1 - r,
{
    if !is_check_count(len, r) {
        lemma_power2_step(r);
        if r >= 1 {
            lemma_power2_double(r);
        }
        lemma_check_count_from(len, r + 1);
    }
}

/// Every data length has its number of check bits.
pub proof fn lemma_check_count(len: nat)
    ensures
        is_check_count(len, check_count(len)),
{
    lemma_check_count_from(len, 0);
}

/// With the right number `r` of check bits, exactly `r` of the `r + len` positions are
/// check positions.
pub proof fn lemma_check_positions(len: nat, r: nat)
    requires
        is_check_count(len, r),
    ensures
        checks_below(r + len) == r,
{
    if r == 0 {
        assert(len == 0);
        assert(checks_below(0) == 0);
    } else {
        lemma_power2_step((r - 1) as nat);
        assert(power(2, (r - 1) as nat) <= r + len);
        lemma_checks_below_log(r + len, (r - 1) as nat);
    }
}

/// Where `n` positions hold check positions for all but `len` of them, the data
/// index of every data position lies within the data.
pub proof fn lemma_layout_index(len: nat, n: nat, j: nat)
    requires
        j < n,
        n - checks_below(n) <= len,
        checks_below(n) <= n,
        !is_power_of_two(j + 1),
    ensures
        0 <= j - checks_below(j) < len,
{
    assert(checks_below(j + 1) == checks_below(j));
    assert(checks_below(0) == 0);
    lemma_checks_below_growth(0, j);
    lemma_checks_below_growth(j + 1, n);
}

/// The layout of ASCII data is ASCII, where the positions suffice for the data.
pub proof fn lemma_layout_ascii(d: Seq<char>, n: nat)
    requires
        is_ascii_chars(d),
        n - checks_below(n) <= d.len(),
        checks_below(n) <= n,
    ensures
        is_ascii_chars(layout(d, n)),
{
    assert forall|j: int| 0 <= j < n implies '\0' <= #[trigger] layout(d, n)[j] <= '\u{7f}' by {
        if !is_power_of_two((j + 1) as nat) {
            lemma_layout_index(d.len(), n, j as nat);
        }
    }
}

/// The check field of `udata`.
#[verifier::spinoff_prover]
#[verifier::rlimit(30)]
pub fn encode_hamming(udata: String) -> (fcs: String)
    requires
        is_ascii_chars(udata@),
        udata@.len() <= 0x3fff_ffe1,
    ensures
        fcs@ == hamming_fcs(udata@),
{
    let d = chars_of(udata.as_str());
    let len = d.len();
    let mut fcs_size: usize = 0;
    proof {
        lemma_power2_step(0);
    }
    while two_to_the(fcs_size) - (fcs_size as u64 + 1) < len as u64
        invariant
            len == d@.len(),
            len <= 0x3fff_ffe1,
            fcs_size <= 30,
            power(2, fcs_size as nat) >= fcs_size + 1,
            fcs_size == 0 || power(2, (fcs_size - 1) as nat) < len + fcs_size,
        decreases 30 - fcs_size,
    {
        proof {
            if fcs_size == 30 {
                reveal_with_fuel(power, 31);
            }
            lemma_power2_step(fcs_size as nat);
        }
        fcs_size += 1;
    }
    proof {
        lemma_check_count_unique(len as nat, fcs_size as nat);
        lemma_check_positions(len as nat, fcs_size as nat);
        lemma_power2_mono(fcs_size as nat, 30);
        reveal_with_fuel(power, 31);
    }
    let full_size = fcs_size + len;
    let hamming_string = make_hamming_string(udata, fcs_size);
    let ghost hs = layout(d@, full_size as nat);
    proof {
        lemma_layout_ascii(d@, full_size as nat);
    }
    let mut fcs: Vec<char> = Vec::new();
    let mut i: usize = 0;
    while i < fcs_size
        invariant
            fcs_size <= 30,
            full_size == fcs_size + len,
            full_size <= 0x4000_0000,
            hamming_string@ == hs,
            hs.len() == full_size,
            is_ascii_chars(hs),
            i <= fcs_size,
            fcs@ == Seq::new(
                i as nat,
                |k: int| bit_char(covered_ones(hs, power(2, k as nat) as nat, full_size as nat) % 2 == 1),
            ),
        decreases fcs_size - i,
    {
        proof {
            lemma_power2_mono(i as nat, 29);
            reveal_with_fuel(power, 30);
            lemma_power2_step(i as nat);
        }
        let position = two_to_the(i) as u32;
        let value = hamming_parity_counting(hamming_string.clone(), position, full_size as u32);
        fcs.push(if value == 1 { '1' } else { '0' });
        i += 1;
    }
    let odd = odd_ones(&d);
    fcs.push(if odd { '1' } else { '0' });
    assert(fcs@ =~= hamming_fcs(udata@));
    string_of(&fcs)
}

/// `s` with the character at `i` flipped: `0` becomes `1`, anything else becomes `0`.
pub open spec fn flip_at(s: Seq<char>, i: int) -> Seq<char> {
    s.update(i, if s[i] == '0' { '1' } else { '0' })
}

/// `b` arises from `a` by flipping at most two characters (possibly the same one twice).
pub open spec fn is_distortion(a: Seq<char>, b: Seq<char>) -> bool {
    ||| b == a
    ||| exists|i: int| 0 <= i < a.len() && b == flip_at(a, i)
    ||| exists|i: int, j: int| 0 <= i < a.len() && 0 <= j < a.len() && b == flip_at(flip_at(a, i), j)
}

/// Flips the character at `i` in place.
fn flip_chars(v: &mut Vec<char>, i: usize)
    requires
        i < old(v)@.len(),
    ensures
        final(v)@ == flip_at(old(v)@, i as int),
{
    if v[i] == '0' {
        v.set(i, '1');
    } else {
        v.set(i, '0');
    }
}

/// `data` with the character at `index` flipped.
pub fn flip_one(data: String, index: usize) -> (changed: String)
    requires
        index < data@.len(),
    ensures
        changed@ == flip_at(data@, index as int),
{
    let mut d = chars_of(data.as_str());
    flip_chars(&mut d, index);
    string_of(&d)
}

/// `data` with one character, picked at random, flipped.
pub fn random_change(data: String) -> (changed: String)
    requires
        is_ascii_chars(data@),
        data@.len() >= 1,
    ensures
        exists|i: int| 0 <= i < data@.len() && changed@ == flip_at(data@, i),
{
    let mut rng = thread_rng();
    let index = gen_range_inclusive(&mut rng, 0, data.unicode_len() - 1);
    flip_one(data, index)
}

/// What the line makes of `data` for the draw `p` and the flip positions `i` and `j`:
/// for a draw of 1 or 3 the character at `i` flipped, for a draw of 4 the characters
/// at `i` and then at `j` flipped, and for any other draw `data` unchanged. `None`
/// where a flip is drawn and `data` is empty.
pub open spec fn distortion_by_draw(data: Seq<char>, p: int, i: int, j: int) -> Option<Seq<char>> {
    if p == 1 || p == 3 {
        if data.len() == 0 {
            None
        } else {
            Some(flip_at(data, i))
        }
    } else if p == 4 {
        if data.len() == 0 {
            None
        } else {
            Some(flip_at(flip_at(data, i), j))
        }
    } else {
        Some(data)
    }
}

/// Whether `out` is what `distortion_by_draw` gives.
pub open spec fn is_distortion_by_draw(out: Option<String>, data: Seq<char>, p: int, i: int, j: int) -> bool {
    match distortion_by_draw(data, p, i, j) {
        Some(t) => out matches Some(o) && o@ == t,
        None => out is None,
    }
}

/// What the line makes of `data` for the draw `p` and the flip positions `i` and `j`
/// (see `distortion_by_draw`).
pub fn distort_with(data: String, p: usize, i: usize, j: usize) -> (out: Option<String>)
    requires
        (p == 1 || p == 3 || p == 4) && data@.len() > 0 ==> i < data@.len(),
        p == 4 && data@.len() > 0 ==> j < data@.len(),
    ensures
        is_distortion_by_draw(out, data@, p as int, i as int, j as int),
{
    if p == 1 || p == 3 || p == 4 {
        if data.unicode_len() == 0 {
            return None;
        }
        let once = flip_one(data, i);
        if p == 4 {
            Some(flip_one(once, j))
        } else {
            Some(once)
        }
    } else {
        Some(data)
    }
}

/// A random distortion of `data`: a draw `p` from 1 to 4, and where it asks for flips,
/// random positions for them, handed to `distort_with`. With chance 1/4 the data is
/// unchanged, 1/2 one character is flipped, 1/4 two flips are made. `None` where
/// `data` is empty and a flip was drawn (there is no character to flip).
pub fn random_distortion(data: String) -> (out: Option<String>)
    requires
        is_ascii_chars(data@),
    ensures
        exists|p: int, i: int, j: int|
            1 <= p <= 4 && (data@.len() > 0 ==> 0 <= i < data@.len() && 0 <= j < data@.len())
                && #[trigger] is_distortion_by_draw(out, data@, p, i, j),
        match out {
            Some(d) => is_distortion(data@, d@),
            None => data@.len() == 0,
        },
{
    let mut rng = thread_rng();
    let p = gen_range_inclusive(&mut rng, 1, 4);
    let n = data.unicode_len();
    let mut i: usize = 0;
    let mut j: usize = 0;
    if p != 2 && n > 0 {
        i = gen_range_inclusive(&mut rng, 0, n - 1);
        if p == 4 {
            j = gen_range_inclusive(&mut rng, 0, n - 1);
        }
    }
    let ghost d = data@;
    let out = distort_with(data, p, i, j);
    proof {
        assert(is_distortion_by_draw(out, d, p as int, i as int, j as int));
        if out is Some {
            let o = out->0;
            if p == 1 || p == 3 {
                assert(is_distortion(d, o@));
            } else if p == 4 {
                assert(is_distortion(d, o@));
            }
        }
    }
    out
}

/// `s` check characters fit a received frame body of `len` characters: `s` is the
/// least number from 1 on with `2^(s-1) >= len`.
pub open spec fn is_received_check_len(len: nat, s: nat) -> bool {
    s >= 1 && power(2, (s - 1) as nat) >= len && (s == 1 || power(2, (s - 2) as nat) < len)
}

/// The number of check characters that the receiver takes from the end of a frame
/// body of `len` characters (3 for a body of 3).
pub open spec fn received_check_len(len: nat) -> nat {
    if len == 3 {
        3
    } else {
        choose|s: nat| is_received_check_len(len, s)
    }
}

/// The receiver's count of check characters is determined by the body length.
pub proof fn lemma_received_check_len_unique(len: nat, s: nat)
    requires
        len != 3,
        is_received_check_len(len, s),
    ensures
        received_check_len(len) == s,
{
    let c = received_check_len(len);
    assert(is_received_check_len(len, c));
    if c < s {
        lemma_power2_mono((c - 1) as nat, (s - 2) as nat);
    } else if s < c {
        lemma_power2_mono((s - 1) as nat, (c - 2) as nat);
    }
}

/// The sum of `2^i` over the positions `i < m` where `fcs` and `check` differ.
pub open spec fn syndrome(fcs: Seq<char>, check: Seq<char>, m: nat) -> nat
    decreases m,
{
    if m == 0 {
        0
    } else {
        syndrome(fcs, check, (m - 1) as nat) + if fcs[m - 1] != check[m - 1] {
            power(2, (m - 1) as nat) as nat
        } else {
            0nat
        }
    }
}

/// Where the receiver splits a frame into data and check field: the length of the
/// check field, or `None` where the frame is no Hamming-coded frame (too short, a
/// closing frame of length `0000`, or a one-character body) or is too short for its
/// check field.
pub open spec fn hamming_split(rframe: Seq<char>) -> Option<nat> {
    if rframe.len() < 20 || rframe.subrange(16, 20) == zero_address() {
        None
    } else {
        let len = (rframe.len() - 20) as nat;
        if len == 1 {
            None
        } else {
            let s = received_check_len(len);
            if s > len {
                None
            } else {
                Some(s)
            }
        }
    }
}

/// The data that the receiver takes from a frame (empty where it takes none).
pub open spec fn received_data(rframe: Seq<char>) -> Seq<char> {
    match hamming_split(rframe) {
        Some(s) => rframe.subrange(20, rframe.len() - s),
        None => Seq::empty(),
    }
}

/// The receiver's decoding of `rframe` when its data reads `d` after transmission:
/// the frame as received, the frame as corrected, and 0 (no error), 1 (an error was
/// corrected) or 2 (an error was found and not corrected). `None` where the receiver
/// fails on the frame.
pub open spec fn decode_with(rframe: Seq<char>, d: Seq<char>) -> Option<(Seq<char>, Seq<char>, int)> {
    if rframe.len() < 20 {
        None
    } else if rframe.subrange(16, 20) == zero_address() {
        Some((rframe, rframe, 0))
    } else if rframe.len() == 21 {
        Some((Seq::empty(), Seq::empty(), 0))
    } else {
        match hamming_split(rframe) {
            None => None,
            Some(s) => {
                let fcs = rframe.subrange(rframe.len() - s, rframe.len() as int);
                let head = rframe.subrange(0, 20);
                let with_error = head + d + fcs;
                let check = hamming_fcs(d);
                if check == fcs {
                    Some((mark_check_field(rframe, s), mark_check_field(rframe, s), 0))
                } else if check.len() < s - 1 {
                    None
                } else {
                    let index = syndrome(fcs, check, (s - 1) as nat);
                    let hs = layout(d, (check.len() - 1 + d.len()) as nat);
                    if index == 1 || index == 2 || index == 4 || index == 8 || index == 16 || index
                        > hs.len() {
                        Some((mark_check_field(with_error, s), mark_check_field(with_error, s), 2))
                    } else if index == 0 {
                        None
                    } else {
                        let changed = head + drop_char(flip_at(hs, index - 1), 'x');
                        if seq![bit_char(ones(changed.subrange(20, changed.len() as int)) % 2 == 1)]
                            != fcs.subrange(s - 1, s as int) {
                            if changed.len() < s {
                                None
                            } else {
                                Some((mark_check_field(with_error, s), mark_check_field(changed, s), 2))
                            }
                        } else {
                            Some((mark_check_field(with_error, s), mark_check_field(changed + fcs, s), 1))
                        }
                    }
                }
            },
        }
    }
}

/// Flipping keeps length and ASCII.
pub proof fn lemma_flip_ascii(a: Seq<char>, i: int)
    requires
        is_ascii_chars(a),
        0 <= i < a.len(),
    ensures
        is_ascii_chars(flip_at(a, i)),
        flip_at(a, i).len() == a.len(),
{
    assert forall|k: int| 0 <= k < a.len() implies '\0' <= #[trigger] flip_at(a, i)[k] <= '\u{7f}' by {
        if k != i {
            assert(flip_at(a, i)[k] == a[k]);
        }
    }
}

/// A distortion keeps length and ASCII.
pub proof fn lemma_distortion_ascii(a: Seq<char>, b: Seq<char>)
    requires
        is_ascii_chars(a),
        is_distortion(a, b),
    ensures
        is_ascii_chars(b),
        b.len() == a.len(),
{
    if b != a {
        if exists|i: int| 0 <= i < a.len() && b == flip_at(a, i) {
            let i = choose|i: int| 0 <= i < a.len() && b == flip_at(a, i);
            lemma_flip_ascii(a, i);
        } else {
            let (i, j) = choose|i: int, j: int|
                0 <= i < a.len() && 0 <= j < a.len() && b == flip_at(flip_at(a, i), j);
            lemma_flip_ascii(a, i);
            lemma_flip_ascii(flip_at(a, i), j);
        }
    }
}

/// Up to a data length of `0x3fff_ffe1`, thirty check bits suffice.
pub proof fn lemma_check_count_small(len: nat)
    requires
        len <= 0x3fff_ffe1,
    ensures
        check_count(len) <= 30,
{
    lemma_check_count(len);
    let r = check_count(len);
    if r > 30 {
        lemma_power2_minus_exp_mono(30, (r - 1) as nat);
        reveal_with_fuel(power, 31);
    }
}

/// The number of check characters that the receiver takes from a frame body of
/// `len` characters.
fn received_check_size(len: usize) -> (s: usize)
    requires
        len <= 0x3fff_0000,
    ensures
        s == received_check_len(len as nat),
        len != 3 ==> is_received_check_len(len as nat, s as nat),
        1 <= s <= 31,
{
    if len == 3 {
        return 3;
    }
    let mut s: usize = 1;
    proof {
        lemma_power2_step(0);
    }
    while (two_to_the(s - 1) as u64) < len as u64
        invariant
            len <= 0x3fff_0000,
            1 <= s <= 31,
            s == 1 || power(2, (s - 2) as nat) < len,
        decreases 31 - s,
    {
        proof {
            if s == 31 {
                reveal_with_fuel(power, 31);
            }
        }
        s += 1;
    }
    proof {
        lemma_received_check_len_unique(len as nat, s as nat);
    }
    s
}

/// The receiver's decoding of the Hamming-coded frame `rframe`, where its data reads
/// `data` after transmission: exactly `decode_with`, `None` where that has no result.
pub fn decode_hamming_with(rframe: String, data: String) -> (out: Option<(String, String, i32)>)
    requires
        is_ascii_chars(rframe@),
        is_ascii_chars(data@),
        rframe@.len() <= 0x3fff_0000,
        data@.len() <= 0x3fff_0000,
    ensures
        match decode_with(rframe@, data@) {
            Some(r) => out matches Some(o) && o.0@ == r.0 && o.1@ == r.1 && o.2 == r.2,
            None => out is None,
        },
{
    let f = chars_of(rframe.as_str());
    let total = f.len();
    if total < 20 {
        return None;
    }
    let zeros: [char; 4] = ['0', '0', '0', '0'];
    assert(zeros@ =~= zero_address());
    if window_eq(&f, 16, &zeros) {
        return Some((rframe.clone(), rframe, 0));
    }
    let len = total - 20;
    if len == 1 {
        return Some((String::new(), String::new(), 0));
    }
    let s = received_check_size(len);
    if s > len {
        return None;
    }
    assert(hamming_split(rframe@) == Some(s as nat));
    let d = chars_of(data.as_str());
    let fcs_start = total - s;
    let mut fcs: Vec<char> = Vec::new();
    extend_range(&mut fcs, &f, fcs_start, total);
    let mut with_error: Vec<char> = Vec::new();
    extend_range(&mut with_error, &f, 0, 20);
    extend_range(&mut with_error, &d, 0, d.len());
    extend_range(&mut with_error, &f, fcs_start, total);
    assert(d@.subrange(0, d@.len() as int) =~= d@);
    let ghost head = rframe@.subrange(0, 20);
    assert(with_error@ =~= head + data@ + fcs@);
    proof {
        lemma_ascii_subrange(rframe@, 0, 20);
        lemma_ascii_subrange(rframe@, fcs_start as int, total as int);
        lemma_ascii_add(head, data@);
        lemma_ascii_add(head + data@, fcs@);
        lemma_check_count(d@.len());
        lemma_check_count_small(d@.len());
    }
    let check_string = encode_hamming(data.clone());
    let check = chars_of(check_string.as_str());
    if chars_equal(&check, &fcs) {
        let frame = frame_for_print(rframe, s);
        return Some((frame.clone(), frame, 0));
    }
    if check.len() < s - 1 {
        return None;
    }
    let mut index: usize = 0;
    let mut i: usize = 0;
    while i < s - 1
        invariant
            1 <= s <= 31,
            fcs@.len() == s,
            check@.len() >= s - 1,
            i <= s - 1,
            index == syndrome(fcs@, check@, i as nat),
            index < power(2, i as nat),
        decreases s - 1 - i,
    {
        proof {
            lemma_power2_step(i as nat);
            lemma_power2_mono(i as nat, 29);
            reveal_with_fuel(power, 30);
        }
        if fcs[i] != check[i] {
            index = index + two_to_the(i) as usize;
        }
        i += 1;
    }
    let r = check.len() - 1;
    proof {
        lemma_check_positions(d@.len(), r as nat);
        lemma_layout_ascii(d@, (r + d@.len()) as nat);
    }
    let hamming_string = make_hamming_string(data.clone(), r);
    let mut hs = chars_of(hamming_string.as_str());
    let with_error_string = string_of(&with_error);
    if index == 1 || index == 2 || index == 4 || index == 8 || index == 16 || index > hs.len() {
        let frame = frame_for_print(with_error_string, s);
        return Some((frame.clone(), frame, 2));
    }
    if index == 0 {
        return None;
    }
    let ghost hs0 = hs@;
    flip_chars(&mut hs, index - 1);
    proof {
        lemma_flip_ascii(hs0, index - 1);
    }
    let mut changed: Vec<char> = Vec::new();
    extend_range(&mut changed, &f, 0, 20);
    let mut k: usize = 0;
    while k < hs.len()
        invariant
            k <= hs@.len(),
            is_ascii_chars(hs@),
            is_ascii_chars(changed@),
            changed@ == head + drop_char(hs@.subrange(0, k as int), 'x'),
        decreases hs@.len() - k,
    {
        assert(hs@.subrange(0, k + 1).drop_last() =~= hs@.subrange(0, k as int));
        if hs[k] != 'x' {
            let ghost before = changed@;
            changed.push(hs[k]);
            assert forall|j: int| 0 <= j < changed@.len() implies '\0' <= #[trigger] changed@[j] <= '\u{7f}' by {
                if j < before.len() {
                    assert(changed@[j] == before[j]);
                }
            }
        }
        k += 1;
    }
    assert(hs@.subrange(0, hs@.len() as int) =~= hs@);
    let changed_string = string_of(&changed);
    let parity_string = data_parity(changed_string.clone());
    let parity = chars_of(parity_string.as_str());
    assert(fcs@.subrange(s - 1, s as int) =~= seq![f@[total - 1]]);
    if parity[0] != f[total - 1] {
        if changed.len() < s {
            return None;
        }
        let frame_with_error = frame_for_print(with_error_string, s);
        let frame = frame_for_print(changed_string, s);
        Some((frame_with_error, frame, 2))
    } else {
        let ghost before = changed@;
        extend_range(&mut changed, &fcs, 0, s);
        assert(fcs@.subrange(0, s as int) =~= fcs@);
        proof {
            lemma_ascii_add(before, fcs@);
        }
        let frame_with_error = frame_for_print(with_error_string, s);
        let frame = frame_for_print(string_of(&changed), s);
        Some((frame_with_error, frame, 1))
    }
}

/// A decoding result as character sequences.
pub open spec fn decoded_view(out: Option<(String, String, i32)>) -> Option<(Seq<char>, Seq<char>, int)> {
    match out {
        Some(o) => Some((o.0@, o.1@, o.2 as int)),
        None => None,
    }
}

/// Whether the receiver decodes `rframe` without a draw: its length field reads `0000`,
/// or its body is a single character. Such frames carry no data to distort.
pub open spec fn draws_nothing(rframe: Seq<char>) -> bool {
    rframe.subrange(16, 20) == zero_address() || rframe.len() == 21
}

/// Whether `o` is a possible result of the receiver's decoding of `rframe`. A frame
/// decoded without a draw has the one result `decode_with` gives it. Any other frame
/// has what `decode_with` gives for some distortion of its data, or no result, where
/// `decode_with` has none for some distortion or the data is empty (there is nothing
/// to flip).
pub open spec fn hamming_outcome(rframe: Seq<char>, o: Option<(Seq<char>, Seq<char>, int)>) -> bool {
    if draws_nothing(rframe) {
        o == decode_with(rframe, Seq::empty())
    } else {
        match o {
            Some(r) => exists|d: Seq<char>|
                is_distortion(received_data(rframe), d) && #[trigger] decode_with(rframe, d) == Some(r),
            None => received_data(rframe).len() == 0 || exists|d: Seq<char>|
                is_distortion(received_data(rframe), d) && #[trigger] decode_with(rframe, d) is None,
        }
    }
}

/// The receiver's decoding of a Hamming-coded frame, with the line's random distortion
/// of the frame's data (none, one or two flipped characters) applied first.
///
/// The result is `decode_with` on the frame and some distortion of its data. Frames of
/// length field `0000` and frames with a one-character body carry no data and are
/// decoded without a distortion. `None` where the distortion drawn leaves the frame
/// undecodable, or asks to flip a character of empty data.
pub fn decode_hamming(rframe: String) -> (out: Option<(String, String, i32)>)
    requires
        is_ascii_chars(rframe@),
        rframe@.len() <= 0x3fff_0000,
        extractable(rframe@),
    ensures
        hamming_outcome(rframe@, decoded_view(out)),
        draws_nothing(rframe@) ==> decoded_view(out) == decode_with(rframe@, Seq::empty()),
        draws_nothing(rframe@) ==> out is Some,
{
    let f = chars_of(rframe.as_str());
    let total = f.len();
    let zeros: [char; 4] = ['0', '0', '0', '0'];
    assert(zeros@ =~= zero_address());
    if window_eq(&f, 16, &zeros) || total == 21 {
        let out = decode_hamming_with(rframe, String::new());
        return out;
    }
    let len = total - 20;
    let s = received_check_size(len);
    assert(s <= len) by {
        if len != 3 && s >= 3 {
            lemma_power2_double((s - 2) as nat);
        }
    }
    assert(hamming_split(rframe@) == Some(s as nat));
    let mut data_chars: Vec<char> = Vec::new();
    extend_range(&mut data_chars, &f, 20, total - s);
    let data = string_of(&data_chars);
    proof {
        lemma_ascii_subrange(rframe@, 20, total - s);
    }
    match random_distortion(data) {
        None => None,
        Some(distorted) => {
            proof {
                lemma_distortion_ascii(received_data(rframe@), distorted@);
            }
            let out = decode_hamming_with(rframe, distorted);
            proof {
                assert(is_distortion(received_data(rframe@), distorted@));
            }
            out
        },
    }
}

} // verus!
