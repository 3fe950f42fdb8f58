//! What the receiver's Hamming decoding does with the frames that the sender codes:
//! an undistorted frame decodes with no error, one flipped character is corrected,
//! and two flipped characters are found and not corrected.

use vstd::prelude::*;
use crate::hamming::{
    check_count, checks_below, covered_ones, decode_with, flip_at, hamming_fcs, hamming_split,
    is_check_count, is_power_of_two, is_received_check_len, layout, lemma_check_count,
    lemma_check_count_unique, lemma_check_positions, lemma_checks_below_growth, lemma_flip_ascii,
    lemma_layout_ascii, lemma_layout_index, lemma_power2_double, lemma_power2_step,
    lemma_received_check_len_unique, mark_check_field, ones, received_data, syndrome,
};
use crate::outside::power;
use crate::packet::zero_address;
use crate::text::{drop_char, lemma_ascii_add, lemma_ascii_drop_char, lemma_ascii_subrange};
use vstd::utf8::is_ascii_chars;

verus! {

/// The covered ones among the first `n` characters depend on those characters only.
pub proof fn lemma_covered_ones_prefix(a: Seq<char>, b: Seq<char>, p: nat, n: nat)
    requires
        n <= a.len(),
        n <= b.len(),
        forall|j: int| 0 <= j < n ==> a[j] == b[j],
    ensures
        covered_ones(a, p, n) == covered_ones(b, p, n),
    decreases n,
{
    if n > 0 {
        lemma_covered_ones_prefix(a, b, p, (n - 1) as nat);
    }
}

/// A `0` appended to the data changes no check bit where it needs no further check bit.
pub proof fn lemma_hamming_fcs_zero_extension(d: Seq<char>)
    requires
        check_count(d.len() + 1) == check_count(d.len()),
    ensures
        hamming_fcs(d.push('0')) == hamming_fcs(d),
{
    let n = d.len();
    let e = d.push('0');
    let r = check_count(n);
    lemma_check_count(n);
    lemma_check_count(n + 1);
    lemma_check_positions(n, r);
    lemma_check_positions(n + 1, r);
    let hs = layout(d, r + n);
    let he = layout(e, r + n + 1);
    assert forall|j: int| 0 <= j < r + n implies he[j] == hs[j] by {
        if !is_power_of_two((j + 1) as nat) {
            lemma_layout_index(n, r + n, j as nat);
        }
    }
    assert(checks_below(r + n + 1) == checks_below(r + n) + if is_power_of_two(r + n + 1) {
        1nat
    } else {
        0nat
    });
    assert(he[(r + n) as int] == '0');
    assert forall|i: int| 0 <= i < r implies #[trigger] covered_ones(he, power(2, i as nat) as nat, r + n + 1)
        == covered_ones(hs, power(2, i as nat) as nat, r + n) by {
        lemma_covered_ones_prefix(he, hs, power(2, i as nat) as nat, r + n);
    }
    assert(e.drop_last() =~= d);
    assert(ones(e) == ones(d));
    assert(hamming_fcs(e) =~= hamming_fcs(d));
}

/// Flipping a binary character at `q` changes the parity of the ones that check bit `p`
/// covers among the first `n` characters exactly where `q` lies among them and is covered.
pub proof fn lemma_flip_covered(a: Seq<char>, q: int, p: nat, n: nat)
    requires
        0 <= q < a.len(),
        n <= a.len(),
        a[q] == '0' || a[q] == '1',
        p >= 1,
    ensures
        (covered_ones(flip_at(a, q), p, n) % 2 != covered_ones(a, p, n) % 2) == (q < n && ((q + 1)
            / (p as int)) % 2 == 1),
    decreases n,
{
    if n > 0 {
        lemma_flip_covered(a, q, p, (n - 1) as nat);
        if n - 1 != q {
            assert(flip_at(a, q)[n - 1] == a[n - 1]);
        }
    }
}

/// Flipping a binary character changes the parity of the ones.
pub proof fn lemma_flip_ones(a: Seq<char>, q: int)
    requires
        0 <= q < a.len(),
        a[q] == '0' || a[q] == '1',
    ensures
        ones(flip_at(a, q)) % 2 != ones(a) % 2,
    decreases a.len(),
{
    if q == a.len() - 1 {
        assert(flip_at(a, q).drop_last() =~= a.drop_last());
    } else {
        assert(flip_at(a, q).drop_last() =~= flip_at(a.drop_last(), q));
        lemma_flip_ones(a.drop_last(), q);
    }
}

/// Where check `i` of `fcs` and `check` differs exactly where bit `i` of `x` is set,
/// their syndrome over `m` checks is `x` modulo `2^m`.
pub proof fn lemma_syndrome_bits(fcs: Seq<char>, check: Seq<char>, x: nat, m: nat)
    requires
        fcs.len() >= m,
        check.len() >= m,
        forall|i: int| 0 <= i < m ==> (#[trigger] fcs[i] != check[i]) == ((x as int / power(2, i as nat)) % 2 == 1),
    ensures
        syndrome(fcs, check, m) == x % (power(2, m) as nat),
    decreases m,
{
    if m == 0 {
        assert(power(2, 0) == 1);
        assert(x % 1 == 0) by (nonlinear_arith);
    } else {
        let k = (m - 1) as nat;
        lemma_syndrome_bits(fcs, check, x, k);
        lemma_power2_step(k);
        let pk = power(2, k);
        assert(fcs[k as int] != check[k as int] <==> (x as int / pk) % 2 == 1);
        vstd::arithmetic::div_mod::lemma_mod_breakdown(x as int, pk, 2);
        assert(pk * 2 == power(2, m));
    }
}

/// Dropping the check marks from a layout gives the data laid out so far.
pub proof fn lemma_drop_x_layout(e: Seq<char>, n: nat)
    requires
        n - checks_below(n) <= e.len(),
        forall|j: int| 0 <= j < e.len() ==> e[j] != 'x',
    ensures
        checks_below(n) <= n,
        drop_char(layout(e, n), 'x') == e.subrange(0, n - checks_below(n)),
    decreases n,
{
    lemma_checks_below_growth(0, n);
    assert(checks_below(0) == 0);
    if n == 0 {
        assert(layout(e, 0) =~= Seq::<char>::empty());
    } else {
        let m = (n - 1) as nat;
        lemma_checks_below_growth(0, m);
        lemma_drop_x_layout(e, m);
        assert(layout(e, n).drop_last() =~= layout(e, m));
        if !is_power_of_two(n) {
            assert(layout(e, n).last() == e[m - checks_below(m)]);
            assert(e.subrange(0, m - checks_below(m)).push(e[m - checks_below(m)]) =~= e.subrange(
                0,
                n - checks_below(n),
            ));
        }
    }
}

/// Every data index below `n - checks_below(n)` has its data position among the first
/// `n` positions.
pub proof fn lemma_data_position(n: nat, k: int)
    requires
        0 <= k < n - checks_below(n),
    ensures
        exists|q: int| 0 <= q < n && !is_power_of_two((q + 1) as nat) && q - #[trigger] checks_below(q as nat) == k,
    decreases n,
{
    let m = (n - 1) as nat;
    lemma_checks_below_growth(0, n);
    assert(checks_below(0) == 0);
    if k < m - checks_below(m) {
        lemma_data_position(m, k);
        let q = choose|q: int| 0 <= q < m && !is_power_of_two((q + 1) as nat) && q - #[trigger] checks_below(q as nat) == k;
        assert(0 <= q < n);
    } else {
        assert(!is_power_of_two(n));
        assert(m - checks_below(m) == k);
    }
}

/// Data positions lie in the order of their data indices.
pub proof fn lemma_data_position_order(j: nat, q: nat)
    requires
        j < q,
        !is_power_of_two(j + 1),
    ensures
        j - checks_below(j) < q - checks_below(q),
{
    assert(checks_below(j + 1) == checks_below(j));
    lemma_checks_below_growth(j + 1, q);
}

/// Flipping the data character at index `k` flips the layout at `k`'s data position.
pub proof fn lemma_layout_flip(e: Seq<char>, n: nat, k: int, q: int)
    requires
        0 <= k < e.len(),
        0 <= q < n,
        !is_power_of_two((q + 1) as nat),
        q - checks_below(q as nat) == k,
        n - checks_below(n) <= e.len(),
        checks_below(n) <= n,
    ensures
        layout(flip_at(e, k), n) == flip_at(layout(e, n), q),
{
    assert forall|j: int| 0 <= j < n implies #[trigger] layout(flip_at(e, k), n)[j] == flip_at(
        layout(e, n),
        q,
    )[j] by {
        if !is_power_of_two((j + 1) as nat) {
            lemma_layout_index(e.len(), n, j as nat);
            if j < q {
                lemma_data_position_order(j as nat, q as nat);
            } else if q < j {
                lemma_data_position_order(q as nat, j as nat);
            }
        }
    }
    assert(layout(flip_at(e, k), n) =~= flip_at(layout(e, n), q));
}

/// Whether every character of `e` is a binary digit.
pub open spec fn is_binary(e: Seq<char>) -> bool {
    forall|j: int| 0 <= j < e.len() ==> e[j] == '0' || e[j] == '1'
}

/// The frame that carries the data `e` after the twenty characters of `header`,
/// followed by the check field of `e`.
pub open spec fn coded_frame_of(header: Seq<char>, e: Seq<char>) -> Seq<char> {
    header + e + hamming_fcs(e)
}

/// An undistorted coded frame decodes with no error.
///
/// A frame of twenty header characters whose length field is not `0000`, nonempty
/// data `e` and the check field of `e` is taken apart by the receiver into `e` and
/// the check field; undistorted, it decodes with no error, the frame unchanged with
/// its check field marked.
pub proof fn lemma_coded_frame_clean(header: Seq<char>, e: Seq<char>)
    requires
        header.len() == 20,
        header.subrange(16, 20) != zero_address(),
        e.len() >= 1,
    ensures
        ({
            let frame = coded_frame_of(header, e);
            let s = check_count(e.len()) + 1;
            &&& hamming_split(frame) == Some(s)
            &&& received_data(frame) == e
            &&& decode_with(frame, e) == Some(
                (mark_check_field(frame, s), mark_check_field(frame, s), 0int),
            )
        }),
{
    let n = e.len();
    let r = check_count(n);
    let frame = coded_frame_of(header, e);
    let len = n + r + 1;
    lemma_check_count(n);
    assert(r >= 2) by {
        reveal_with_fuel(power, 2);
    }
    lemma_power2_step((r - 1) as nat);
    assert(frame.len() == 20 + len);
    assert(frame.subrange(16, 20) =~= header.subrange(16, 20));
    assert(is_received_check_len(len, r + 1));
    lemma_received_check_len_unique(len, r + 1);
    assert(hamming_split(frame) == Some(r + 1));
    assert(frame.subrange(20, frame.len() - (r + 1)) =~= e);
    assert(frame.subrange(frame.len() - (r + 1), frame.len() as int) =~= hamming_fcs(e));
}

/// The check fields of two binary data strings that differ in one character name the
/// layout position of that character.
///
/// Where `e` is binary and the character at `k` is flipped, the parity bits of the two
/// check fields differ, and the sum of `2^i` over the check bits `i` in which they
/// differ is one more than the position `q` of that character in the layout: the
/// position whose data index is `k`, which is no check position.
pub proof fn lemma_syndrome_names_position(e: Seq<char>, k: int) -> (q: int)
    requires
        is_binary(e),
        0 <= k < e.len(),
    ensures
        ({
            let r = check_count(e.len());
            let n = r + e.len();
            let h = hamming_fcs(e);
            let check = hamming_fcs(flip_at(e, k));
            &&& 0 <= q < n && !is_power_of_two((q + 1) as nat) && q - checks_below(q as nat) == k
            &&& layout(flip_at(e, k), n) == flip_at(layout(e, n), q)
            &&& layout(e, n)[q] == e[k]
            &&& h.len() == r + 1 && check.len() == r + 1
            &&& check[r as int] != h[r as int]
            &&& syndrome(h, check, r) == q + 1
        }),
{
    let n0 = e.len();
    let r = check_count(n0);
    let big_n = r + n0;
    let h = hamming_fcs(e);
    lemma_check_count(n0);
    lemma_check_positions(n0, r);
    lemma_checks_below_growth(0, big_n);
    assert(checks_below(0) == 0);
    lemma_data_position(big_n, k);
    let q = choose|q: int|
        0 <= q < big_n && !is_power_of_two((q + 1) as nat) && q - #[trigger] checks_below(q as nat) == k;
    lemma_layout_flip(e, big_n, k, q);
    let received = flip_at(e, k);
    let he = layout(e, big_n);
    assert(he[q] == e[k]);
    let check = hamming_fcs(received);
    assert(received.len() == n0);
    assert(check_count(received.len()) == r);
    lemma_flip_ones(e, k);
    assert(check[r as int] != h[r as int]);
    assert forall|i: int| 0 <= i < r implies (#[trigger] h[i] != check[i]) == (((q + 1) as nat as int
        / power(2, i as nat)) % 2 == 1) by {
        lemma_power2_step(i as nat);
        lemma_flip_covered(he, q, power(2, i as nat) as nat, big_n);
    }
    lemma_syndrome_bits(h, check, (q + 1) as nat, r);
    lemma_power2_step(r);
    vstd::arithmetic::div_mod::lemma_small_mod((q + 1) as nat, power(2, r) as nat);
    q
}

/// One flipped character of a coded frame is corrected.
///
/// Take a frame of twenty header characters whose length field is not `0000`, binary
/// data `e` and the check field of `e`. If the line flips any one character of `e`,
/// the receiver reports one corrected error, shows the frame as received, and gives
/// back the frame as sent.
#[verifier::spinoff_prover]
#[verifier::rlimit(60)]
pub proof fn lemma_coded_single_error(header: Seq<char>, e: Seq<char>, k: int)
    requires
        header.len() == 20,
        header.subrange(16, 20) != zero_address(),
        is_binary(e),
        0 <= k < e.len(),
    ensures
        ({
            let frame = coded_frame_of(header, e);
            let s = check_count(e.len()) + 1;
            let received = flip_at(e, k);
            decode_with(frame, received) == Some(
                (
                    mark_check_field(header + received + hamming_fcs(e), s),
                    mark_check_field(frame, s),
                    1int,
                ),
            )
        }),
{
    let n = e.len();
    let r = check_count(n);
    let h = hamming_fcs(e);
    let frame = coded_frame_of(header, e);
    let s = r + 1;
    let received = flip_at(e, k);
    let big_n = r + n;
    lemma_coded_frame_clean(header, e);
    let q = lemma_syndrome_names_position(e, k);
    lemma_check_count(n);
    lemma_check_positions(n, r);
    assert(frame.subrange(0, 20) =~= header);
    assert(frame.subrange(frame.len() - s, frame.len() as int) =~= h);
    let he = layout(e, big_n);
    let hr = layout(received, big_n);
    let check = hamming_fcs(received);
    assert(check != h);
    // the positions 1, 2, 4, 8 and 16 are check positions
    assert(is_power_of_two(1) && is_power_of_two(2) && is_power_of_two(4) && is_power_of_two(8)
        && is_power_of_two(16)) by {
        reveal_with_fuel(is_power_of_two, 6);
    }
    // the correction flips the received layout back
    assert(flip_at(hr, q) =~= he);
    assert forall|j: int| 0 <= j < e.len() implies e[j] != 'x' by {
        assert(e[j] == '0' || e[j] == '1');
    }
    lemma_drop_x_layout(e, big_n);
    assert(e.subrange(0, big_n - checks_below(big_n)) =~= e);
    let changed = header + e;
    assert(changed.subrange(20, changed.len() as int) =~= e);
    assert(h.subrange(s - 1, s as int) =~= seq![h[r as int]]);
    assert(header + received + h =~= frame.subrange(0, 20) + received + h);
    assert(changed + h =~= frame);
}

/// A frame that the sender Hamming-codes (twenty header characters whose length field
/// is not `0000`, the data `d`, the packet's check field `0`, and the check bits of
/// `d`), where that `0` needs no further check bit, is the coded frame of `d` and
/// that `0`: the receiver takes it apart into them and the check bits, and,
/// undistorted, it decodes with no error, the frame unchanged with its check bits
/// marked.
pub proof fn lemma_clean_frame_decodes(header: Seq<char>, d: Seq<char>)
    requires
        header.len() == 20,
        header.subrange(16, 20) != zero_address(),
        check_count(d.len() + 1) == check_count(d.len()),
    ensures
        ({
            let frame = header + d.push('0') + hamming_fcs(d);
            let s = check_count(d.len()) + 1;
            &&& frame == coded_frame_of(header, d.push('0'))
            &&& hamming_split(frame) == Some(s)
            &&& received_data(frame) == d.push('0')
            &&& decode_with(frame, d.push('0')) == Some(
                (mark_check_field(frame, s), mark_check_field(frame, s), 0int),
            )
        }),
{
    lemma_hamming_fcs_zero_extension(d);
    assert(d.push('0').len() == d.len() + 1);
    lemma_coded_frame_clean(header, d.push('0'));
}

/// One flipped character is corrected.
///
/// Take a frame that the sender Hamming-codes from binary data `d` (twenty header
/// characters whose length field is not `0000`, `d`, the packet's check field `0`,
/// and the check bits of `d`), where that `0` needs no further check bit. If the line
/// flips any one character of the data that the receiver takes from it (`d` and the
/// `0`), the receiver reports one corrected error, shows the frame as received, and
/// gives back the frame as sent.
pub proof fn lemma_single_error_corrected(header: Seq<char>, d: Seq<char>, k: int)
    requires
        header.len() == 20,
        header.subrange(16, 20) != zero_address(),
        check_count(d.len() + 1) == check_count(d.len()),
        forall|j: int| 0 <= j < d.len() ==> d[j] == '0' || d[j] == '1',
        0 <= k <= d.len(),
    ensures
        ({
            let frame = header + d.push('0') + hamming_fcs(d);
            let s = check_count(d.len()) + 1;
            let received = flip_at(d.push('0'), k);
            decode_with(frame, received) == Some(
                (
                    mark_check_field(header + received + hamming_fcs(d), s),
                    mark_check_field(frame, s),
                    1int,
                ),
            )
        }),
{
    let e = d.push('0');
    lemma_hamming_fcs_zero_extension(d);
    assert(e.len() == d.len() + 1);
    assert forall|j: int| 0 <= j < e.len() implies e[j] == '0' || e[j] == '1' by {
        if j < d.len() {
            assert(e[j] == d[j]);
        }
    }
    lemma_coded_single_error(header, e, k);
}

/// Numbers that agree in every bit below `m` agree modulo `2^m`.
pub proof fn lemma_bits_agree(x: nat, y: nat, m: nat)
    requires
        forall|i: int|
            0 <= i < m ==> ((x as int / #[trigger] power(2, i as nat)) % 2 == 1) == ((y as int / power(
                2,
                i as nat,
            )) % 2 == 1),
    ensures
        x % (power(2, m) as nat) == y % (power(2, m) as nat),
    decreases m,
{
    if m == 0 {
        assert(power(2, 0) == 1);
        assert(x % 1 == 0 && y % 1 == 0) by (nonlinear_arith);
    } else {
        let k = (m - 1) as nat;
        lemma_bits_agree(x, y, k);
        lemma_power2_step(k);
        let pk = power(2, k);
        assert((x as int / pk) % 2 == 1 <==> (y as int / pk) % 2 == 1);
        vstd::arithmetic::div_mod::lemma_mod_breakdown(x as int, pk, 2);
        vstd::arithmetic::div_mod::lemma_mod_breakdown(y as int, pk, 2);
        assert(pk * 2 == power(2, m));
    }
}

/// A syndrome of zero means no check differs.
pub proof fn lemma_syndrome_zero(fcs: Seq<char>, check: Seq<char>, m: nat, i: int)
    requires
        syndrome(fcs, check, m) == 0,
        0 <= i < m,
    ensures
        fcs[i] == check[i],
    decreases m,
{
    lemma_power2_step((m - 1) as nat);
    if i < m - 1 {
        lemma_syndrome_zero(fcs, check, (m - 1) as nat, i);
    }
}

/// The powers of two below 32.
pub proof fn lemma_small_powers_of_two(x: nat)
    requires
        is_power_of_two(x),
        x < 32,
    ensures
        x == 1 || x == 2 || x == 4 || x == 8 || x == 16,
    decreases x,
{
    if x != 1 {
        lemma_small_powers_of_two(x / 2);
    }
}

/// The layout positions of two different flipped data characters, and the layout of
/// the twice-flipped data.
pub proof fn lemma_two_flips_layout(e: Seq<char>, n: nat, k1: int, k2: int) -> (q: (int, int))
    requires
        n - checks_below(n) == e.len(),
        checks_below(n) <= n,
        0 <= k1 < e.len(),
        0 <= k2 < e.len(),
        k1 != k2,
    ensures
        0 <= q.0 < n && !is_power_of_two((q.0 + 1) as nat) && q.0 - checks_below(q.0 as nat) == k1,
        0 <= q.1 < n && !is_power_of_two((q.1 + 1) as nat) && q.1 - checks_below(q.1 as nat) == k2,
        q.0 != q.1,
        layout(e, n)[q.0] == e[k1],
        layout(e, n)[q.1] == e[k2],
        layout(flip_at(e, k1), n) == flip_at(layout(e, n), q.0),
        layout(flip_at(flip_at(e, k1), k2), n) == flip_at(flip_at(layout(e, n), q.0), q.1),
{
    lemma_data_position(n, k1);
    let q1 = choose|q: int|
        0 <= q < n && !is_power_of_two((q + 1) as nat) && q - #[trigger] checks_below(q as nat) == k1;
    lemma_data_position(n, k2);
    let q2 = choose|q: int|
        0 <= q < n && !is_power_of_two((q + 1) as nat) && q - #[trigger] checks_below(q as nat) == k2;
    lemma_layout_flip(e, n, k1, q1);
    lemma_layout_flip(flip_at(e, k1), n, k2, q2);
    (q1, q2)
}

/// Two different flipped binary characters leave the parity bit as it was and change
/// at least one other check bit.
pub proof fn lemma_two_flips_checks(e: Seq<char>, k1: int, k2: int)
    requires
        is_binary(e),
        0 <= k1 < e.len(),
        0 <= k2 < e.len(),
        k1 != k2,
    ensures
        ({
            let e2 = flip_at(flip_at(e, k1), k2);
            let r = check_count(e.len());
            &&& e2.len() == e.len()
            &&& is_binary(e2)
            &&& hamming_fcs(e2).len() == r + 1
            &&& hamming_fcs(e2)[r as int] == hamming_fcs(e)[r as int]
            &&& syndrome(hamming_fcs(e), hamming_fcs(e2), r) != 0
            &&& hamming_fcs(e2) != hamming_fcs(e)
        }),
{
    let n = e.len();
    let r = check_count(n);
    let h = hamming_fcs(e);
    let big_n = r + n;
    let e1 = flip_at(e, k1);
    let e2 = flip_at(e1, k2);
    lemma_check_count(n);
    lemma_check_positions(n, r);
    lemma_checks_below_growth(0, big_n);
    assert(checks_below(0) == 0);
    assert forall|j: int| 0 <= j < e2.len() implies e2[j] == '0' || e2[j] == '1' by {
        if j != k2 {
            assert(e2[j] == e1[j]);
            if j != k1 {
                assert(e1[j] == e[j]);
            }
        }
    }
    let (q1, q2) = lemma_two_flips_layout(e, big_n, k1, k2);
    let he = layout(e, big_n);
    let he1 = flip_at(he, q1);
    assert(he1[q2] == he[q2]);
    let check = hamming_fcs(e2);
    assert(check_count(e2.len()) == r);
    lemma_flip_ones(e, k1);
    assert(e1[k2] == e[k2]);
    lemma_flip_ones(e1, k2);
    assert forall|i: int| 0 <= i < r implies (#[trigger] h[i] != check[i]) == ((((q1 + 1) as nat as int
        / power(2, i as nat)) % 2 == 1) != (((q2 + 1) as nat as int / power(2, i as nat)) % 2 == 1)) by {
        lemma_power2_step(i as nat);
        lemma_flip_covered(he, q1, power(2, i as nat) as nat, big_n);
        lemma_flip_covered(he1, q2, power(2, i as nat) as nat, big_n);
    }
    lemma_power2_step(r);
    if forall|i: int| 0 <= i < r ==> h[i] == check[i] {
        assert forall|i: int| 0 <= i < r implies ((((q1 + 1) as nat as int / #[trigger] power(2, i as nat))
            % 2 == 1) == (((q2 + 1) as nat as int / power(2, i as nat)) % 2 == 1)) by {
            assert(h[i] == check[i]);
        }
        lemma_bits_agree((q1 + 1) as nat, (q2 + 1) as nat, r);
        vstd::arithmetic::div_mod::lemma_small_mod((q1 + 1) as nat, power(2, r) as nat);
        vstd::arithmetic::div_mod::lemma_small_mod((q2 + 1) as nat, power(2, r) as nat);
    }
    let i0 = choose|i: int| 0 <= i < r && h[i] != check[i];
    if syndrome(h, check, r) == 0 {
        lemma_syndrome_zero(h, check, r, i0);
    }
    assert(h[i0] != check[i0]);
}

/// Two flipped characters of a coded frame are found and not corrected.
///
/// Take a frame of twenty header characters whose length field is not `0000`, binary
/// data `e` and the check field of `e`, with fewer than 32 positions in the layout of
/// `e`. If the line flips two different characters of `e`, the receiver reports an
/// error that it did not correct, and shows the frame as received.
#[verifier::spinoff_prover]
pub proof fn lemma_coded_double_error(header: Seq<char>, e: Seq<char>, k1: int, k2: int)
    requires
        header.len() == 20,
        header.subrange(16, 20) != zero_address(),
        check_count(e.len()) + e.len() < 32,
        is_binary(e),
        0 <= k1 < e.len(),
        0 <= k2 < e.len(),
        k1 != k2,
    ensures
        ({
            let frame = coded_frame_of(header, e);
            let received = flip_at(flip_at(e, k1), k2);
            let s = check_count(e.len()) + 1;
            decode_with(frame, received) matches Some(r) && r.2 == 2 && r.0 == mark_check_field(
                header + received + hamming_fcs(e),
                s,
            )
        }),
{
    let n = e.len();
    let r = check_count(n);
    let h = hamming_fcs(e);
    let frame = coded_frame_of(header, e);
    let s = r + 1;
    let big_n = r + n;
    let e2 = flip_at(flip_at(e, k1), k2);
    lemma_coded_frame_clean(header, e);
    lemma_two_flips_checks(e, k1, k2);
    lemma_check_count(n);
    lemma_check_positions(n, r);
    lemma_checks_below_growth(0, big_n);
    assert(checks_below(0) == 0);
    assert(frame.subrange(0, 20) =~= header);
    assert(frame.subrange(frame.len() - s, frame.len() as int) =~= h);
    assert(header + e2 + h =~= frame.subrange(0, 20) + e2 + h);
    let check = hamming_fcs(e2);
    assert(check != h);
    let index = syndrome(h, check, r);
    assert(is_power_of_two(1) && is_power_of_two(2) && is_power_of_two(4) && is_power_of_two(8)
        && is_power_of_two(16)) by {
        reveal_with_fuel(is_power_of_two, 6);
    }
    let hs = layout(e2, big_n);
    if !(index == 1 || index == 2 || index == 4 || index == 8 || index == 16 || index > hs.len()) {
        // the position named by the syndrome holds data
        let t = index - 1;
        if is_power_of_two(index) {
            lemma_small_powers_of_two(index);
        }
        assert(!is_power_of_two((t + 1) as nat));
        lemma_layout_index(n, big_n, t as nat);
        let k3 = t - checks_below(t as nat);
        lemma_layout_flip(e2, big_n, k3, t);
        let e3 = flip_at(e2, k3);
        assert forall|j: int| 0 <= j < e3.len() implies e3[j] != 'x' by {
            if j != k3 {
                assert(e3[j] == e2[j]);
            }
        }
        lemma_drop_x_layout(e3, big_n);
        assert(e3.subrange(0, big_n - checks_below(big_n)) =~= e3);
        // flipping it a third time changes the data parity
        lemma_flip_ones(e2, k3);
        let changed = header + e3;
        assert(changed.subrange(20, changed.len() as int) =~= e3);
        assert(h.subrange(s - 1, s as int) =~= seq![h[r as int]]);
        lemma_power2_double((r - 1) as nat);
        assert(changed.len() >= s);
    }
}

/// Two flipped characters are found and not corrected.
///
/// Take a frame that the sender Hamming-codes from binary data `d` as in
/// `lemma_single_error_corrected`, with fewer than 32 positions in its layout (as every
/// packet of up to sixteen characters has). If the line flips two different characters
/// of the data that the receiver takes from it, the receiver reports an error that it
/// did not correct.
pub proof fn lemma_double_error_detected(header: Seq<char>, d: Seq<char>, k1: int, k2: int)
    requires
        header.len() == 20,
        header.subrange(16, 20) != zero_address(),
        check_count(d.len() + 1) == check_count(d.len()),
        check_count(d.len()) + d.len() + 1 < 32,
        forall|j: int| 0 <= j < d.len() ==> d[j] == '0' || d[j] == '1',
        0 <= k1 <= d.len(),
        0 <= k2 <= d.len(),
        k1 != k2,
    ensures
        ({
            let frame = header + d.push('0') + hamming_fcs(d);
            let received = flip_at(flip_at(d.push('0'), k1), k2);
            decode_with(frame, received) matches Some(r) && r.2 == 2
        }),
{
    let e = d.push('0');
    lemma_hamming_fcs_zero_extension(d);
    assert(e.len() == d.len() + 1);
    assert forall|j: int| 0 <= j < e.len() implies e[j] == '0' || e[j] == '1' by {
        if j < d.len() {
            assert(e[j] == d[j]);
        }
    }
    lemma_coded_double_error(header, e, k1, k2);
}

/// Marking the check field keeps ASCII.
pub proof fn lemma_mark_ascii(x: Seq<char>, k: nat)
    requires
        is_ascii_chars(x),
        k <= x.len(),
    ensures
        is_ascii_chars(mark_check_field(x, k)),
{
    lemma_ascii_subrange(x, 0, x.len() - k);
    lemma_ascii_subrange(x, x.len() - k, x.len() as int);
    lemma_ascii_add(x.subrange(0, x.len() - k), seq!['|']);
    lemma_ascii_add(x.subrange(0, x.len() - k) + seq!['|'], x.subrange(x.len() - k, x.len() as int));
}

/// The receiver's decoding of ASCII characters gives ASCII characters.
#[verifier::spinoff_prover]
pub proof fn lemma_decode_ascii(rframe: Seq<char>, d: Seq<char>)
    requires
        is_ascii_chars(rframe),
        is_ascii_chars(d),
        decode_with(rframe, d) is Some,
    ensures
        is_ascii_chars(decode_with(rframe, d).unwrap().0),
        is_ascii_chars(decode_with(rframe, d).unwrap().1),
{
    if rframe.subrange(16, 20) != zero_address() && rframe.len() != 21 {
        let s = hamming_split(rframe).unwrap();
        let fcs = rframe.subrange(rframe.len() - s, rframe.len() as int);
        let head = rframe.subrange(0, 20);
        lemma_ascii_subrange(rframe, 0, 20);
        lemma_ascii_subrange(rframe, rframe.len() - s, rframe.len() as int);
        lemma_ascii_add(head, d);
        lemma_ascii_add(head + d, fcs);
        lemma_mark_ascii(rframe, s);
        lemma_mark_ascii(head + d + fcs, s);
        let check = hamming_fcs(d);
        if check != fcs && check.len() >= s - 1 {
            let index = syndrome(fcs, check, (s - 1) as nat);
            let r = check_count(d.len());
            lemma_check_count(d.len());
            lemma_check_positions(d.len(), r);
            let hs = layout(d, (check.len() - 1 + d.len()) as nat);
            lemma_layout_ascii(d, (r + d.len()) as nat);
            if 1 <= index <= hs.len() {
                lemma_flip_ascii(hs, index - 1);
                lemma_ascii_drop_char(flip_at(hs, index - 1), 'x');
                let changed = head + drop_char(flip_at(hs, index - 1), 'x');
                lemma_ascii_add(head, drop_char(flip_at(hs, index - 1), 'x'));
                lemma_ascii_add(changed, fcs);
                if s <= changed.len() {
                    lemma_mark_ascii(changed, s);
                }
                lemma_mark_ascii(changed + fcs, s);
            }
        }
    }
}

} // verus!
