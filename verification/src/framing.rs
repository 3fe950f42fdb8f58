//! Cutting a message into packets of sixteen characters, and the received stream
//! into frames.
//!
//! The sender drops the message's last character (the line end), cuts the rest into
//! packets of sixteen characters with the length field `1111`, and, unless the rest
//! is exactly sixteen characters long, sends one more packet with what is left and
//! its length in four binary digits (`0000` where nothing is left).
//!
//! The receiver scans the stream for the flag `01110111`. The first flag opens a
//! frame; the next flag closes it (the frame runs up to that flag) and is remembered
//! as the start of what follows, which the flag after it replaces. What is left
//! when fewer than eight characters remain is the last frame.

use vstd::prelude::*;
use crate::hamming::bit_char;
use crate::outside::power;
use crate::packet::{is_bit, lemma_well_made_ascii, packet_chars, well_made, PacketView};
use vstd::utf8::is_ascii_chars;
use crate::stuffing::{flag, stuffing_pattern};
use crate::text::{extend_range, push_char, string_of, window_eq};

verus! {

/// The four binary digits of `x`, most significant first.
pub open spec fn length_bits(x: nat) -> Seq<char> {
    Seq::new(4, |j: int| bit_char((x as int / power(2, (3 - j) as nat)) % 2 == 1))
}

/// The length field of a packet with `x` data characters: `x` in four binary digits.
pub fn length_field(x: usize) -> (field: String)
    requires
        x < 16,
    ensures
        field@ == length_bits(x as nat),
{
    let mut field = String::new();
    let mut weight: usize = 8;
    let mut j: usize = 0;
    proof {
        reveal_with_fuel(power, 4);
    }
    while j < 4
        invariant
            x < 16,
            j <= 4,
            weight == power(2, (3 - j) as nat) || j == 4,
            field@ == length_bits(x as nat).subrange(0, j as int),
        decreases 4 - j,
    {
        proof {
            reveal_with_fuel(power, 4);
        }
        let bit = (x / weight) % 2 == 1;
        push_char(&mut field, if bit { '1' } else { '0' });
        assert(field@ =~= length_bits(x as nat).subrange(0, j + 1));
        weight = weight / 2;
        j += 1;
    }
    assert(field@ =~= length_bits(x as nat));
    field
}

/// The number of packets that carry a message of `n` characters (its line end left
/// out): one per sixteen characters, and one more for the rest unless `n` is sixteen.
pub open spec fn packet_count(n: nat) -> nat {
    n / 16 + if n == 16 {
        0nat
    } else {
        1nat
    }
}

/// The data of packet `i` of the message `m` (its line end left out).
pub open spec fn chunk_data(m: Seq<char>, i: nat) -> Seq<char> {
    if i < m.len() / 16 {
        m.subrange(16 * i as int, 16 * i + 16 as int)
    } else {
        m.subrange(16 * (m.len() / 16) as int, m.len() as int)
    }
}

/// The length field of packet `i` of the message `m` (its line end left out).
pub open spec fn chunk_length(m: Seq<char>, i: nat) -> Seq<char> {
    if i < m.len() / 16 {
        seq!['1', '1', '1', '1']
    } else {
        length_bits(m.len() % 16)
    }
}

/// Packet `i` of the message `m` (its line end left out), as a packet is made: the
/// flag, both addresses `0000` and the check field `0`.
pub open spec fn chunk_packet(m: Seq<char>, i: nat) -> PacketView {
    PacketView {
        data: chunk_data(m, i),
        flag: flag(),
        destination_address: crate::packet::zero_address(),
        source_address: crate::packet::zero_address(),
        length: chunk_length(m, i),
        fcs: seq!['0'],
    }
}

/// The data of the first `k` packets of `m`, one after another.
pub open spec fn chunks_joined(m: Seq<char>, k: nat) -> Seq<char>
    decreases k,
{
    if k == 0 {
        Seq::empty()
    } else {
        chunks_joined(m, (k - 1) as nat) + chunk_data(m, (k - 1) as nat)
    }
}

/// The full packets of a message hold its first sixteen characters each.
proof fn lemma_chunks_joined_full(m: Seq<char>, k: nat)
    requires
        k <= m.len() / 16,
    ensures
        chunks_joined(m, k) == m.subrange(0, 16 * k as int),
    decreases k,
{
    if k > 0 {
        lemma_chunks_joined_full(m, (k - 1) as nat);
        assert(m.subrange(0, 16 * (k - 1)) + m.subrange(16 * (k - 1), 16 * (k - 1) + 16) =~= m.subrange(
            0,
            16 * k as int,
        ));
    }
}

/// The packets of a message give back the message: their data, one after another,
/// is the message without its line end.
pub proof fn lemma_packets_rebuild_message(m: Seq<char>)
    ensures
        chunks_joined(m, packet_count(m.len())) == m,
{
    let full = m.len() / 16;
    lemma_chunks_joined_full(m, full);
    if m.len() == 16 {
        assert(m.subrange(0, 16) =~= m);
    } else {
        assert(m.subrange(0, 16 * full as int) + m.subrange(16 * full as int, m.len() as int) =~= m);
    }
}

/// Whether the receiver can take a frame apart: twenty characters at least (flag,
/// addresses and length field), and more than that unless the length field reads
/// `0000`.
pub open spec fn extractable(frame: Seq<char>) -> bool {
    frame.len() >= 20 && (frame.subrange(16, 20) == crate::packet::zero_address() || frame.len() > 20)
}

/// Whether the stuffing pattern `0111011` occurs in `s` at or after `from`.
pub open spec fn contains_pattern(s: Seq<char>, from: nat) -> bool {
    exists|i: int| from <= i && i + 7 <= s.len() && #[trigger] s.subrange(i, i + 7) == stuffing_pattern()
}

/// Whether the stuffing pattern occurs in `v` at or after `from`.
pub fn has_stuffing_pattern(v: &[char], from: usize) -> (r: bool)
    ensures
        r == contains_pattern(v@, from as nat),
{
    let pattern: [char; 7] = ['0', '1', '1', '1', '0', '1', '1'];
    assert(pattern@ =~= stuffing_pattern());
    let n = v.len();
    if n < 7 {
        return false;
    }
    let mut i: usize = from;
    while i <= n - 7
        invariant
            n == v@.len(),
            n >= 7,
            from <= i,
            pattern@ == stuffing_pattern(),
            forall|j: int| from <= j < i && j + 7 <= n ==> #[trigger] v@.subrange(j, j + 7)
                != stuffing_pattern(),
        decreases n - i,
    {
        if window_eq(v, i, &pattern) {
            return true;
        }
        i += 1;
    }
    false
}

/// The frames that the receiver cuts from `input`, as pairs of start and end, where
/// the scan stands at `start`, the current frame began at `start_frame`, and
/// `open` tells whether a frame is open.
pub open spec fn frame_cuts_from(input: Seq<char>, start: nat, start_frame: nat, open: bool) -> Seq<(int, int)>
    decreases input.len() - start,
{
    if start + 8 > input.len() {
        seq![(start_frame as int, input.len() as int)]
    } else if input.subrange(start as int, start + 8 as int) == flag() {
        if !open {
            frame_cuts_from(input, start + 8, start, true)
        } else {
            seq![(start_frame as int, start as int)] + frame_cuts_from(input, start + 8, start, false)
        }
    } else {
        frame_cuts_from(input, start + 1, start_frame, open)
    }
}

/// The frames that the receiver cuts from `input`, as pairs of start and end.
pub open spec fn frame_cuts(input: Seq<char>) -> Seq<(int, int)> {
    frame_cuts_from(input, 0, 0, false)
}

/// Every cut lies within the input, its start before its end.
proof fn lemma_cuts_bounded(input: Seq<char>, start: nat, start_frame: nat, open: bool)
    requires
        start_frame <= start,
        start_frame <= input.len(),
    ensures
        frame_cuts_from(input, start, start_frame, open).len() >= 1,
        forall|i: int|
            0 <= i < frame_cuts_from(input, start, start_frame, open).len() ==> 0 <= (
            #[trigger] frame_cuts_from(input, start, start_frame, open)[i]).0 <= frame_cuts_from(
                input,
                start,
                start_frame,
                open,
            )[i].1 <= input.len(),
    decreases input.len() - start,
{
    if start + 8 > input.len() {
    } else if input.subrange(start as int, start + 8 as int) == flag() {
        lemma_cuts_bounded(input, start + 8, start, !open);
    } else {
        lemma_cuts_bounded(input, start + 1, start_frame, open);
    }
}

/// The cuts of the received stream, as pairs of start and end.
pub fn cut_frames(input: &[char]) -> (cuts: Vec<(usize, usize)>)
    ensures
        cuts@.len() == frame_cuts(input@).len(),
        cuts@.len() >= 1,
        forall|i: int|
            0 <= i < cuts@.len() ==> (#[trigger] cuts@[i]).0 == frame_cuts(input@)[i].0 && cuts@[i].1
                == frame_cuts(input@)[i].1 && cuts@[i].0 <= cuts@[i].1 <= input@.len(),
{
    let flag_chars: [char; 8] = ['0', '1', '1', '1', '0', '1', '1', '1'];
    assert(flag_chars@ =~= flag());
    let n = input.len();
    let mut cuts: Vec<(usize, usize)> = Vec::new();
    let mut start: usize = 0;
    let mut start_frame: usize = 0;
    let mut open = false;
    let ghost all = frame_cuts(input@);
    proof {
        lemma_cuts_bounded(input@, 0, 0, false);
    }
    while n - start >= 8
        invariant
            n == input@.len(),
            flag_chars@ == flag(),
            start_frame <= start <= n,
            all == frame_cuts(input@),
            ({
                let rest = frame_cuts_from(input@, start as nat, start_frame as nat, open);
                &&& cuts@.len() + rest.len() == all.len()
                &&& forall|i: int|
                    0 <= i < cuts@.len() ==> (#[trigger] cuts@[i]).0 == all[i].0 && cuts@[i].1
                        == all[i].1
                &&& forall|i: int| 0 <= i < rest.len() ==> #[trigger] rest[i] == all[cuts@.len() + i]
            }),
        decreases n - start,
    {
        let ghost before = cuts@;
        let ghost rest = frame_cuts_from(input@, start as nat, start_frame as nat, open);
        if window_eq(input, start, &flag_chars) {
            if !open {
                start_frame = start;
                open = true;
            } else {
                cuts.push((start_frame, start));
                let ghost next = frame_cuts_from(input@, (start + 8) as nat, start as nat, false);
                assert(rest == seq![(start_frame as int, start as int)] + next);
                assert(rest[0] == all[before.len() as int]);
                assert forall|i: int| 0 <= i < next.len() implies #[trigger] next[i] == all[cuts@.len() + i] by {
                    assert(rest[i + 1] == next[i]);
                }
                open = false;
                start_frame = start;
            }
            start = start + 8;
        } else {
            start = start + 1;
        }
    }
    cuts.push((start_frame, n));
    proof {
        let rest = frame_cuts_from(input@, start as nat, start_frame as nat, open);
        assert(rest == seq![(start_frame as int, n as int)]);
        assert(rest[0] == all[cuts@.len() - 1]);
        lemma_cuts_bounded(input@, 0, 0, false);
        assert forall|i: int| 0 <= i < cuts@.len() implies (#[trigger] cuts@[i]).0 <= cuts@[i].1 <= n by {
            assert(0 <= all[i].0 <= all[i].1 <= n);
        }
    }
    cuts
}

/// The characters of `v` from `from` up to `to`, as a string.
pub fn cut_string(v: &Vec<char>, from: usize, to: usize) -> (s: String)
    requires
        from <= to <= v@.len(),
    ensures
        s@ == v@.subrange(from as int, to as int),
{
    let mut part: Vec<char> = Vec::new();
    extend_range(&mut part, v, from, to);
    string_of(&part)
}

/// Whether the flag occurs in `input` exactly at the positions `starts`: the first at
/// 0, each at least eight after the one before, all within `input`.
pub open spec fn flags_exactly_at(input: Seq<char>, starts: Seq<int>) -> bool {
    &&& starts.len() >= 1
    &&& starts[0] == 0
    &&& forall|i: int, j: int| 0 <= i < j < starts.len() ==> #[trigger] starts[i] + 8 <= #[trigger] starts[j]
    &&& forall|i: int| 0 <= i < starts.len() ==> #[trigger] starts[i] + 8 <= input.len()
    &&& forall|j: int|
        0 <= j && j + 8 <= input.len() ==> (#[trigger] input.subrange(j, j + 8) == flag() <==> exists|
            i: int,
        | 0 <= i < starts.len() && starts[i] == j)
}

/// The frames that the receiver takes from a stream whose flags stand at `starts`:
/// the frames with even index (each up to the next flag), and the last frame (up to
/// the end). The frames with odd index, but for the last, are lost.
pub open spec fn received_cuts(starts: Seq<int>, len: int) -> Seq<(int, int)> {
    Seq::new(starts.len() / 2, |i: int| (starts[2 * i], starts[2 * i + 1])).push(
        (starts.last(), len),
    )
}

/// The scan's course over the flags at `starts`, from flag `m` on.
spec fn cuts_over_flags(starts: Seq<int>, len: int, m: nat, start_frame: int, open: bool) -> Seq<
    (int, int),
>
    decreases starts.len() - m,
{
    if m >= starts.len() {
        seq![(start_frame, len)]
    } else if !open {
        cuts_over_flags(starts, len, m + 1, starts[m as int], true)
    } else {
        seq![(start_frame, starts[m as int])] + cuts_over_flags(starts, len, m + 1, starts[m as int], false)
    }
}

/// Where no flag starts in `[p, q)`, the scan passes from `p` to `q` unchanged.
proof fn lemma_scan_skips(input: Seq<char>, p: nat, q: nat, start_frame: nat, open: bool)
    requires
        p <= q,
        q + 8 <= input.len(),
        forall|j: int| p <= j < q ==> #[trigger] input.subrange(j, j + 8) != flag(),
    ensures
        frame_cuts_from(input, p, start_frame, open) == frame_cuts_from(input, q, start_frame, open),
    decreases q - p,
{
    if p < q {
        assert(input.subrange(p as int, p + 8 as int) != flag());
        lemma_scan_skips(input, p + 1, q, start_frame, open);
    }
}

/// Where no flag starts from `p` on, the scan ends with the frame from `start_frame`
/// to the end.
proof fn lemma_scan_to_end(input: Seq<char>, p: nat, start_frame: nat, open: bool)
    requires
        forall|j: int| p <= j && j + 8 <= input.len() ==> #[trigger] input.subrange(j, j + 8) != flag(),
    ensures
        frame_cuts_from(input, p, start_frame, open) == seq![(start_frame as int, input.len() as int)],
    decreases input.len() - p,
{
    if p + 8 <= input.len() {
        assert(input.subrange(p as int, p + 8 as int) != flag());
        lemma_scan_to_end(input, p + 1, start_frame, open);
    }
}

/// From flag `m` on, the scan takes the course over the flags.
proof fn lemma_scan_over_flags(input: Seq<char>, starts: Seq<int>, m: nat, start_frame: nat, open: bool)
    requires
        flags_exactly_at(input, starts),
        m < starts.len(),
        start_frame <= input.len(),
    ensures
        frame_cuts_from(input, starts[m as int] as nat, start_frame, open) == cuts_over_flags(
            starts,
            input.len() as int,
            m,
            start_frame as int,
            open,
        ),
    decreases starts.len() - m,
{
    let p = starts[m as int];
    if m > 0 {
        assert(starts[0] + 8 <= starts[m as int]);
    }
    assert(p >= 0);
    assert(input.subrange(p, p + 8) == flag());
    let next = (p + 8) as nat;
    assert(p + 8 <= input.len());
    if !open {
        assert(frame_cuts_from(input, p as nat, start_frame, open) == frame_cuts_from(input, next, p as nat, true));
    } else {
        assert(frame_cuts_from(input, p as nat, start_frame, open) == seq![(start_frame as int, p)]
            + frame_cuts_from(input, next, p as nat, false));
    }
    if m + 1 < starts.len() {
        let q = starts[m + 1 as int];
        assert forall|j: int| next <= j < q implies #[trigger] input.subrange(j, j + 8) != flag() by {
            if input.subrange(j, j + 8) == flag() {
                let i = choose|i: int| 0 <= i < starts.len() && starts[i] == j;
                if i <= m {
                    if i < m {
                        assert(starts[i] + 8 <= starts[m as int]);
                    }
                } else if i > m + 1 {
                    assert(starts[m + 1 as int] + 8 <= starts[i]);
                }
            }
        }
        assert(p + 8 <= q);
        lemma_scan_skips(input, next, q as nat, p as nat, !open);
        lemma_scan_over_flags(input, starts, m + 1, p as nat, !open);
        assert(frame_cuts_from(input, next, p as nat, !open) == cuts_over_flags(
            starts,
            input.len() as int,
            m + 1,
            p,
            !open,
        ));
    } else {
        assert forall|j: int| next <= j && j + 8 <= input.len() implies #[trigger] input.subrange(j, j + 8)
            != flag() by {
            if input.subrange(j, j + 8) == flag() {
                let i = choose|i: int| 0 <= i < starts.len() && starts[i] == j;
                if i < m {
                    assert(starts[i] + 8 <= starts[m as int]);
                }
            }
        }
        lemma_scan_to_end(input, next, p as nat, !open);
        assert(cuts_over_flags(starts, input.len() as int, m + 1, p, !open) == seq![(p, input.len() as int)]);
    }
    if !open {
        assert(cuts_over_flags(starts, input.len() as int, m, start_frame as int, open) == cuts_over_flags(
            starts,
            input.len() as int,
            m + 1,
            p,
            true,
        ));
    } else {
        assert(cuts_over_flags(starts, input.len() as int, m, start_frame as int, open) == seq![
            (start_frame as int, p),
        ] + cuts_over_flags(starts, input.len() as int, m + 1, p, false));
    }
}

/// From a flag of even index on, with no frame open, the course over the flags gives
/// the frames with even index and the last frame.
proof fn lemma_course_over_flags(starts: Seq<int>, len: int, m: nat)
    requires
        m < starts.len(),
        m % 2 == 0,
    ensures
        cuts_over_flags(starts, len, m, if m == 0 { 0 } else { starts[m - 1] }, false) == Seq::new(
            ((starts.len() - m) / 2) as nat,
            |i: int| (starts[m + 2 * i], starts[m + 2 * i + 1]),
        ).push((starts.last(), len)),
    decreases starts.len() - m,
{
    let k = starts.len();
    let expected = Seq::new(
        ((k - m) / 2) as nat,
        |i: int| (starts[m + 2 * i], starts[m + 2 * i + 1]),
    ).push((starts.last(), len));
    if m + 1 == k {
        assert(cuts_over_flags(starts, len, m + 1, starts[m as int], true) == seq![(starts[m as int], len)]);
        assert(expected =~= seq![(starts.last(), len)]);
    } else {
        assert(cuts_over_flags(starts, len, m + 1, starts[m as int], true) == seq![
            (starts[m as int], starts[m + 1 as int]),
        ] + cuts_over_flags(starts, len, m + 2, starts[m + 1 as int], false));
        if m + 2 == k {
            assert(cuts_over_flags(starts, len, m + 2, starts[m + 1 as int], false) == seq![(starts[m + 1 as int], len)]);
            assert(expected =~= seq![(starts[m as int], starts[m + 1 as int]), (starts.last(), len)]);
        } else {
            lemma_course_over_flags(starts, len, m + 2);
            let rest = Seq::new(
                ((k - m - 2) / 2) as nat,
                |i: int| (starts[m + 2 + 2 * i], starts[m + 2 + 2 * i + 1]),
            ).push((starts.last(), len));
            assert(expected =~= seq![(starts[m as int], starts[m + 1 as int])] + rest);
        }
    }
}

/// What the receiver cuts from a stream of frames: where the flag stands exactly at
/// the frames' starts, it takes the frames with even index, each up to the next flag,
/// and the last frame, up to the end of the stream.
pub proof fn lemma_cuts_of_flagged_stream(input: Seq<char>, starts: Seq<int>)
    requires
        flags_exactly_at(input, starts),
    ensures
        frame_cuts(input) == received_cuts(starts, input.len() as int),
{
    lemma_scan_over_flags(input, starts, 0, 0, false);
    lemma_course_over_flags(starts, input.len() as int, 0);
    assert(Seq::new((starts.len() / 2) as nat, |i: int| (starts[0 + 2 * i], starts[0 + 2 * i + 1])) =~= Seq::new(
        starts.len() / 2,
        |i: int| (starts[2 * i], starts[2 * i + 1]),
    ));
}

/// A length field is four binary digits, `0000` exactly for an empty packet.
pub proof fn lemma_length_bits(x: nat)
    requires
        x < 16,
    ensures
        forall|j: int| 0 <= j < 4 ==> is_bit(#[trigger] length_bits(x)[j]),
        (length_bits(x) == crate::packet::zero_address()) == (x == 0),
{
    reveal_with_fuel(power, 4);
    if length_bits(x) == crate::packet::zero_address() {
        assert(length_bits(x)[0] == '0' && length_bits(x)[1] == '0' && length_bits(x)[2] == '0'
            && length_bits(x)[3] == '0');
        assert(x as int / 8 % 2 == 0 && x as int / 4 % 2 == 0 && x as int / 2 % 2 == 0 && x as int / 1 % 2 == 0);
    }
    if x == 0 {
        assert(length_bits(x) =~= crate::packet::zero_address());
    }
}

/// Every packet of an ASCII message is well made and serialises to ASCII.
pub proof fn lemma_chunk_packet_ascii(m: Seq<char>, i: nat)
    requires
        is_ascii_chars(m),
    ensures
        well_made(chunk_packet(m, i)),
        is_ascii_chars(packet_chars(chunk_packet(m, i))),
{
    let p = chunk_packet(m, i);
    if i >= m.len() / 16 {
        lemma_length_bits(m.len() % 16);
    }
    assert(16 * (m.len() / 16) <= m.len()) by (nonlinear_arith);
    if i < m.len() / 16 {
        assert(16 * i + 16 <= m.len()) by (nonlinear_arith)
            requires
                i < m.len() / 16,
        ;
        crate::text::lemma_ascii_subrange(m, 16 * i as int, 16 * i + 16 as int);
    } else {
        crate::text::lemma_ascii_subrange(m, 16 * (m.len() / 16) as int, m.len() as int);
    }
    lemma_well_made_ascii(p);
}

} // verus!
