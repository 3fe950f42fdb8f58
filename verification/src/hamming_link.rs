//! The link of the Hamming program: a frame carries the check bits of its data,
//! unless the stuffing pattern occurs in it, in which case it is stuffed and carries
//! a `0` instead. The receiver undoes the stuffing, or checks and corrects the data.

use vstd::prelude::*;
use crate::framing::{
    chunk_packet, contains_pattern, cut_frames, cut_string, extractable, flags_exactly_at,
    frame_cuts, has_stuffing_pattern, lemma_chunk_packet_ascii, lemma_cuts_of_flagged_stream,
    length_field, packet_count, received_cuts,
};
use crate::hamming::{
    check_count, decode_hamming, decode_with, decoded_view, encode_hamming, flip_at, hamming_fcs,
    hamming_outcome, hamming_split, is_distortion, lemma_distortion_ascii, mark_check_field,
    received_data as received_data_of,
};
use crate::hamming_laws::{
    lemma_clean_frame_decodes, lemma_decode_ascii, lemma_double_error_detected,
    lemma_single_error_corrected,
};
use crate::packet::{
    is_bit, lemma_packet_chars_ascii, packet_chars, well_made, zero_address, Packet, PacketView,
};
use crate::stuffing::{
    bit_staffing, flag, lemma_receiver_undoes_stuffing, lemma_scan_avoids, lemma_scan_keeps_pattern,
    lemma_staffed_append_zero, lemma_staffed_ascii, staffed, stuff_from, stuffing_pattern,
    try_bit_staffing,
};
use crate::stuffing_link::lemma_stuffed_packet_received;
use crate::text::{
    chars_of, drop_char, extend_range, lemma_ascii_subrange, lemma_drop_char_absent, string_of,
    window_eq,
};
use vstd::utf8::is_ascii_chars;

verus! {

/// The frame that the sender puts on the line for packet `p`: its serialised form,
/// stuffed (step 7, symbol `0`) and followed by `0` where the stuffing pattern occurs
/// after its ninth character, and otherwise followed by the check bits of its data.
pub open spec fn coded_frame(p: PacketView) -> Seq<char> {
    let s = packet_chars(p);
    if contains_pattern(s, 9) {
        staffed(s, 7, seq!['0']).unwrap() + seq!['0']
    } else {
        s + hamming_fcs(p.data)
    }
}

/// The frame that the sender puts on the line for `packet`.
pub fn encode_packet(packet: Packet) -> (frame: String)
    requires
        packet_chars(packet@).len() >= 9,
        is_ascii_chars(packet_chars(packet@)),
        packet@.data.len() <= 0x3fff_ffe1,
    ensures
        frame@ == coded_frame(packet@),
{
    let mut send_packet = packet.as_string();
    let v = chars_of(send_packet.as_str());
    let fcs: String;
    if has_stuffing_pattern(&v, 9) {
        proof {
            reveal_strlit("0");
            assert("0"@ == seq!['0']);
            lemma_receiver_undoes_stuffing(send_packet@);
        }
        send_packet = bit_staffing(send_packet, 7, "0");
        fcs = String::from_str("0");
    } else {
        proof {
            lemma_packet_chars_ascii(packet@);
        }
        fcs = encode_hamming(packet.data().clone());
    }
    send_packet.append(fcs.as_str());
    send_packet
}

/// The frames that the sender puts on the line for the message `data`, one per
/// packet, in order (see `framing`).
pub fn frames_to_send(data: String) -> (frames: Vec<String>)
    requires
        1 <= data@.len() <= 0x100_0001,
        is_ascii_chars(data@),
    ensures
        frames@.len() == packet_count((data@.len() - 1) as nat),
        forall|i: int|
            0 <= i < frames@.len() ==> #[trigger] frames@[i]@ == coded_frame(
                chunk_packet(data@.drop_last(), i as nat),
            ),
{
    let v = chars_of(data.as_str());
    let n = v.len() - 1;
    let ghost m = data@.drop_last();
    let full = n / 16;
    proof {
        crate::text::lemma_ascii_subrange(data@, 0, data@.len() - 1);
        assert(data@.subrange(0, data@.len() - 1) =~= m);
    }
    let mut frames: Vec<String> = Vec::new();
    let mut k: usize = 0;
    proof {
        reveal_strlit("1111");
    }
    assert("1111"@ == seq!['1', '1', '1', '1']);
    while k < full
        invariant
            v@ == data@,
            1 <= data@.len(),
            is_ascii_chars(data@),
            "1111"@ == seq!['1', '1', '1', '1'],
            n == m.len(),
            m == data@.drop_last(),
            is_ascii_chars(m),
            full == n / 16,
            k <= full,
            frames@.len() == k,
            forall|i: int|
                0 <= i < k ==> #[trigger] frames@[i]@ == coded_frame(chunk_packet(m, i as nat)),
        decreases full - k,
    {
        assert(16 * k + 16 <= n) by (nonlinear_arith)
            requires
                k < full,
                full == n / 16,
        ;
        let mut chunk: Vec<char> = Vec::new();
        extend_range(&mut chunk, &v, 16 * k, 16 * k + 16);
        assert(chunk@ =~= m.subrange(16 * k as int, 16 * k + 16 as int));
        assert forall|j: int| 0 <= j < chunk@.len() implies '\0' <= #[trigger] chunk@[j] <= '\u{7f}' by {
            assert(chunk@[j] == data@[16 * k + j]);
        }
        let packet = Packet::new(string_of(&chunk), String::from_str("1111"));
        assert(packet@ == chunk_packet(m, k as nat));
        proof {
            lemma_chunk_packet_ascii(m, k as nat);
        }
        frames.push(encode_packet(packet));
        k += 1;
    }
    if n != 16 {
        assert(16 * full <= n) by (nonlinear_arith)
            requires
                full == n / 16,
        ;
        let mut chunk: Vec<char> = Vec::new();
        extend_range(&mut chunk, &v, 16 * full, n);
        assert(chunk@ =~= m.subrange(16 * full as int, n as int));
        assert forall|j: int| 0 <= j < chunk@.len() implies '\0' <= #[trigger] chunk@[j] <= '\u{7f}' by {
            assert(chunk@[j] == data@[16 * full + j]);
        }
        assert(n - 16 * full == n % 16);
        let packet = Packet::new(string_of(&chunk), length_field(n - 16 * full));
        assert(packet@ == chunk_packet(m, full as nat));
        proof {
            lemma_chunk_packet_ascii(m, full as nat);
        }
        frames.push(encode_packet(packet));
    }
    frames
}

/// The position of the first `|` in `x` from `from` on, or the length of `x`.
pub open spec fn first_bar(x: Seq<char>, from: nat) -> nat
    decreases x.len() - from,
{
    if from >= x.len() {
        x.len()
    } else if x[from as int] == '|' {
        from
    } else {
        first_bar(x, from + 1)
    }
}

/// The data that the receiver takes from a decoded frame: a line end alone for a
/// frame of length field `0000`; otherwise the characters after the length field
/// without the last one, up to the first `|`, the `b` marks left out, and a line end.
pub open spec fn coded_frame_data(frame: Seq<char>) -> Seq<char> {
    if frame.subrange(16, 20) == zero_address() {
        seq!['\n']
    } else {
        let buffer = frame.subrange(20, frame.len() - 1);
        drop_char(buffer.subrange(0, first_bar(buffer, 0) as int), 'b').push('\n')
    }
}

/// The data that the receiver takes from a decoded frame.
pub fn get_data_from_frame(frame: String) -> (udata: String)
    requires
        is_ascii_chars(frame@),
        extractable(frame@),
    ensures
        udata@ == coded_frame_data(frame@),
{
    let f = chars_of(frame.as_str());
    let zeros: [char; 4] = ['0', '0', '0', '0'];
    assert(zeros@ =~= zero_address());
    let mut out: Vec<char> = Vec::new();
    if window_eq(&f, 16, &zeros) {
        out.push('\n');
        assert(out@ =~= seq!['\n']);
        return string_of(&out);
    }
    let end = f.len() - 1;
    let ghost buffer = f@.subrange(20, end as int);
    let mut i: usize = 20;
    while i < end
        invariant
            20 <= i <= end,
            end == f@.len() - 1,
            buffer == f@.subrange(20, end as int),
            first_bar(buffer, 0) == first_bar(buffer, (i - 20) as nat),
            out@ == drop_char(buffer.subrange(0, i - 20), 'b'),
        ensures
            out@ == drop_char(buffer.subrange(0, first_bar(buffer, 0) as int), 'b'),
        decreases end - i,
    {
        if f[i] == '|' {
            assert(first_bar(buffer, (i - 20) as nat) == i - 20);
            break;
        }
        assert(buffer.subrange(0, i + 1 - 20).drop_last() =~= buffer.subrange(0, i - 20));
        if f[i] != 'b' {
            out.push(f[i]);
        }
        i += 1;
        proof {
            if i == end {
                assert(first_bar(buffer, (i - 20) as nat) == buffer.len());
                assert(buffer.subrange(0, buffer.len() as int) =~= buffer);
            }
        }
    }
    out.push('\n');
    string_of(&out)
}

/// Whether `o` is a possible result of the receiver's decoding of `frame`: the
/// marking of a stuffed frame (shown twice, with no error), or a possible result of
/// its Hamming decoding.
pub open spec fn frame_outcome(frame: Seq<char>, o: Option<(Seq<char>, Seq<char>, int)>) -> bool {
    if contains_pattern(frame, 9) {
        let marked = staffed(frame, 8, seq!['b']).unwrap();
        o == Some((marked, marked, 0int))
    } else {
        hamming_outcome(frame, o)
    }
}

/// Whether the receiver's decoding of `frame` runs to an end, whatever the line did
/// to it: nine characters at least; a stuffed frame can be marked; any other frame
/// can be taken apart.
pub open spec fn frame_decodable(frame: Seq<char>) -> bool {
    &&& is_ascii_chars(frame)
    &&& frame.len() <= 0x3fff_0000
    &&& frame.len() >= 9
    &&& contains_pattern(frame, 9) ==> staffed(frame, 8, seq!['b']) is Some
    &&& !contains_pattern(frame, 9) ==> extractable(frame)
}

/// The receiver's decoding of a frame: a stuffed frame is marked (step 8, marker `b`),
/// any other frame is checked and corrected after the line's random distortion.
pub fn decode_frame(frame: String) -> (out: Option<(String, String, i32)>)
    requires
        frame_decodable(frame@),
    ensures
        frame_outcome(frame@, decoded_view(out)),
{
    let f = chars_of(frame.as_str());
    if has_stuffing_pattern(&f, 9) {
        proof {
            reveal_strlit("b");
            assert("b"@ == seq!['b']);
        }
        let received_frame = bit_staffing(frame, 8, "b");
        return Some((received_frame.clone(), received_frame, 0));
    }
    decode_hamming(frame)
}

/// A marked frame is one character longer than the frame.
proof fn lemma_mark_len(frame: Seq<char>, k: nat)
    requires
        k <= frame.len(),
    ensures
        mark_check_field(frame, k).len() == frame.len() + 1,
{
}

/// The receiver can take data from every decoding result of a frame that it can take
/// apart, unless the frame's body is a single character.
proof fn lemma_outcome_extractable(frame: Seq<char>, d: Seq<char>)
    requires
        extractable(frame),
        frame.subrange(16, 20) == zero_address() || frame.len() != 21,
        decode_with(frame, d) is Some,
    ensures
        extractable(decode_with(frame, d).unwrap().1),
{
    if frame.subrange(16, 20) != zero_address() {
        let s = hamming_split(frame).unwrap();
        let fcs = frame.subrange(frame.len() - s, frame.len() as int);
        let head = frame.subrange(0, 20);
        lemma_mark_len(frame, s);
        lemma_mark_len(head + d + fcs, s);
    }
}

/// The receiver can take data from every possible decoding result of a cut that it
/// can decode.
proof fn lemma_outcome_usable(seg: Seq<char>, o: (Seq<char>, Seq<char>, int))
    requires
        cut_decodable(seg),
        frame_outcome(seg, Some(o)),
    ensures
        extractable(o.1),
        is_ascii_chars(o.1),
{
    if contains_pattern(seg, 9) {
        lemma_staffed_ascii(seg, 8, seq!['b']);
    } else {
        let d = choose|d: Seq<char>|
            is_distortion(received_data_of(seg), d) && #[trigger] decode_with(seg, d) == Some(o);
        lemma_outcome_extractable(seg, d);
        if hamming_split(seg) is Some {
            let s = hamming_split(seg).unwrap();
            lemma_ascii_subrange(seg, 20, seg.len() - s);
        }
        lemma_distortion_ascii(received_data_of(seg), d);
        lemma_decode_ascii(seg, d);
    }
}

/// Whether the receiver can decode the cut `seg` and take data from every result.
pub open spec fn cut_decodable(seg: Seq<char>) -> bool {
    &&& frame_decodable(seg)
    &&& contains_pattern(seg, 9) ==> extractable(staffed(seg, 8, seq!['b']).unwrap())
    &&& !contains_pattern(seg, 9) ==> (seg.subrange(16, 20) == zero_address() || seg.len() != 21)
}

/// The cut `c` of `input`.
pub open spec fn cut_of(input: Seq<char>, c: (int, int)) -> Seq<char> {
    input.subrange(c.0, c.1)
}

/// Whether the receiver can take `input` apart, whatever the line did to it: ASCII
/// text of at most `0x3fff_0000` characters whose every cut it can decode.
pub open spec fn coded_stream_receivable(input: Seq<char>) -> bool {
    input.len() == 0 || {
        &&& is_ascii_chars(input)
        &&& input.len() <= 0x3fff_0000
        &&& forall|i: int|
            0 <= i < frame_cuts(input).len() ==> cut_decodable(
                cut_of(input, #[trigger] frame_cuts(input)[i]),
            )
    }
}

/// The data that the receiver takes from the decoding results `outs`, one after another.
pub open spec fn coded_text(outs: Seq<(Seq<char>, Seq<char>, int)>) -> Seq<char>
    decreases outs.len(),
{
    if outs.len() == 0 {
        Seq::empty()
    } else {
        coded_text(outs.drop_last()) + coded_frame_data(outs.last().1)
    }
}

/// Whether `outs` are possible decoding results of the cuts of `input`, one per cut,
/// with `text` the data taken from them, and `frame` and `count` the last frame as
/// received and its error count.
pub open spec fn read_outcome(
    input: Seq<char>,
    outs: Seq<(Seq<char>, Seq<char>, int)>,
    frame: Seq<char>,
    text: Seq<char>,
    count: int,
) -> bool {
    &&& outs.len() == frame_cuts(input).len()
    &&& forall|i: int|
        0 <= i < outs.len() ==> frame_outcome(cut_of(input, frame_cuts(input)[i]), Some(#[trigger] outs[i]))
    &&& text == coded_text(outs)
    &&& frame == outs.last().0
    &&& count == outs.last().2
}

/// Whether the receiver can decode `input` (see `coded_stream_receivable`).
pub fn can_receive(input: &str) -> (r: bool)
    ensures
        r == coded_stream_receivable(input@),
{
    let v = chars_of(input);
    if v.len() == 0 {
        return true;
    }
    if !input.is_ascii() || v.len() > 0x3fff_0000 {
        return false;
    }
    let cuts = cut_frames(&v);
    let ghost all = frame_cuts(input@);
    let zeros: [char; 4] = ['0', '0', '0', '0'];
    assert(zeros@ =~= zero_address());
    let mut i: usize = 0;
    while i < cuts.len()
        invariant
            v@ == input@,
            v@.len() > 0,
            v@.len() <= 0x3fff_0000,
            is_ascii_chars(input@),
            zeros@ == zero_address(),
            all == frame_cuts(input@),
            cuts@.len() == all.len(),
            forall|j: int|
                0 <= j < cuts@.len() ==> (#[trigger] cuts@[j]).0 == all[j].0 && cuts@[j].1 == all[j].1
                    && cuts@[j].0 <= cuts@[j].1 <= v@.len(),
            i <= cuts@.len(),
            forall|j: int| 0 <= j < i ==> cut_decodable(cut_of(input@, #[trigger] all[j])),
        decreases cuts@.len() - i,
    {
        let (a, b) = cuts[i];
        let part = cut_string(&v, a, b);
        proof {
            reveal_strlit("b");
            assert("b"@ == seq!['b']);
            assert(frame_cuts(input@)[i as int] == (a as int, b as int));
            assert forall|k: int| 0 <= k < part@.len() implies '\0' <= #[trigger] part@[k] <= '\u{7f}' by {
                assert(part@[k] == input@[a + k]);
            }
        }
        let f = chars_of(part.as_str());
        if f.len() < 9 {
            return false;
        }
        if has_stuffing_pattern(&f, 9) {
            match try_bit_staffing(part.as_str(), 8, "b") {
                None => {
                    return false;
                },
                Some(marked) => {
                    let m = chars_of(marked.as_str());
                    if m.len() < 20 || (!window_eq(&m, 16, &zeros) && m.len() == 20) {
                        return false;
                    }
                },
            }
        } else {
            if f.len() < 20 {
                return false;
            }
            let zero_length = window_eq(&f, 16, &zeros);
            if !zero_length && (f.len() == 20 || f.len() == 21) {
                return false;
            }
        }
        i += 1;
    }
    true
}

/// What the receiver makes of the characters `input` read from the port, after the
/// line's random distortion of each frame: the last frame as received, the data of
/// all frames one after another, the last frame's error count (0 none, 1 corrected,
/// 2 found and not corrected), and whether nothing was read.
///
/// The results are possible decoding results of the cuts, one per cut. `None` where
/// the distortion drawn for some cut leaves it undecodable.
pub fn read_port_data(input: String) -> (out: Option<(String, String, i32, bool)>)
    requires
        coded_stream_receivable(input@),
    ensures
        match out {
            Some(r) => {
                &&& input@.len() == 0 ==> r.0@ == Seq::<char>::empty() && r.1@ == Seq::<char>::empty()
                    && r.2 == 0 && r.3
                &&& input@.len() > 0 ==> !r.3 && exists|outs: Seq<(Seq<char>, Seq<char>, int)>|
                    #[trigger] read_outcome(input@, outs, r.0@, r.1@, r.2 as int)
            },
            None => input@.len() > 0 && exists|i: int|
                0 <= i < frame_cuts(input@).len() && frame_outcome(
                    cut_of(input@, #[trigger] frame_cuts(input@)[i]),
                    None,
                ),
        },
{
    let v = chars_of(input.as_str());
    if v.len() == 0 {
        return Some((String::new(), String::new(), 0, true));
    }
    let cuts = cut_frames(&v);
    let ghost all = frame_cuts(input@);
    let ghost mut outs: Seq<(Seq<char>, Seq<char>, int)> = Seq::empty();
    let mut received_frame = String::new();
    let mut received_data = String::new();
    let mut distortion_count: i32 = 0;
    let mut i: usize = 0;
    while i < cuts.len()
        invariant
            v@ == input@,
            v@.len() > 0,
            coded_stream_receivable(input@),
            all == frame_cuts(input@),
            cuts@.len() == all.len(),
            forall|j: int|
                0 <= j < cuts@.len() ==> (#[trigger] cuts@[j]).0 == all[j].0 && cuts@[j].1 == all[j].1
                    && cuts@[j].0 <= cuts@[j].1 <= v@.len(),
            i <= cuts@.len(),
            outs.len() == i,
            forall|j: int|
                0 <= j < i ==> frame_outcome(cut_of(input@, all[j]), Some(#[trigger] outs[j])),
            received_data@ == coded_text(outs),
            i > 0 ==> received_frame@ == outs.last().0 && distortion_count == outs.last().2,
        decreases cuts@.len() - i,
    {
        let (a, b) = cuts[i];
        let part = cut_string(&v, a, b);
        assert(frame_cuts(input@)[i as int] == (a as int, b as int));
        assert(part@ == cut_of(input@, all[i as int]));
        assert(cut_decodable(part@));
        let decoded = decode_frame(part);
        match decoded {
            None => {
                return None;
            },
            Some(result) => {
                let (frame_as_received, frame, count) = result;
                let ghost o = (frame_as_received@, frame@, count as int);
                proof {
                    lemma_outcome_usable(part@, o);
                }
                let udata = get_data_from_frame(frame);
                received_data.append(udata.as_str());
                proof {
                    assert(outs.push(o).drop_last() =~= outs);
                    outs = outs.push(o);
                }
                received_frame = frame_as_received;
                distortion_count = count;
            },
        }
        i += 1;
    }
    let result = (received_frame, received_data, distortion_count, false);
    assert(read_outcome(input@, outs, result.0@, result.1@, result.2 as int));
    Some(result)
}

/// The first `|` of `x` stands at `k` where none stands before it.
proof fn lemma_first_bar_at(x: Seq<char>, from: nat, k: nat)
    requires
        from <= k < x.len(),
        x[k as int] == '|',
        forall|j: int| from <= j < k ==> x[j] != '|',
    ensures
        first_bar(x, from) == k,
    decreases k - from,
{
    if from < k {
        lemma_first_bar_at(x, from + 1, k);
    }
}

/// The receiver gets back the data of a Hamming-coded packet, followed by the packet's
/// check field `0`, also where the line flipped one character of that data.
///
/// Take a well-made packet with binary data `d` and a length field other than `0000`,
/// whose serialised form holds no stuffing pattern after its ninth character and
/// whose check field `0` needs no further check bit. The receiver takes `d` and that
/// `0` as the frame's data; undistorted, the frame decodes with no error, and with any
/// one character of that data flipped, with one corrected error, to the frame as sent.
/// From the frame as sent, marked, the receiver takes `d`, the `0` and a line end.
#[verifier::spinoff_prover]
#[verifier::rlimit(30)]
pub proof fn lemma_coded_packet_received(p: PacketView, k: int)
    requires
        well_made(p),
        p.length != zero_address(),
        forall|j: int| 0 <= j < p.data.len() ==> is_bit(#[trigger] p.data[j]),
        !contains_pattern(packet_chars(p), 9),
        check_count(p.data.len() + 1) == check_count(p.data.len()),
        0 <= k <= p.data.len(),
    ensures
        ({
            let frame = coded_frame(p);
            let e = p.data.push('0');
            let s = check_count(p.data.len()) + 1;
            let header = frame.subrange(0, 20);
            &&& received_data_of(frame) == e
            &&& decode_with(frame, e) == Some(
                (mark_check_field(frame, s), mark_check_field(frame, s), 0int),
            )
            &&& decode_with(frame, flip_at(e, k)) == Some(
                (
                    mark_check_field(header + flip_at(e, k) + hamming_fcs(p.data), s),
                    mark_check_field(frame, s),
                    1int,
                ),
            )
            &&& coded_frame_data(mark_check_field(frame, s)) == e.push('\n')
        }),
{
    let d = p.data;
    let n = d.len();
    let frame = coded_frame(p);
    let s = check_count(n) + 1;
    let header = frame.subrange(0, 20);
    let e = d.push('0');
    assert(packet_chars(p) =~= header + e);
    assert(frame =~= header + e + hamming_fcs(d));
    assert(header.subrange(16, 20) =~= p.length);
    lemma_clean_frame_decodes(header, d);
    lemma_single_error_corrected(header, d, k);
    // the data taken from the marked frame
    let h = hamming_fcs(d);
    let marked = mark_check_field(frame, s);
    assert(h.len() == s);
    assert(marked =~= header + e + seq!['|'] + h);
    assert(marked.subrange(16, 20) =~= p.length);
    let buffer = marked.subrange(20, marked.len() - 1);
    assert(buffer =~= e + seq!['|'] + h.drop_last());
    assert forall|j: int| 0 <= j < n + 1 implies buffer[j] != '|' by {
        if j < n {
            assert(buffer[j] == d[j]);
        }
    }
    lemma_first_bar_at(buffer, 0, n + 1);
    assert(buffer.subrange(0, n + 1 as int) =~= e);
    assert forall|j: int| 0 <= j < e.len() implies e[j] != 'b' by {
        if j < n {
            assert(e[j] == d[j]);
        }
    }
    lemma_drop_char_absent(e, 'b');
}

/// Where no `|` stands in `x` from `from` on, the first `|` is the end of `x`.
proof fn lemma_first_bar_none(x: Seq<char>, from: nat)
    requires
        from <= x.len(),
        forall|j: int| from <= j < x.len() ==> x[j] != '|',
    ensures
        first_bar(x, from) == x.len(),
    decreases x.len() - from,
{
    if from < x.len() {
        lemma_first_bar_none(x, from + 1);
    }
}

/// The receiver gets back the data of a packet that the sender had to stuff.
///
/// Take a well-made packet with binary data and a length field other than `0000`,
/// whose serialised form holds the stuffing pattern after its ninth character. The
/// sender stuffs it and appends `0`; the receiver recognises the frame as stuffed,
/// marks it with no error, and takes from the marked frame exactly the packet's data,
/// its `0` and a line end, with none of the `b` marks.
#[verifier::spinoff_prover]
#[verifier::rlimit(30)]
pub proof fn lemma_stuffed_coded_packet_received(p: PacketView)
    requires
        well_made(p),
        p.length != zero_address(),
        forall|j: int| 0 <= j < p.data.len() ==> is_bit(#[trigger] p.data[j]),
        contains_pattern(packet_chars(p), 9),
    ensures
        coded_frame(p) == staffed(packet_chars(p), 7, seq!['0']).unwrap() + seq!['0'],
        contains_pattern(coded_frame(p), 9),
        !frame_outcome(coded_frame(p), None),
        forall|o: (Seq<char>, Seq<char>, int)|
            #[trigger] frame_outcome(coded_frame(p), Some(o)) ==> o.2 == 0 && coded_frame_data(o.1)
                == p.data.push('0').push('\n'),
        forall|o: (Seq<char>, Seq<char>, int), j: int|
            frame_outcome(coded_frame(p), Some(o)) && 0 <= j < coded_frame_data(o.1).len()
                ==> #[trigger] coded_frame_data(o.1)[j] != 'b',
{
    let s = packet_chars(p);
    let n = p.data.len();
    assert(s.len() == 21 + n);
    assert forall|j: int| 8 <= j < s.len() implies s[j] != 'b' && s[j] != '|' by {
        if 8 <= j < 12 {
            assert(s[j] == p.destination_address[j - 8]);
        } else if 12 <= j < 16 {
            assert(s[j] == p.source_address[j - 12]);
        } else if 16 <= j < 20 {
            assert(s[j] == p.length[j - 16]);
        } else if 20 <= j < 20 + n {
            assert(s[j] == p.data[j - 20]);
        }
    }
    assert forall|j: int| 0 <= j < n implies p.data[j] != 'b' by {
        assert(is_bit(p.data[j]));
    }
    lemma_receiver_undoes_stuffing(s);
    lemma_stuffed_packet_received(p);
    let f0 = staffed(s, 7, seq!['0']).unwrap();
    let frame = coded_frame(p);
    assert(frame == f0 + seq!['0']);
    assert(frame =~= f0.push('0'));
    // the pattern survives the stuffing, after the ninth character
    let i = choose|i: int| 9 <= i && i + 7 <= s.len() && #[trigger] s.subrange(i, i + 7) == stuffing_pattern();
    lemma_scan_keeps_pattern(s, 8, i, seq!['0']);
    let out = stuff_from(s, 8, 7, seq!['0']).unwrap();
    let k = choose|k: int|
        0 <= k && k + 7 <= out.len() && (k == 0 ==> s.subrange(8, 15) == stuffing_pattern())
            && #[trigger] out.subrange(k, k + 7) == stuffing_pattern();
    assert(s.subrange(8, 15)[1] == s[9]);
    assert(k >= 1);
    assert(f0 == flag() + out);
    assert(frame.subrange(8 + k, 8 + k + 7) =~= out.subrange(k, k + 7));
    assert(contains_pattern(frame, 9));
    // the receiver's marking
    lemma_staffed_append_zero(f0, 8, seq!['b']);
    let m = staffed(s, 7, seq!['b']).unwrap();
    let marked = staffed(frame, 8, seq!['b']).unwrap();
    assert(marked == m.push('0'));
    assert(marked.subrange(16, 20) =~= m.subrange(16, 20));
    let buffer = marked.subrange(20, marked.len() - 1);
    assert(buffer =~= m.subrange(20, m.len() as int));
    let body = stuff_from(s, 8, 7, seq!['b']).unwrap();
    lemma_scan_avoids(s, 8, 7, seq!['b'], '|');
    assert(m == flag() + body);
    assert forall|j: int| 0 <= j < buffer.len() implies buffer[j] != '|' by {
        assert(buffer[j] == m[20 + j]);
        assert(m[20 + j] == body[12 + j]);
    }
    lemma_first_bar_none(buffer, 0);
    assert(buffer.subrange(0, buffer.len() as int) =~= buffer);
    assert(coded_frame_data(marked) == p.data.push('0').push('\n'));
    let e = p.data.push('0').push('\n');
    assert forall|j: int| 0 <= j < e.len() implies e[j] != 'b' by {
        if j < n {
            assert(e[j] == p.data[j]);
        }
    }
}

/// A stuffed packet read from the port is received as it was sent.
///
/// Take a well-made packet with binary data and a length field other than `0000`,
/// whose serialised form holds the stuffing pattern after its ninth character, and
/// whose frame holds the flag at its start only. Reading that frame from the port, the
/// receiver cuts it whole, reports no error, and takes the packet's data, its `0` and a
/// line end.
pub proof fn lemma_stuffed_frame_read(
    p: PacketView,
    outs: Seq<(Seq<char>, Seq<char>, int)>,
    frame: Seq<char>,
    text: Seq<char>,
    count: int,
)
    requires
        well_made(p),
        p.length != zero_address(),
        forall|j: int| 0 <= j < p.data.len() ==> is_bit(#[trigger] p.data[j]),
        contains_pattern(packet_chars(p), 9),
        flags_exactly_at(coded_frame(p), seq![0int]),
        read_outcome(coded_frame(p), outs, frame, text, count),
    ensures
        outs.len() == 1,
        count == 0,
        text == p.data.push('0').push('\n'),
{
    let f = coded_frame(p);
    lemma_cuts_of_flagged_stream(f, seq![0int]);
    assert(received_cuts(seq![0int], f.len() as int) =~= seq![(0int, f.len() as int)]);
    assert(frame_cuts(f)[0] == (0int, f.len() as int));
    assert(cut_of(f, frame_cuts(f)[0]) =~= f);
    let o = outs[0];
    assert(frame_outcome(f, Some(o)));
    assert(outs.last() == o);
    assert(outs.drop_last() =~= Seq::<(Seq<char>, Seq<char>, int)>::empty());
    assert(coded_text(outs) == coded_text(outs.drop_last()) + coded_frame_data(o.1));
    assert(coded_text(outs) =~= coded_frame_data(o.1));
    lemma_stuffed_coded_packet_received(p);
}

/// Every decoding result of a coded packet's frame under the coding conditions counts
/// 0, 1 or 2 errors; with 0 it shows the marked frame as sent, with 1 that frame with
/// one character of the data and its `0` flipped.
#[verifier::spinoff_prover]
#[verifier::rlimit(30)]
proof fn lemma_outcome_as_received(p: PacketView, o: (Seq<char>, Seq<char>, int))
    requires
        coding_conditions(p),
        frame_outcome(coded_frame(p), Some(o)),
    ensures
        0 <= o.2 <= 2,
        o.2 == 0 ==> o.0 == mark_check_field(coded_frame(p), check_count(p.data.len()) + 1),
        o.2 == 1 ==> exists|k: int|
            20 <= k <= 20 + p.data.len() && o.0 == #[trigger] flip_at(
                mark_check_field(coded_frame(p), check_count(p.data.len()) + 1),
                k,
            ),
{
    let f = coded_frame(p);
    let n = p.data.len();
    let e = p.data.push('0');
    let s = check_count(n) + 1;
    let header = f.subrange(0, 20);
    let fcs = hamming_fcs(p.data);
    let sent = mark_check_field(f, s);
    lemma_coding_conditions(p);
    lemma_coded_packet_received(p, 0);
    assert(packet_chars(p) =~= header + e);
    assert(f =~= header + e + fcs);
    assert(header.subrange(16, 20) =~= p.length);
    assert(fcs.len() == s);
    assert(sent =~= header + e + seq!['|'] + fcs);
    let dd = choose|dd: Seq<char>| is_distortion(e, dd) && #[trigger] decode_with(f, dd) == Some(o);
    assert(is_distortion(e, dd) && decode_with(f, dd) == Some(o));
    if dd == e {
    } else if exists|i: int| 0 <= i < e.len() && dd == flip_at(e, i) {
        let i = choose|i: int| 0 <= i < e.len() && dd == flip_at(e, i);
        lemma_coded_packet_received(p, i);
        assert(o.0 == mark_check_field(header + flip_at(e, i) + fcs, s));
        assert(mark_check_field(header + flip_at(e, i) + fcs, s) =~= flip_at(sent, 20 + i));
    } else {
        let (i, j) = choose|i: int, j: int|
            0 <= i < e.len() && 0 <= j < e.len() && dd == flip_at(flip_at(e, i), j);
        if i == j {
            lemma_flip_twice(e, i);
        } else {
            assert forall|j: int| 0 <= j < n implies p.data[j] == '0' || p.data[j] == '1' by {
                assert(is_bit(p.data[j]));
            }
            lemma_double_error_detected(header, p.data, i, j);
        }
    }
}

/// The receiver reports the last frame as it came off the line, before correction.
///
/// Take a packet under the coding conditions whose frame holds the flag at its start
/// only, and read that frame from the port. The receiver cuts it whole and reports
/// one decoding result. With no error found, the reported frame is the frame as sent,
/// marked, and the data taken is the packet's data, its `0` and a line end. With one
/// error found and corrected, the data taken is the same, and the reported frame is
/// the marked frame as sent with exactly one character of the data and its `0`
/// (positions 20 on) flipped: the one the line flipped, so it differs from the frame
/// as sent.
#[verifier::spinoff_prover]
pub proof fn lemma_reported_frame_as_received(
    p: PacketView,
    outs: Seq<(Seq<char>, Seq<char>, int)>,
    frame: Seq<char>,
    text: Seq<char>,
    count: int,
)
    requires
        coding_conditions(p),
        flags_exactly_at(coded_frame(p), seq![0int]),
        read_outcome(coded_frame(p), outs, frame, text, count),
    ensures
        outs.len() == 1,
        0 <= count <= 2,
        count != 2 ==> text == p.data.push('0').push('\n'),
        count == 0 ==> frame == mark_check_field(coded_frame(p), check_count(p.data.len()) + 1),
        count == 1 ==> exists|k: int|
            20 <= k <= 20 + p.data.len() && frame == #[trigger] flip_at(
                mark_check_field(coded_frame(p), check_count(p.data.len()) + 1),
                k,
            ),
        count == 1 ==> frame != mark_check_field(coded_frame(p), check_count(p.data.len()) + 1),
{
    let f = coded_frame(p);
    let sent = mark_check_field(f, check_count(p.data.len()) + 1);
    lemma_cuts_of_flagged_stream(f, seq![0int]);
    assert(received_cuts(seq![0int], f.len() as int) =~= seq![(0int, f.len() as int)]);
    assert(frame_cuts(f)[0] == (0int, f.len() as int));
    assert(cut_of(f, frame_cuts(f)[0]) =~= f);
    let o = outs[0];
    assert(frame_outcome(f, Some(o)));
    assert(outs.last() == o);
    assert(outs.drop_last() =~= Seq::<(Seq<char>, Seq<char>, int)>::empty());
    assert(coded_text(outs) == coded_text(outs.drop_last()) + coded_frame_data(o.1));
    assert(coded_text(outs) =~= coded_frame_data(o.1));
    lemma_coded_frame_outcomes(p);
    lemma_outcome_as_received(p, o);
    if count == 1 {
        let k = choose|k: int| 20 <= k <= 20 + p.data.len() && frame == #[trigger] flip_at(sent, k);
        assert(frame[k] != sent[k]);
    }
}

} // verus!

verus! {

/// Flipping a binary character twice gives it back.
proof fn lemma_flip_twice(a: Seq<char>, i: int)
    requires
        0 <= i < a.len(),
        a[i] == '0' || a[i] == '1',
    ensures
        flip_at(flip_at(a, i), i) == a,
{
    assert(flip_at(flip_at(a, i), i) =~= a);
}

/// A well-made packet with binary data and a length field other than `0000`, with no
/// stuffing pattern after the ninth character of its serialised form or of its frame,
/// whose check field `0` needs no further check bit, and with fewer than 32 positions
/// in the layout of its data and that `0`.
pub open spec fn coding_conditions(p: PacketView) -> bool {
    &&& well_made(p)
    &&& p.length != zero_address()
    &&& forall|j: int| 0 <= j < p.data.len() ==> is_bit(#[trigger] p.data[j])
    &&& !contains_pattern(packet_chars(p), 9)
    &&& !contains_pattern(coded_frame(p), 9)
    &&& check_count(p.data.len() + 1) == check_count(p.data.len())
    &&& check_count(p.data.len()) + p.data.len() + 1 < 32
}

/// Under the coding conditions, the frame is the serialised packet followed by the
/// check bits of its data, and the receiver takes from it the data and the packet's
/// `0`, all binary.
proof fn lemma_coding_conditions(p: PacketView)
    requires
        coding_conditions(p),
    ensures
        !contains_pattern(packet_chars(p), 9),
        coded_frame(p) == packet_chars(p) + hamming_fcs(p.data),
        received_data_of(coded_frame(p)) == p.data.push('0'),
        forall|j: int| 0 <= j < p.data.len() + 1 ==> #[trigger] p.data.push('0')[j] == '0' || p.data.push('0')[j] == '1',
{
    let d = p.data;
    lemma_coded_packet_received(p, 0);
    assert forall|j: int| 0 <= j < d.len() + 1 implies #[trigger] d.push('0')[j] == '0' || d.push('0')[j]
        == '1' by {
        if j < d.len() {
            assert(d.push('0')[j] == d[j]);
        }
    }
}

/// Under the coding conditions, every distortion of a coded packet's data decodes, and
/// unless an error is reported as not corrected, to the frame as sent.
#[verifier::spinoff_prover]
proof fn lemma_distortion_decodes(p: PacketView, dd: Seq<char>)
    requires
        coding_conditions(p),
        is_distortion(p.data.push('0'), dd),
    ensures
        decode_with(coded_frame(p), dd) is Some,
        decode_with(coded_frame(p), dd).unwrap().2 != 2 ==> decode_with(coded_frame(p), dd).unwrap().1
            == mark_check_field(coded_frame(p), check_count(p.data.len()) + 1),
{
    let d = p.data;
    let e = d.push('0');
    let frame = coded_frame(p);
    let header = frame.subrange(0, 20);
    lemma_coding_conditions(p);
    lemma_coded_packet_received(p, 0);
    assert(packet_chars(p) =~= header + e);
    assert(frame =~= header + e + hamming_fcs(d));
    assert(header.subrange(16, 20) =~= p.length);
    if dd != e {
        if exists|i: int| 0 <= i < e.len() && dd == flip_at(e, i) {
            let i = choose|i: int| 0 <= i < e.len() && dd == flip_at(e, i);
            lemma_coded_packet_received(p, i);
        } else {
            let (i, j) = choose|i: int, j: int|
                0 <= i < e.len() && 0 <= j < e.len() && dd == flip_at(flip_at(e, i), j);
            if i == j {
                lemma_flip_twice(e, i);
            } else {
                lemma_double_error_detected(header, d, i, j);
            }
        }
    }
}

/// Whatever the line does to a Hamming-coded packet, the receiver either reports an
/// error that it did not correct or gives back the packet's data.
///
/// Take a well-made packet with binary data and a length field other than `0000`,
/// whose serialised form and frame hold no stuffing pattern after their ninth
/// character, whose check field
/// `0` needs no further check bit, and with fewer than 32 positions in the layout of
/// its data and that `0` (every packet of up to sixteen characters). Every decoding of
/// its frame has a result, and every result with an error count other than 2 shows the
/// frame from which the receiver takes the packet's data, the `0` and a line end.
pub proof fn lemma_coded_frame_outcomes(p: PacketView)
    requires
        coding_conditions(p),
    ensures
        !frame_outcome(coded_frame(p), None),
        forall|o: (Seq<char>, Seq<char>, int)|
            frame_outcome(coded_frame(p), Some(o)) && o.2 != 2 ==> #[trigger] coded_frame_data(o.1)
                == p.data.push('0').push('\n'),
{
    let frame = coded_frame(p);
    let e = p.data.push('0');
    lemma_coding_conditions(p);
    lemma_coded_packet_received(p, 0);
    assert forall|o: (Seq<char>, Seq<char>, int)|
        frame_outcome(frame, Some(o)) && o.2 != 2 implies #[trigger] coded_frame_data(o.1) == e.push('\n') by {
        let dd = choose|dd: Seq<char>| is_distortion(e, dd) && #[trigger] decode_with(frame, dd) == Some(o);
        lemma_distortion_decodes(p, dd);
    }
    if frame_outcome(frame, None) {
        let dd = choose|dd: Seq<char>| is_distortion(e, dd) && #[trigger] decode_with(frame, dd) is None;
        lemma_distortion_decodes(p, dd);
    }
}

} // verus!
