//! The link of the bit-stuffing program: the sender stuffs a frame where the
//! stuffing pattern occurs in it, and the receiver marks the stuffed symbols with `b`
//! and leaves them out of the data.

use vstd::prelude::*;
use crate::framing::{
    chunk_packet, contains_pattern, cut_frames, cut_string, extractable, flags_exactly_at,
    frame_cuts, has_stuffing_pattern, lemma_chunk_packet_ascii, lemma_cuts_of_flagged_stream,
    lemma_length_bits, length_field, packet_count, received_cuts,
};
use crate::packet::{packet_chars, well_made, zero_address, Packet, PacketView};
use crate::stuffing::{
    bit_staffing, flag, lemma_receiver_undoes_stuffing, lemma_scan_copies, lemma_scan_copies_until,
    lemma_scan_last, lemma_staffed_ascii, lemma_stride7_prefix, staffed, stuff_from,
    stuffing_pattern, try_bit_staffing,
};
use vstd::utf8::is_ascii_chars;
use crate::text::{
    chars_of, drop_char, extend_range, lemma_drop_char_absent, lemma_drop_char_add, string_of,
    window_eq,
};

verus! {

/// The frame that the sender puts on the line for packet `p`: its serialised form,
/// stuffed (step 7, symbol `0`) where the stuffing pattern occurs after its ninth
/// character.
pub open spec fn stuffed_frame(p: PacketView) -> Seq<char> {
    let s = packet_chars(p);
    if contains_pattern(s, 9) {
        staffed(s, 7, seq!['0']).unwrap()
    } else {
        s
    }
}

/// The frame that the sender puts on the line for `packet`.
pub fn encode_packet(packet: Packet) -> (frame: String)
    requires
        is_ascii_chars(packet_chars(packet@)),
        packet_chars(packet@).len() >= 9,
    ensures
        frame@ == stuffed_frame(packet@),
{
    let send_packet = packet.as_string();
    let v = chars_of(send_packet.as_str());
    if has_stuffing_pattern(&v, 9) {
        proof {
            reveal_strlit("0");
            assert(send_packet@.len() >= 8);
            lemma_receiver_undoes_stuffing(send_packet@);
            assert(staffed(send_packet@, 7, seq!['0']) is Some);
            assert("0"@ == seq!['0']);
        }
        bit_staffing(send_packet, 7, "0")
    } else {
        send_packet
    }
}

/// The frames that the sender puts on the line for the message `data`, one per
/// packet, in order (see `framing`).
pub fn frames_to_send(data: String) -> (frames: Vec<String>)
    requires
        1 <= data@.len() <= 0x100_0001,
        is_ascii_chars(data@),
    ensures
        frames@.len() == packet_count((data@.len() - 1) as nat),
        forall|i: int|
            0 <= i < frames@.len() ==> #[trigger] frames@[i]@ == stuffed_frame(
                chunk_packet(data@.drop_last(), i as nat),
            ),
{
    let v = chars_of(data.as_str());
    let n = v.len() - 1;
    let ghost m = data@.drop_last();
    let full = n / 16;
    proof {
        crate::text::lemma_ascii_subrange(data@, 0, data@.len() - 1);
        assert(data@.subrange(0, data@.len() - 1) =~= m);
    }
    let mut frames: Vec<String> = Vec::new();
    let mut k: usize = 0;
    proof {
        reveal_strlit("1111");
    }
    assert("1111"@ == seq!['1', '1', '1', '1']);
    while k < full
        invariant
            v@ == data@,
            1 <= data@.len(),
            "1111"@ == seq!['1', '1', '1', '1'],
            n == m.len(),
            m == data@.drop_last(),
            is_ascii_chars(m),
            full == n / 16,
            k <= full,
            frames@.len() == k,
            forall|i: int|
                0 <= i < k ==> #[trigger] frames@[i]@ == stuffed_frame(chunk_packet(m, i as nat)),
        decreases full - k,
    {
        assert(16 * k + 16 <= n) by (nonlinear_arith)
            requires
                k < full,
                full == n / 16,
        ;
        let mut chunk: Vec<char> = Vec::new();
        extend_range(&mut chunk, &v, 16 * k, 16 * k + 16);
        assert(chunk@ =~= m.subrange(16 * k as int, 16 * k + 16 as int));
        let packet = Packet::new(string_of(&chunk), String::from_str("1111"));
        assert(packet@ == chunk_packet(m, k as nat));
        proof {
            lemma_chunk_packet_ascii(m, k as nat);
        }
        frames.push(encode_packet(packet));
        k += 1;
    }
    if n != 16 {
        assert(16 * full <= n) by (nonlinear_arith)
            requires
                full == n / 16,
        ;
        let mut chunk: Vec<char> = Vec::new();
        extend_range(&mut chunk, &v, 16 * full, n);
        assert(chunk@ =~= m.subrange(16 * full as int, n as int));
        assert(n - 16 * full == n % 16);
        let packet = Packet::new(string_of(&chunk), length_field(n - 16 * full));
        assert(packet@ == chunk_packet(m, full as nat));
        proof {
            lemma_chunk_packet_ascii(m, full as nat);
        }
        frames.push(encode_packet(packet));
    }
    frames
}

/// The data that the receiver takes from a marked frame: a line end alone for a
/// frame of length field `0000`; otherwise the characters after the length field
/// without the last one, the `b` marks left out, and a line end.
pub open spec fn stuffed_frame_data(frame: Seq<char>) -> Seq<char> {
    if frame.subrange(16, 20) == zero_address() {
        seq!['\n']
    } else {
        drop_char(frame.subrange(20, frame.len() - 1), 'b').push('\n')
    }
}

/// The data that the receiver takes from a marked frame.
pub fn get_data_from_frame(frame: String) -> (udata: String)
    requires
        is_ascii_chars(frame@),
        extractable(frame@),
    ensures
        udata@ == stuffed_frame_data(frame@),
{
    let f = chars_of(frame.as_str());
    let zeros: [char; 4] = ['0', '0', '0', '0'];
    assert(zeros@ =~= zero_address());
    let mut out: Vec<char> = Vec::new();
    if window_eq(&f, 16, &zeros) {
        out.push('\n');
        assert(out@ =~= seq!['\n']);
        return string_of(&out);
    }
    let end = f.len() - 1;
    let mut i: usize = 20;
    while i < end
        invariant
            20 <= i <= end,
            end == f@.len() - 1,
            out@ == drop_char(f@.subrange(20, i as int), 'b'),
        decreases end - i,
    {
        assert(f@.subrange(20, i + 1).drop_last() =~= f@.subrange(20, i as int));
        if f[i] != 'b' {
            out.push(f[i]);
        }
        i += 1;
    }
    out.push('\n');
    string_of(&out)
}

/// The frame that the receiver makes of the cut `c` of `input`: the cut, marked
/// (step 8, marker `b`).
pub open spec fn marked_cut(input: Seq<char>, c: (int, int)) -> Seq<char> {
    staffed(input.subrange(c.0, c.1), 8, seq!['b']).unwrap()
}

/// Whether the receiver can take `input` apart: ASCII text whose every cut can be
/// marked, and the receiver can take data from every marked cut.
pub open spec fn stream_receivable(input: Seq<char>) -> bool {
    input.len() == 0 || is_ascii_chars(input) && forall|i: int|
        0 <= i < frame_cuts(input).len() ==> {
            let c = #[trigger] frame_cuts(input)[i];
            &&& staffed(input.subrange(c.0, c.1), 8, seq!['b']) is Some
            &&& extractable(marked_cut(input, c))
        }
}

/// The data that the receiver takes from the first `k` cuts of `input`.
pub open spec fn stream_text(input: Seq<char>, k: nat) -> Seq<char>
    decreases k,
{
    if k == 0 {
        Seq::empty()
    } else {
        stream_text(input, (k - 1) as nat) + stuffed_frame_data(
            marked_cut(input, frame_cuts(input)[k - 1]),
        )
    }
}

/// Whether the receiver can take `input` apart (see `stream_receivable`).
pub fn can_receive(input: &str) -> (r: bool)
    ensures
        r == stream_receivable(input@),
{
    let v = chars_of(input);
    if v.len() == 0 {
        return true;
    }
    if !input.is_ascii() {
        return false;
    }
    let cuts = cut_frames(&v);
    let ghost all = frame_cuts(input@);
    let mut i: usize = 0;
    while i < cuts.len()
        invariant
            v@ == input@,
            v@.len() > 0,
            is_ascii_chars(input@),
            all == frame_cuts(input@),
            cuts@.len() == all.len(),
            forall|j: int|
                0 <= j < cuts@.len() ==> (#[trigger] cuts@[j]).0 == all[j].0 && cuts@[j].1 == all[j].1
                    && cuts@[j].0 <= cuts@[j].1 <= v@.len(),
            i <= cuts@.len(),
            forall|j: int|
                0 <= j < i ==> {
                    let c = #[trigger] all[j];
                    &&& staffed(input@.subrange(c.0, c.1), 8, seq!['b']) is Some
                    &&& extractable(marked_cut(input@, c))
                },
        decreases cuts@.len() - i,
    {
        let (a, b) = cuts[i];
        let part = cut_string(&v, a, b);
        proof {
            reveal_strlit("b");
            assert("b"@ == seq!['b']);
            assert(frame_cuts(input@)[i as int] == (a as int, b as int));
        }
        match try_bit_staffing(part.as_str(), 8, "b") {
            None => {
                return false;
            },
            Some(marked) => {
                let f = chars_of(marked.as_str());
                if f.len() < 20 {
                    return false;
                }
                let zeros: [char; 4] = ['0', '0', '0', '0'];
                assert(zeros@ =~= zero_address());
                if !window_eq(&f, 16, &zeros) && f.len() == 20 {
                    return false;
                }
            },
        }
        i += 1;
    }
    true
}

/// What the receiver makes of the characters `input` read from the port: the last
/// frame (marked), the data of all frames one after another, and whether nothing was
/// read.
pub fn read_port_data(input: String) -> (out: (String, String, bool))
    requires
        stream_receivable(input@),
    ensures
        input@.len() == 0 ==> out.0@ == Seq::<char>::empty() && out.1@ == Seq::<char>::empty()
            && out.2,
        input@.len() > 0 ==> out.0@ == marked_cut(input@, frame_cuts(input@).last()) && out.1@
            == stream_text(input@, frame_cuts(input@).len()) && !out.2,
{
    let v = chars_of(input.as_str());
    if v.len() == 0 {
        return (String::new(), String::new(), true);
    }
    let cuts = cut_frames(&v);
    let ghost all = frame_cuts(input@);
    let mut received_frame = String::new();
    let mut received_data = String::new();
    let mut i: usize = 0;
    proof {
        reveal_strlit("b");
    }
    while i < cuts.len()
        invariant
            v@ == input@,
            v@.len() > 0,
            stream_receivable(input@),
            all == frame_cuts(input@),
            cuts@.len() == all.len(),
            forall|j: int|
                0 <= j < cuts@.len() ==> (#[trigger] cuts@[j]).0 == all[j].0 && cuts@[j].1 == all[j].1
                    && cuts@[j].0 <= cuts@[j].1 <= v@.len(),
            i <= cuts@.len(),
            received_data@ == stream_text(input@, i as nat),
            i > 0 ==> received_frame@ == marked_cut(input@, all[i - 1]),
        decreases cuts@.len() - i,
    {
        let (a, b) = cuts[i];
        let part = cut_string(&v, a, b);
        proof {
            reveal_strlit("b");
            assert("b"@ == seq!['b']);
            assert(frame_cuts(input@)[i as int] == (a as int, b as int));
        }
        proof {
            crate::text::lemma_ascii_subrange(input@, a as int, b as int);
            lemma_staffed_ascii(part@, 8, seq!['b']);
        }
        let marked = bit_staffing(part, 8, "b");
        let udata = get_data_from_frame(marked.clone());
        received_data.append(udata.as_str());
        received_frame = marked;
        i += 1;
    }
    (received_frame, received_data, false)
}

/// The receiver gets back the data of a stuffed packet.
///
/// The receiver can mark the frame that the sender puts on the line for a well-made
/// packet whose data holds no `b`, and takes from the marked frame the packet's data
/// and a line end; for a packet of length field `0000`, a line end alone.
pub proof fn lemma_stuffed_packet_received(p: PacketView)
    requires
        well_made(p),
        forall|j: int| 0 <= j < p.data.len() ==> p.data[j] != 'b',
    ensures
        staffed(stuffed_frame(p), 8, seq!['b']) is Some,
        extractable(staffed(stuffed_frame(p), 8, seq!['b']).unwrap()),
        stuffed_frame_data(staffed(stuffed_frame(p), 8, seq!['b']).unwrap()) == if p.length
            == zero_address() {
            seq!['\n']
        } else {
            p.data.push('\n')
        },
        staffed(packet_chars(p), 7, seq!['b']) is Some,
        staffed(stuffed_frame(p), 8, seq!['b']) == staffed(packet_chars(p), 7, seq!['b']),
        staffed(packet_chars(p), 7, seq!['b']).unwrap().len() >= 21,
        staffed(packet_chars(p), 7, seq!['b']).unwrap().subrange(16, 20) == p.length,
        p.length != zero_address() ==> drop_char(
            staffed(packet_chars(p), 7, seq!['b']).unwrap().subrange(
                20,
                staffed(packet_chars(p), 7, seq!['b']).unwrap().len() as int,
            ),
            'b',
        ) == p.data.push('0'),
{
    let s = packet_chars(p);
    let len = s.len();
    assert(len == 21 + p.data.len());
    assert(s.subrange(0, 8) =~= flag());
    assert forall|j: int| 8 <= j < 16 implies s[j] == '0' by {
        if j < 12 {
            assert(s[j] == p.destination_address[j - 8]);
        } else {
            assert(s[j] == p.source_address[j - 12]);
        }
    }
    assert forall|j: int| 16 <= j < 20 implies s[j] == p.length[j - 16] by {}
    assert(s.subrange(16, 20) =~= p.length);
    assert(s.last() == '0');
    // no pattern starts among the addresses
    assert forall|j: int| 8 <= j < 15 implies #[trigger] s.subrange(j, j + 7) != stuffing_pattern() by {
        assert(s.subrange(j, j + 7)[1] == s[j + 1]);
    }
    // the frame on the line is the sender's stuffing of the packet
    lemma_receiver_undoes_stuffing(s);
    if !contains_pattern(s, 9) {
        assert forall|j: int| 8 <= j && j + 7 <= s.len() implies #[trigger] s.subrange(j, j + 7)
            != stuffing_pattern() by {
            if j >= 9 {
                if s.subrange(j, j + 7) == stuffing_pattern() {
                    assert(contains_pattern(s, 9));
                }
            }
        }
        lemma_scan_copies(s, 8, 7, seq!['0']);
        assert(flag() + s.subrange(8, len as int) =~= s);
    }
    assert(stuffed_frame(p) == staffed(s, 7, seq!['0']).unwrap());
    // the marked frame starts as the packet does
    let out = stuff_from(s, 8, 7, seq!['b']).unwrap();
    let marked = flag() + out;
    assert(marked == staffed(stuffed_frame(p), 8, seq!['b']).unwrap());
    lemma_scan_copies_until(s, 8, 15, seq!['b']);
    lemma_stride7_prefix(s, 15, seq!['b']);
    let tail = stuff_from(s, 15, 7, seq!['b']).unwrap();
    assert(out == s.subrange(8, 15) + tail);
    assert forall|j: int| 0 <= j < 21 implies marked[j] == s[j] by {
        if 8 <= j < 15 {
            assert(marked[j] == out[j - 8]);
        } else if 15 <= j {
            assert(marked[j] == tail[j - 15]);
            assert(tail.subrange(0, 6)[j - 15] == s.subrange(15, 21)[j - 15]);
        }
    }
    assert(marked.subrange(16, 20) =~= s.subrange(16, 20));
    if p.length != zero_address() {
        // the marks dropped, the marked frame is the packet
        assert forall|j: int| 8 <= j < s.len() implies s[j] != 'b' by {
            if 20 <= j < len - 1 {
                assert(s[j] == p.data[j - 20]);
            }
        }
        let ml = marked.len();
        assert(drop_char(marked, 'b') == s);
        lemma_drop_char_add(marked.subrange(0, 20), marked.subrange(20, ml as int), 'b');
        assert(marked.subrange(0, 20) + marked.subrange(20, ml as int) =~= marked);
        assert(marked.subrange(0, 20) =~= s.subrange(0, 20));
        lemma_drop_char_absent(s.subrange(0, 20), 'b');
        let rest = drop_char(marked.subrange(20, ml as int), 'b');
        assert(s.subrange(0, 20) + rest == s);
        assert(rest =~= s.subrange(20, len as int)) by {
            assert(rest =~= (s.subrange(0, 20) + rest).subrange(20, len as int));
        }
        // the marked frame ends with the packet's check field `0`
        lemma_scan_last(s, 8, seq!['b']);
        assert(marked.last() == '0');
        let body = marked.subrange(20, ml - 1);
        assert(marked.subrange(20, ml as int).drop_last() =~= body);
        assert(marked.subrange(20, ml as int).last() == '0');
        assert(rest == drop_char(body, 'b').push('0'));
        assert(drop_char(body, 'b') =~= rest.drop_last());
        assert(s.subrange(20, len as int).drop_last() =~= p.data);
        assert(s.subrange(20, len as int) =~= p.data.push('0'));
    }
}

/// A short message is received as it was sent.
///
/// A message of one to seventeen characters that ends in a line end and holds no `b`
/// goes on the line as one frame. Where the flag occurs in that frame at its start
/// only, the receiver can take the frame apart, cuts it whole, and takes from it the
/// message.
pub proof fn lemma_short_message_received(m: Seq<char>)
    requires
        1 <= m.len() <= 17,
        m.last() == '\n',
        is_ascii_chars(m),
        forall|j: int| 0 <= j < m.len() ==> m[j] != 'b',
        flags_exactly_at(stuffed_frame(chunk_packet(m.drop_last(), 0)), seq![0int]),
    ensures
        packet_count((m.len() - 1) as nat) == 1,
        ({
            let frame = stuffed_frame(chunk_packet(m.drop_last(), 0));
            &&& stream_receivable(frame)
            &&& frame_cuts(frame) == seq![(0int, frame.len() as int)]
            &&& stream_text(frame, 1) == m
        }),
{
    let body = m.drop_last();
    let n = body.len();
    let p = chunk_packet(body, 0);
    let frame = stuffed_frame(p);
    lemma_cuts_of_flagged_stream(frame, seq![0int]);
    assert(received_cuts(seq![0int], frame.len() as int) =~= seq![(0int, frame.len() as int)]);
    if n < 16 {
        lemma_length_bits(n % 16);
        assert(p.data =~= body);
    } else {
        assert(p.data =~= body);
        assert(p.length != zero_address()) by {
            assert(p.length[0] == '1');
        }
    }
    assert(well_made(p));
    lemma_stuffed_packet_received(p);
    crate::text::lemma_ascii_subrange(m, 0, m.len() - 1);
    assert(m.subrange(0, m.len() - 1) =~= body);
    lemma_chunk_packet_ascii(body, 0);
    if contains_pattern(packet_chars(p), 9) {
        lemma_receiver_undoes_stuffing(packet_chars(p));
        lemma_staffed_ascii(packet_chars(p), 7, seq!['0']);
    }
    assert(frame.subrange(0, frame.len() as int) =~= frame);
    assert(frame_cuts(frame)[0] == (0int, frame.len() as int));
    assert(stream_text(frame, 0) == Seq::<char>::empty());
    assert(body.push('\n') =~= m);
    if n == 0 {
        assert(seq!['\n'] =~= m);
    }
}

} // verus!
