//! What the program's window keeps and decides: the text to send, as the user types
//! it; what was received; and how a received frame is shown.
//!
//! The window itself (drawing, keys, the port) is the caller's; it hands each event
//! to these functions and shows or sends what they give back.

use vstd::prelude::*;
use crate::text::{chars_of, string_of};
use vstd::utf8::encode_utf8;

verus! {

/// Whether the user may type `c`: a binary digit or a line end.
pub open spec fn valid_input_char(c: char) -> bool {
    c == '0' || c == '1' || c == '\n'
}

/// The position of the first character of `s` from `from` on that the user may not
/// type, or the length of `s`.
pub open spec fn first_invalid(s: Seq<char>, from: nat) -> nat
    decreases s.len() - from,
{
    if from >= s.len() {
        s.len()
    } else if !valid_input_char(s[from as int]) {
        from
    } else {
        first_invalid(s, from + 1)
    }
}

/// The length of `s` in bytes, as the text it is written in holds it.
pub open spec fn byte_len(s: Seq<char>) -> usize {
    encode_utf8(s).len() as usize
}

/// The typed text up to the first character that may not be typed.
pub open spec fn sanitized(s: Seq<char>) -> Seq<char> {
    s.subrange(0, first_invalid(s, 0) as int)
}

/// The typed text `s` up to the first character that may not be typed.
pub fn sanitize_input(s: &str) -> (out: String)
    ensures
        out@ == sanitized(s@),
{
    let v = chars_of(s);
    let mut i: usize = 0;
    while i < v.len()
        invariant
            v@ == s@,
            i <= v@.len(),
            first_invalid(v@, 0) == first_invalid(v@, i as nat),
        ensures
            i == first_invalid(v@, 0),
        decreases v@.len() - i,
    {
        if !(v[i] == '0' || v[i] == '1' || v[i] == '\n') {
            break;
        }
        i += 1;
    }
    let mut out: Vec<char> = Vec::new();
    crate::text::extend_range(&mut out, &v, 0, i);
    string_of(&out)
}

/// Every character before the first one that may not be typed may be typed.
proof fn lemma_first_invalid_prefix(s: Seq<char>, from: nat)
    requires
        from <= s.len(),
    ensures
        from <= first_invalid(s, from) <= s.len(),
        forall|j: int| from <= j < first_invalid(s, from) ==> valid_input_char(#[trigger] s[j]),
    decreases s.len() - from,
{
    if from < s.len() && valid_input_char(s[from as int]) {
        lemma_first_invalid_prefix(s, from + 1);
    }
}

/// Where every character from `from` on may be typed, the first that may not is past
/// the end.
proof fn lemma_first_invalid_all_valid(s: Seq<char>, from: nat)
    requires
        from <= s.len(),
        forall|j: int| from <= j < s.len() ==> valid_input_char(#[trigger] s[j]),
    ensures
        first_invalid(s, from) == s.len(),
    decreases s.len() - from,
{
    if from < s.len() {
        lemma_first_invalid_all_valid(s, from + 1);
    }
}

/// Cutting the typed text is done once for all: the cut text holds only characters
/// that may be typed, and cutting it again changes nothing.
pub proof fn lemma_sanitized_idempotent(s: Seq<char>)
    ensures
        forall|j: int| 0 <= j < sanitized(s).len() ==> valid_input_char(#[trigger] sanitized(s)[j]),
        sanitized(sanitized(s)) == sanitized(s),
{
    lemma_first_invalid_prefix(s, 0);
    let t = sanitized(s);
    assert forall|j: int| 0 <= j < t.len() implies valid_input_char(#[trigger] t[j]) by {
        assert(t[j] == s[j]);
    }
    lemma_first_invalid_all_valid(t, 0);
    assert(t.subrange(0, t.len() as int) =~= t);
}

/// The parity the user chose for the line.
#[derive(PartialEq, Eq, Structural, Clone, Copy)]
pub enum ParityChoice {
    NoParity,
    Odd,
    Even,
}

/// What the window keeps.
pub struct Screen {
    /// The text being typed.
    pub user_input: String,
    /// The text as it was when it was last sent.
    pub user_input_prev: String,
    /// The last frame received, as shown.
    pub received_frame: String,
    /// All data received so far.
    pub received_data: String,
    /// The last frame's error count.
    pub distortion_count: i32,
    /// Whether the text was just sent, so that the next character typed starts anew.
    pub is_next_data: bool,
    /// The parity chosen.
    pub parity: ParityChoice,
    /// A line of information for the user.
    pub msg_debug: String,
}

impl Screen {
    /// An empty window, parity none.
    pub fn new() -> (s: Self)
        ensures
            s.user_input@ == Seq::<char>::empty(),
            s.user_input_prev@ == Seq::<char>::empty(),
            s.received_frame@ == Seq::<char>::empty(),
            s.received_data@ == Seq::<char>::empty(),
            s.distortion_count == 0,
            !s.is_next_data,
            s.parity == ParityChoice::NoParity,
            s.msg_debug@ == Seq::<char>::empty(),
    {
        Screen {
            user_input: String::new(),
            user_input_prev: String::new(),
            received_frame: String::new(),
            received_data: String::new(),
            distortion_count: 0,
            is_next_data: false,
            parity: ParityChoice::NoParity,
            msg_debug: String::new(),
        }
    }

    /// After the user typed: the text is cut at the first character that may not be
    /// typed; where the text was just sent and has grown since (past the byte length
    /// of the text sent), only the character typed last is kept, and a new text
    /// begins. Afterwards the text holds only characters that may be typed.
    pub fn settle_input(&mut self)
        ensures
            ({
                let t = sanitized(old(self).user_input@);
                if old(self).is_next_data && byte_len(old(self).user_input_prev@) < t.len() {
                    &&& final(self).user_input@ == seq![t.last()]
                    &&& !final(self).is_next_data
                } else {
                    &&& final(self).user_input@ == t
                    &&& final(self).is_next_data == old(self).is_next_data
                }
            }),
            forall|j: int|
                0 <= j < final(self).user_input@.len() ==> valid_input_char(
                    #[trigger] final(self).user_input@[j],
                ),
            final(self).user_input_prev == old(self).user_input_prev,
            final(self).received_frame == old(self).received_frame,
            final(self).received_data == old(self).received_data,
            final(self).distortion_count == old(self).distortion_count,
            final(self).parity == old(self).parity,
            final(self).msg_debug == old(self).msg_debug,
    {
        let text = sanitize_input(self.user_input.as_str());
        let t = chars_of(text.as_str());
        proof {
            lemma_sanitized_idempotent(old(self).user_input@);
        }
        let prev_len = self.user_input_prev.as_str().len();
        if self.is_next_data && prev_len < t.len() {
            let mut last: Vec<char> = Vec::new();
            last.push(t[t.len() - 1]);
            self.user_input = string_of(&last);
            self.is_next_data = false;
        } else {
            self.user_input = text;
        }
    }

    /// The user pressed Enter: the text is remembered as sent and the next character
    /// typed starts anew. Gives back the text to send.
    pub fn on_enter(&mut self) -> (sent: String)
        ensures
            sent@ == old(self).user_input@,
            final(self).user_input_prev@ == old(self).user_input@,
            final(self).is_next_data,
            final(self).user_input == old(self).user_input,
            final(self).received_frame == old(self).received_frame,
            final(self).received_data == old(self).received_data,
            final(self).distortion_count == old(self).distortion_count,
            final(self).parity == old(self).parity,
            final(self).msg_debug == old(self).msg_debug,
    {
        self.user_input_prev = self.user_input.clone();
        self.is_next_data = true;
        self.user_input.clone()
    }

    /// The user pressed Enter in the CSMA/CD program: the status shown is cleared, the
    /// text is remembered as sent and the next character typed starts anew. Gives
    /// back the text to send: the text without its last character.
    pub fn on_enter_char_by_char(&mut self) -> (sent: String)
        requires
            old(self).user_input@.len() >= 1,
        ensures
            sent@ == old(self).user_input@.drop_last(),
            final(self).received_frame@ == Seq::<char>::empty(),
            final(self).user_input_prev@ == old(self).user_input@,
            final(self).is_next_data,
            final(self).user_input == old(self).user_input,
            final(self).received_data == old(self).received_data,
            final(self).distortion_count == old(self).distortion_count,
            final(self).parity == old(self).parity,
            final(self).msg_debug == old(self).msg_debug,
    {
        self.received_frame = String::new();
        let v = chars_of(self.user_input.as_str());
        let mut buffer: Vec<char> = Vec::new();
        crate::text::extend_range(&mut buffer, &v, 0, v.len() - 1);
        self.user_input_prev = self.user_input.clone();
        self.is_next_data = true;
        string_of(&buffer)
    }

    /// The user pressed the clear button.
    pub fn on_clear(&mut self)
        ensures
            final(self).user_input@ == Seq::<char>::empty(),
            final(self).user_input_prev == old(self).user_input_prev,
            final(self).is_next_data == old(self).is_next_data,
            final(self).received_frame == old(self).received_frame,
            final(self).received_data == old(self).received_data,
            final(self).distortion_count == old(self).distortion_count,
            final(self).parity == old(self).parity,
            final(self).msg_debug == old(self).msg_debug,
    {
        self.user_input = String::new();
    }

    /// What was read from the port: unless nothing was read, the last frame and its
    /// error count are shown and the data is added to what was received.
    pub fn on_receive(&mut self, frame: String, data: String, count: i32, nothing_read: bool)
        ensures
            nothing_read ==> *final(self) == *old(self),
            !nothing_read ==> {
                &&& final(self).received_frame == frame
                &&& final(self).received_data@ == old(self).received_data@ + data@
                &&& final(self).distortion_count == count
                &&& final(self).user_input == old(self).user_input
                &&& final(self).user_input_prev == old(self).user_input_prev
                &&& final(self).is_next_data == old(self).is_next_data
                &&& final(self).parity == old(self).parity
                &&& final(self).msg_debug == old(self).msg_debug
            },
    {
        if !nothing_read {
            self.received_frame = frame;
            self.received_data.append(data.as_str());
            self.distortion_count = count;
        }
    }

    /// What the CSMA/CD program read from the port: unless nothing was read, a lone
    /// `!` is shown as a collision, and anything else is added to what was received.
    pub fn on_receive_text(&mut self, text: String, nothing_read: bool)
        ensures
            nothing_read ==> *final(self) == *old(self),
            !nothing_read && text@ == "!"@ ==> final(self).msg_debug@ == "collision"@
                && final(self).received_data == old(self).received_data,
            !nothing_read && text@ != "!"@ ==> final(self).received_data@ == old(self).received_data@
                + text@ && final(self).msg_debug == old(self).msg_debug,
            final(self).user_input == old(self).user_input,
            final(self).user_input_prev == old(self).user_input_prev,
            final(self).is_next_data == old(self).is_next_data,
            final(self).received_frame == old(self).received_frame,
            final(self).distortion_count == old(self).distortion_count,
            final(self).parity == old(self).parity,
    {
        if !nothing_read {
            let collision = String::from_str("!");
            if text == collision {
                self.msg_debug = String::from_str("collision");
            } else {
                self.received_data.append(text.as_str());
            }
        }
    }

    /// A status report of the CSMA/CD sender: `!` ends the sending; anything else is
    /// shown. Gives back whether the sending goes on.
    pub fn on_status(&mut self, msg: String) -> (sending: bool)
        ensures
            sending == (msg@ != "!"@),
            sending ==> final(self).received_frame == msg,
            !sending ==> final(self).received_frame == old(self).received_frame,
            final(self).user_input == old(self).user_input,
            final(self).user_input_prev == old(self).user_input_prev,
            final(self).is_next_data == old(self).is_next_data,
            final(self).received_data == old(self).received_data,
            final(self).distortion_count == old(self).distortion_count,
            final(self).parity == old(self).parity,
            final(self).msg_debug == old(self).msg_debug,
    {
        let end = String::from_str("!");
        if msg != end {
            self.received_frame = msg;
            true
        } else {
            false
        }
    }

    /// The user chose a parity.
    pub fn select_parity(&mut self, parity: ParityChoice)
        ensures
            final(self).parity == parity,
            final(self).user_input == old(self).user_input,
            final(self).user_input_prev == old(self).user_input_prev,
            final(self).is_next_data == old(self).is_next_data,
            final(self).received_frame == old(self).received_frame,
            final(self).received_data == old(self).received_data,
            final(self).distortion_count == old(self).distortion_count,
            final(self).msg_debug == old(self).msg_debug,
    {
        self.parity = parity;
    }
}

/// How a character of a received frame is shown: the character, and whether it is
/// highlighted.
pub open spec fn stuffed_cell(c: char) -> (char, bool) {
    if c == 'b' {
        ('0', true)
    } else {
        (c, false)
    }
}

/// Whether a received frame is shown as a stuffed frame: it holds a `b`.
pub open spec fn shows_stuffing(frame: Seq<char>) -> bool {
    exists|i: int| 0 <= i < frame.len() && frame[i] == 'b'
}

/// Whether the received frame `frame` is shown as a stuffed frame.
pub fn is_stuffed_display(frame: &str) -> (r: bool)
    ensures
        r == shows_stuffing(frame@),
{
    let v = chars_of(frame);
    let mut i: usize = 0;
    while i < v.len()
        invariant
            v@ == frame@,
            i <= v@.len(),
            forall|j: int| 0 <= j < i ==> v@[j] != 'b',
        decreases v@.len() - i,
    {
        if v[i] == 'b' {
            return true;
        }
        i += 1;
    }
    false
}

/// How a stuffed frame is shown: each marked symbol `b` as a highlighted `0`, every
/// other character as it is.
pub fn stuffed_cells(frame: &str) -> (cells: Vec<(char, bool)>)
    ensures
        cells@.len() == frame@.len(),
        forall|i: int| 0 <= i < frame@.len() ==> #[trigger] cells@[i] == stuffed_cell(frame@[i]),
{
    let v = chars_of(frame);
    let mut cells: Vec<(char, bool)> = Vec::new();
    let mut i: usize = 0;
    while i < v.len()
        invariant
            v@ == frame@,
            i <= v@.len(),
            cells@.len() == i,
            forall|j: int| 0 <= j < i ==> #[trigger] cells@[j] == stuffed_cell(v@[j]),
        decreases v@.len() - i,
    {
        if v[i] == 'b' {
            cells.push(('0', true));
        } else {
            cells.push((v[i], false));
        }
        i += 1;
    }
    cells
}

/// How the characters of a decoded frame from `from` on are shown, where `in_fcs`
/// tells whether a `|` came before: the `|` marks are left out, and every character
/// after the first of them is highlighted.
pub open spec fn coded_cells_from(frame: Seq<char>, from: nat, in_fcs: bool) -> Seq<(char, bool)>
    decreases frame.len() - from,
{
    if from >= frame.len() {
        Seq::empty()
    } else if frame[from as int] == '|' {
        coded_cells_from(frame, from + 1, true)
    } else {
        seq![(frame[from as int], in_fcs)] + coded_cells_from(frame, from + 1, in_fcs)
    }
}

/// How a decoded frame is shown: the `|` marks left out, the check field after the
/// first of them highlighted.
pub fn coded_cells(frame: &str) -> (cells: Vec<(char, bool)>)
    ensures
        cells@ == coded_cells_from(frame@, 0, false),
{
    let v = chars_of(frame);
    let mut cells: Vec<(char, bool)> = Vec::new();
    let mut in_fcs = false;
    let mut i: usize = 0;
    while i < v.len()
        invariant
            v@ == frame@,
            i <= v@.len(),
            cells@ + coded_cells_from(v@, i as nat, in_fcs) == coded_cells_from(v@, 0, false),
        decreases v@.len() - i,
    {
        if v[i] == '|' {
            in_fcs = true;
        } else {
            let ghost rest = coded_cells_from(v@, (i + 1) as nat, in_fcs);
            cells.push((v[i], in_fcs));
            assert(cells@ + rest =~= cells@.drop_last() + (seq![(v@[i as int], in_fcs)] + rest));
        }
        i += 1;
    }
    assert(cells@ + coded_cells_from(v@, i as nat, in_fcs) =~= cells@);
    cells
}

} // verus!
