//! The packet that carries up to sixteen data bits over the link.

use vstd::prelude::*;
use crate::stuffing::flag;
use crate::text::{lemma_ascii_add, lemma_ascii_subrange};
use vstd::utf8::is_ascii_chars;

verus! {

/// The fields of a packet, as character sequences.
pub struct PacketView {
    pub data: Seq<char>,
    pub flag: Seq<char>,
    pub destination_address: Seq<char>,
    pub source_address: Seq<char>,
    pub length: Seq<char>,
    pub fcs: Seq<char>,
}

/// A packet: flag, destination and source address, length, data and check field.
pub struct Packet {
    data: String,
    flag: String,
    destination_address: String,
    source_address: String,
    length: String,
    fcs: String,
}

impl View for Packet {
    type V = PacketView;

    closed spec fn view(&self) -> PacketView {
        PacketView {
            data: self.data@,
            flag: self.flag@,
            destination_address: self.destination_address@,
            source_address: self.source_address@,
            length: self.length@,
            fcs: self.fcs@,
        }
    }
}

/// The address `0000` that both peers use.
pub open spec fn zero_address() -> Seq<char> {
    seq!['0', '0', '0', '0']
}

/// Whether `c` is a binary digit.
pub open spec fn is_bit(c: char) -> bool {
    c == '0' || c == '1'
}

/// Whether `p` is a packet as `Packet::new` makes it, with a length field of four
/// binary digits.
pub open spec fn well_made(p: PacketView) -> bool {
    &&& p.flag == flag()
    &&& p.destination_address == zero_address()
    &&& p.source_address == zero_address()
    &&& p.fcs == seq!['0']
    &&& p.length.len() == 4
    &&& forall|j: int| 0 <= j < 4 ==> is_bit(#[trigger] p.length[j])
}

/// The packet's serialised form: flag, destination, source, length, data, check field.
pub open spec fn packet_chars(p: PacketView) -> Seq<char> {
    p.flag + p.destination_address + p.source_address + p.length + p.data + p.fcs
}

impl Packet {
    /// A packet with the given data and length field, the flag, both addresses `0000`
    /// and the check field `0`.
    pub fn new(udata: String, ulen: String) -> (p: Self)
        ensures
            p@.data == udata@,
            p@.length == ulen@,
            p@.flag == flag(),
            p@.destination_address == zero_address(),
            p@.source_address == zero_address(),
            p@.fcs == seq!['0'],
    {
        proof {
            reveal_strlit("01110111");
            reveal_strlit("0000");
            reveal_strlit("0");
        }
        Packet {
            data: udata,
            flag: String::from_str("01110111"),
            destination_address: String::from_str("0000"),
            source_address: String::from_str("0000"),
            length: ulen,
            fcs: String::from_str("0"),
        }
    }

    /// The packet's serialised form.
    pub fn as_string(&self) -> (s: String)
        ensures
            s@ == packet_chars(self@),
    {
        let mut complete_packet = String::new();
        complete_packet.append(self.flag.as_str());
        complete_packet.append(self.destination_address.as_str());
        complete_packet.append(self.source_address.as_str());
        complete_packet.append(self.length.as_str());
        complete_packet.append(self.data.as_str());
        complete_packet.append(self.fcs.as_str());
        assert(complete_packet@ =~= packet_chars(self@));
        complete_packet
    }

    /// The packet's data field.
    pub fn data(&self) -> (d: &String)
        ensures
            d@ == self@.data,
    {
        &self.data
    }
}

/// The serialised form of a packet is ASCII where its fields are, and its data is
/// ASCII where the serialised form is.
pub proof fn lemma_packet_chars_ascii(p: PacketView)
    ensures
        is_ascii_chars(p.flag) && is_ascii_chars(p.destination_address) && is_ascii_chars(p.source_address)
            && is_ascii_chars(p.length) && is_ascii_chars(p.data) && is_ascii_chars(p.fcs) ==> is_ascii_chars(
            packet_chars(p),
        ),
        is_ascii_chars(packet_chars(p)) ==> is_ascii_chars(p.data),
{
    let head = p.flag + p.destination_address + p.source_address + p.length;
    if is_ascii_chars(p.flag) && is_ascii_chars(p.destination_address) && is_ascii_chars(p.source_address)
        && is_ascii_chars(p.length) && is_ascii_chars(p.data) && is_ascii_chars(p.fcs) {
        lemma_ascii_add(p.flag, p.destination_address);
        lemma_ascii_add(p.flag + p.destination_address, p.source_address);
        lemma_ascii_add(p.flag + p.destination_address + p.source_address, p.length);
        lemma_ascii_add(head, p.data);
        lemma_ascii_add(head + p.data, p.fcs);
    }
    if is_ascii_chars(packet_chars(p)) {
        lemma_ascii_subrange(packet_chars(p), head.len() as int, head.len() + p.data.len() as int);
        assert(packet_chars(p).subrange(head.len() as int, head.len() + p.data.len() as int) =~= p.data);
    }
}

/// A well-made packet with ASCII data serialises to ASCII.
pub proof fn lemma_well_made_ascii(p: PacketView)
    requires
        well_made(p),
        is_ascii_chars(p.data),
    ensures
        is_ascii_chars(packet_chars(p)),
{
    assert forall|j: int| 0 <= j < p.length.len() implies '\0' <= #[trigger] p.length[j] <= '\u{7f}' by {
        assert(is_bit(p.length[j]));
    }
    lemma_packet_chars_ascii(p);
}

} // verus!
