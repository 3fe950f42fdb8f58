use serport::hamming::{
    distort_with, flip_one,
    data_parity, decode_hamming, decode_hamming_with, encode_hamming, frame_for_print,
    hamming_parity_counting, make_hamming_string, random_change, random_distortion,
};
use serport::hamming_link::{
    can_receive, decode_frame, encode_packet, frames_to_send, get_data_from_frame, read_port_data,
};
use serport::packet::Packet;

fn ones(s: &str) -> usize {
    s.chars().filter(|c| *c == '1').count()
}

#[test]
fn layout_marks_the_check_positions() {
    assert_eq!(make_hamming_string("1011".to_string(), 3), "xx1x011");
    assert_eq!(make_hamming_string("10110".to_string(), 4), "xx1x011x0");
}

#[test]
fn parity_of_the_covered_ones() {
    assert_eq!(hamming_parity_counting("xx1x011".to_string(), 1, 7), 0);
    assert_eq!(hamming_parity_counting("xx1x011".to_string(), 2, 7), 1);
    assert_eq!(hamming_parity_counting("xx1x011".to_string(), 4, 7), 0);
}

#[test]
fn parity_of_the_data_after_the_header() {
    assert_eq!(data_parity("0111011100000000010110110".to_string()), "1");
    assert_eq!(data_parity("01110111000000000101".to_string()), "0");
}

#[test]
fn check_field_marked_for_display() {
    assert_eq!(
        frame_for_print("0111011100000000010110110001001".to_string(), 5),
        "01110111000000000101101100|01001"
    );
    assert_eq!(frame_for_print("01".to_string(), 0), "01|");
}

#[test]
fn check_bits_of_data() {
    assert_eq!(encode_hamming("1011".to_string()), "0101");
    assert_eq!(encode_hamming("10110".to_string()), "01001");
    assert_eq!(encode_hamming("1011001110001111".to_string()), "000100");
    assert_eq!(encode_hamming("0".to_string()), "000");
    assert_eq!(encode_hamming("11".to_string()), "0110");
    assert_eq!(encode_hamming(String::new()), "0");
}

#[test]
fn coded_packet_carries_its_check_bits() {
    let frame = encode_packet(Packet::new("10110".to_string(), "0101".to_string()));
    assert_eq!(frame, "0111011100000000010110110001001");
}

#[test]
fn stuffed_coded_packet_carries_a_zero() {
    let frame = encode_packet(Packet::new("0111011111111111".to_string(), "1111".to_string()));
    assert_eq!(frame, "011101110000000011110111011011111111100");
}

#[test]
fn clean_frame_decodes_without_error() {
    let frame = "0111011100000000010110110001001".to_string();
    let r = decode_hamming_with(frame, "101100".to_string()).unwrap();
    assert_eq!(r.0, "01110111000000000101101100|01001");
    assert_eq!(r.1, "01110111000000000101101100|01001");
    assert_eq!(r.2, 0);
    assert_eq!(get_data_from_frame(r.1), "101100\n");
}

#[test]
fn one_flipped_character_is_corrected() {
    let frame = "0111011100000000010110110001001".to_string();
    let r = decode_hamming_with(frame.clone(), "001100".to_string()).unwrap();
    assert_eq!(r.0, "01110111000000000101001100|01001");
    assert_eq!(r.1, "01110111000000000101101100|01001");
    assert_eq!(r.2, 1);
    let r = decode_hamming_with(frame, "101101".to_string()).unwrap();
    assert_eq!(r.0, "01110111000000000101101101|01001");
    assert_eq!(r.1, "01110111000000000101101100|01001");
    assert_eq!(r.2, 1);
}

#[test]
fn one_flipped_character_of_a_full_packet_is_corrected() {
    let frame = "0111011100000000111110110011100011110000100".to_string();
    let r = decode_hamming_with(frame.clone(), "10110011100011110".to_string()).unwrap();
    assert_eq!(r.2, 0);
    assert_eq!(r.1, "0111011100000000111110110011100011110|000100");
    let r = decode_hamming_with(frame, "10110010100011110".to_string()).unwrap();
    assert_eq!(r.0, "0111011100000000111110110010100011110|000100");
    assert_eq!(r.1, "0111011100000000111110110011100011110|000100");
    assert_eq!(r.2, 1);
}

#[test]
fn two_flipped_characters_are_found_not_corrected() {
    let frame = "0111011100000000010110110001001".to_string();
    let r = decode_hamming_with(frame, "011100".to_string()).unwrap();
    assert_eq!(r.0, "01110111000000000101011100|01001");
    assert_eq!(r.1, "011101110000000001010|10100");
    assert_eq!(r.2, 2);
}

#[test]
fn four_data_characters_need_a_further_check_bit() {
    // the packet's check field `0` makes the check bits of the data too few
    let frame = encode_packet(Packet::new("1011".to_string(), "0100".to_string()));
    assert_eq!(frame, "01110111000000000100101100101");
    let r = decode_hamming_with(frame, "1011".to_string()).unwrap();
    assert_eq!(r.1, "011101110000000001001011|00101");
    assert_eq!(r.2, 2);
}

#[test]
fn closing_frame_is_shown_as_it_is() {
    let frame = "01110111000000000000".to_string();
    let r = decode_hamming_with(frame.clone(), String::new()).unwrap();
    assert_eq!((r.0.as_str(), r.1.as_str(), r.2), (frame.as_str(), frame.as_str(), 0));
    let r = decode_hamming(frame.clone()).unwrap();
    assert_eq!((r.0.as_str(), r.1.as_str(), r.2), (frame.as_str(), frame.as_str(), 0));
}

#[test]
fn one_character_body_gives_nothing() {
    let r = decode_hamming("011101110000000001011".to_string()).unwrap();
    assert_eq!((r.0.as_str(), r.1.as_str(), r.2), ("", "", 0));
}

#[test]
fn frame_too_short_has_no_decoding() {
    assert!(decode_hamming_with("0111".to_string(), String::new()).is_none());
    assert!(decode_hamming_with("01110111000000000001".to_string(), String::new()).is_none());
}

#[test]
fn two_character_body_is_reported_as_an_error() {
    let r = decode_hamming_with("0111011100000000000111".to_string(), String::new()).unwrap();
    assert_eq!(r.0, "01110111000000000001|11");
    assert_eq!(r.2, 2);
}

#[test]
fn random_change_flips_exactly_one_character() {
    for _ in 0..50 {
        let out = random_change("0000".to_string());
        assert_eq!(out.len(), 4);
        assert_eq!(ones(&out), 1);
    }
}

#[test]
fn random_distortion_flips_at_most_two_characters() {
    for _ in 0..100 {
        let out = random_distortion("000000".to_string()).unwrap();
        assert_eq!(out.len(), 6);
        assert!(ones(&out) <= 2);
    }
    for _ in 0..20 {
        match random_distortion(String::new()) {
            Some(d) => assert_eq!(d, ""),
            None => {}
        }
    }
}

#[test]
fn random_decoding_gives_back_the_frame_or_reports_an_error() {
    let clean = "01110111000000000101101100|01001";
    for _ in 0..200 {
        let r = decode_hamming("0111011100000000010110110001001".to_string()).unwrap();
        assert!(r.2 == 0 || r.2 == 1 || r.2 == 2);
        if r.2 != 2 {
            assert_eq!(r.1, clean);
        }
    }
}

#[test]
fn stuffed_frame_is_marked_by_the_decoder() {
    let r = decode_frame("011101110000000011110111011011111111100".to_string()).unwrap();
    assert_eq!(r.0, "011101110000000011110111011b11111111100");
    assert_eq!(r.1, r.0);
    assert_eq!(r.2, 0);
}

#[test]
fn coded_message_is_cut_into_packets() {
    let frames = frames_to_send("10110\n".to_string());
    assert_eq!(frames, vec!["0111011100000000010110110001001".to_string()]);
}

#[test]
fn coded_short_message_is_received_with_its_check_field_zero() {
    let stream = frames_to_send("10110\n".to_string()).concat();
    assert!(can_receive(&stream));
    for _ in 0..50 {
        let (frame, text, count, empty) = read_port_data(stream.clone()).unwrap();
        assert!(!empty);
        if count != 2 {
            assert_eq!(text, "101100\n");
        }
        assert!(frame.contains('|'));
    }
}

#[test]
fn nothing_read_by_the_coded_receiver() {
    let (frame, text, count, empty) = read_port_data(String::new()).unwrap();
    assert_eq!((frame.as_str(), text.as_str(), count, empty), ("", "", 0, true));
}

#[test]
fn coded_receiver_refuses_a_one_character_body() {
    assert!(!can_receive("011101110000000001011"));
    assert!(can_receive("01110111000000000000"));
}

#[test]
fn distortion_follows_the_draw() {
    assert_eq!(flip_one("0110".to_string(), 2), "0100");
    assert_eq!(distort_with("0110".to_string(), 2, 0, 0).unwrap(), "0110");
    assert_eq!(distort_with("0110".to_string(), 1, 0, 3).unwrap(), "1110");
    assert_eq!(distort_with("0110".to_string(), 3, 3, 0).unwrap(), "0111");
    assert_eq!(distort_with("0110".to_string(), 4, 0, 1).unwrap(), "1010");
    assert_eq!(distort_with("0110".to_string(), 4, 1, 1).unwrap(), "0110");
    assert!(distort_with(String::new(), 1, 0, 0).is_none());
    assert_eq!(distort_with(String::new(), 2, 0, 0).unwrap(), "");
}

#[test]
fn parity_after_the_header_counts_any_characters() {
    assert_eq!(data_parity("01110111000000000101é1".to_string()), "1");
    assert_eq!(data_parity("01110111000000000101é".to_string()), "0");
    assert_eq!(data_parity("0111011100000000010111é".to_string()), "0");
    assert_eq!(data_parity("011101110000000001011é".to_string()), "1");
}

#[test]
fn closing_frames_are_decoded_without_a_draw() {
    for _ in 0..20 {
        let r = decode_frame("01110111000000000000".to_string()).unwrap();
        assert_eq!((r.0.as_str(), r.1.as_str(), r.2), ("01110111000000000000", "01110111000000000000", 0));
        let (frame, text, count, empty) =
            read_port_data("0111011100000000000001110111000000000000".to_string()).unwrap();
        assert_eq!((frame.as_str(), text.as_str(), count, empty), ("01110111000000000000", "\n\n", 0, false));
    }
}

#[test]
fn coded_frame_of_data_and_its_check_field() {
    let h = "01110111000000000101";
    let d = "10110";
    let e = encode_hamming(d.to_string());
    let frame = format!("{}{}{}", h, d, e);
    let r = decode_hamming_with(frame.clone(), d.to_string()).unwrap();
    assert_eq!(r.1, frame_for_print(frame.clone(), e.len()));
    assert_eq!(r.2, 0);
    let r = decode_hamming_with(frame.clone(), "10010".to_string()).unwrap();
    assert_eq!(r.0, "0111011100000000010110010|01001");
    assert_eq!(r.1, "0111011100000000010110110|01001");
    assert_eq!(r.2, 1);
    let r = decode_hamming_with(frame, "00100".to_string()).unwrap();
    assert_eq!(r.0, "0111011100000000010100100|01001");
    assert_eq!(r.2, 2);
}
