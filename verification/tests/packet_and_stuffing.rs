use serport::packet::Packet;
use serport::stuffing::{bit_staffing, try_bit_staffing};
use serport::stuffing_link::{can_receive, encode_packet, frames_to_send, get_data_from_frame, read_port_data};

#[test]
fn packet_serialises_its_fields_in_order() {
    let p = Packet::new("1011".to_string(), "0100".to_string());
    assert_eq!(p.data(), "1011");
    assert_eq!(p.as_string(), "0111011100000000010010110");
}

#[test]
fn sender_stuffs_after_each_pattern() {
    let out = bit_staffing("0111011101110110111011".to_string(), 7, "0");
    assert_eq!(out, "011101110111011001110110");
}

#[test]
fn receiver_marks_the_stuffed_symbols() {
    let sent = bit_staffing("0111011101110110111011".to_string(), 7, "0");
    let marked = bit_staffing(sent, 8, "b");
    assert_eq!(marked, "011101110111011b0111011b");
    let unmarked: String = marked.chars().filter(|c| *c != 'b').collect();
    assert_eq!(unmarked, "0111011101110110111011");
}

#[test]
fn stuffing_of_a_frame_shorter_than_the_flag_fails() {
    assert!(try_bit_staffing("0111", 7, "0").is_none());
    assert!(try_bit_staffing("", 8, "b").is_none());
    assert_eq!(try_bit_staffing("01110111", 7, "0").unwrap(), "01110111");
}

#[test]
fn stuffing_whose_step_leads_past_the_end_fails() {
    // a pattern right at the end, with a step that jumps past it
    assert!(try_bit_staffing("011101110111011", 9, "b").is_none());
    assert!(try_bit_staffing("011101110111011", 0, "b").is_none());
    assert_eq!(try_bit_staffing("011101110111011", 7, "0").unwrap(), "0111011101110110");
}

#[test]
fn packet_without_pattern_goes_out_unstuffed() {
    let frame = encode_packet(Packet::new("1011".to_string(), "0100".to_string()));
    assert_eq!(frame, "0111011100000000010010110");
}

#[test]
fn packet_with_pattern_goes_out_stuffed() {
    let frame = encode_packet(Packet::new("0111011111111111".to_string(), "1111".to_string()));
    assert_eq!(frame, "01110111000000001111011101101111111110");
}

#[test]
fn message_is_cut_into_packets_of_sixteen() {
    let frames = frames_to_send(format!("{}\n", "1".repeat(20)));
    assert_eq!(frames.len(), 2);
    assert_eq!(frames[0], "0111011100000000111111111111111111110");
    assert_eq!(frames[1], "0111011100000000010011110");
}

#[test]
fn message_of_sixteen_is_one_packet() {
    let frames = frames_to_send(format!("{}\n", "1".repeat(16)));
    assert_eq!(frames.len(), 1);
    assert_eq!(frames[0], "0111011100000000111111111111111111110");
}

#[test]
fn message_of_thirty_two_ends_with_an_empty_packet() {
    let frames = frames_to_send(format!("{}\n", "1".repeat(32)));
    assert_eq!(frames.len(), 3);
    assert_eq!(frames[2], "011101110000000000000");
}

#[test]
fn empty_message_is_one_empty_packet() {
    let frames = frames_to_send("\n".to_string());
    assert_eq!(frames, vec!["011101110000000000000".to_string()]);
}

#[test]
fn data_of_a_frame_leaves_out_marks_and_the_check_field() {
    assert_eq!(get_data_from_frame("011101110000000011110111011b1111111110".to_string()), "0111011111111111\n");
    assert_eq!(get_data_from_frame("011101110000000000000".to_string()), "\n");
}

#[test]
fn short_message_is_received_as_sent() {
    let frames = frames_to_send("10110\n".to_string());
    let stream = frames.concat();
    assert!(can_receive(&stream));
    let (frame, text, empty) = read_port_data(stream);
    assert_eq!(frame, "01110111000000000101101100");
    assert_eq!(text, "10110\n");
    assert!(!empty);
}

#[test]
fn stuffed_message_is_received_as_sent() {
    let frames = frames_to_send("0111011111111111\n".to_string());
    let stream = frames.concat();
    assert!(can_receive(&stream));
    let (frame, text, empty) = read_port_data(stream);
    assert_eq!(frame, "011101110000000011110111011b1111111110");
    assert_eq!(text, "0111011111111111\n");
    assert!(!empty);
}

#[test]
fn two_frames_are_both_received() {
    let stream = frames_to_send(format!("{}\n", "1".repeat(20))).concat();
    let (_, text, _) = read_port_data(stream);
    assert_eq!(text, "1111111111111111\n1111\n");
}

#[test]
fn the_second_of_three_frames_is_lost() {
    let stream = frames_to_send(format!("{}\n", "1".repeat(32))).concat();
    let (frame, text, _) = read_port_data(stream);
    assert_eq!(frame, "011101110000000000000");
    assert_eq!(text, "1111111111111111\n\n");
}

#[test]
fn nothing_read_is_reported_empty() {
    assert!(can_receive(""));
    let (frame, text, empty) = read_port_data(String::new());
    assert_eq!(frame, "");
    assert_eq!(text, "");
    assert!(empty);
}

#[test]
fn garbage_cannot_be_received() {
    assert!(!can_receive("0"));
    assert!(!can_receive("0111011100000000"));
}

#[test]
fn packets_give_back_the_message() {
    let message = format!("{}\n", "0110".repeat(10));
    let frames = frames_to_send(message.clone());
    assert_eq!(frames.len(), 3);
    let joined: String = frames
        .into_iter()
        .map(|f| get_data_from_frame(bit_staffing(f, 8, "b")))
        .map(|d| d.trim_end_matches('\n').to_string())
        .collect();
    assert_eq!(joined, "0110".repeat(10));
}
