use serport::connection::{probe_port, probe_step, search_timed_out, ProbeOutcome, ProbeStage, SerialConnection};
use serport::csma::{channel_free, draw_line_state, CsmaSender, SendAction, MAX_COLLISIONS};
use serport::framing::{cut_frames, has_stuffing_pattern, length_field};
use serport::screen::{coded_cells, is_stuffed_display, sanitize_input, stuffed_cells, ParityChoice, Screen};
use serport::text::{chars_of, string_of};

#[test]
fn length_field_in_four_binary_digits() {
    assert_eq!(length_field(0), "0000");
    assert_eq!(length_field(5), "0101");
    assert_eq!(length_field(15), "1111");
    assert_eq!(length_field(8), "1000");
}

#[test]
fn stuffing_pattern_is_found_from_a_position_on() {
    let v = chars_of("0111011100000111011");
    assert!(has_stuffing_pattern(&v, 9));
    assert!(has_stuffing_pattern(&v, 0));
    assert!(!has_stuffing_pattern(&v, 13));
    assert!(!has_stuffing_pattern(&chars_of("0111"), 0));
}

#[test]
fn receiver_cuts_at_the_flags() {
    let one = "0111011100000000111111111111111111110";
    let two = "0111011100000000010011110";
    let stream = format!("{}{}", one, two);
    assert_eq!(cut_frames(&chars_of(&stream)), vec![(0, 37), (37, 62)]);
    let three = format!("{}{}{}", one, one, "011101110000000000000");
    assert_eq!(cut_frames(&chars_of(&three)), vec![(0, 37), (74, 95)]);
    assert_eq!(cut_frames(&chars_of("0")), vec![(0, 1)]);
    assert_eq!(cut_frames(&chars_of("1010101010")), vec![(0, 10)]);
}

#[test]
fn characters_and_strings_convert_both_ways() {
    let v = chars_of("01\n");
    assert_eq!(v, vec!['0', '1', '\n']);
    assert_eq!(string_of(&v), "01\n");
}

#[test]
fn channel_is_free_for_one_and_two() {
    assert!(channel_free(1));
    assert!(channel_free(2));
    assert!(!channel_free(3));
    assert!(!channel_free(4));
    for _ in 0..50 {
        let d = draw_line_state();
        assert!((1..=4).contains(&d));
    }
}

#[test]
fn delivered_character_adds_a_line_end() {
    let mut s = CsmaSender::new();
    s.start_character();
    match s.after_attempt(1) {
        SendAction::Delivered(r) => assert_eq!(r, "\n"),
        _ => panic!("expected delivery"),
    }
    assert_eq!(s.collisions, 0);
}

#[test]
fn collision_backs_off_exponentially() {
    let mut s = CsmaSender::new();
    s.start_character();
    match s.after_attempt(4) {
        SendAction::Retry(r, ms) => {
            assert_eq!(r, "c");
            assert_eq!(ms, 902);
        }
        _ => panic!("expected a retry"),
    }
    match s.after_attempt(4) {
        SendAction::Retry(r, ms) => {
            assert_eq!(r, "cc");
            assert_eq!(ms, 904);
        }
        _ => panic!("expected a retry"),
    }
    match s.after_attempt(3) {
        SendAction::Delivered(r) => assert_eq!(r, "cc\n"),
        _ => panic!("expected delivery"),
    }
    assert_eq!(s.collisions, 2);
    s.start_character();
    assert_eq!(s.collisions, 0);
    assert_eq!(s.log, "cc\n");
}

#[test]
fn sender_gives_up_after_eleven_collisions() {
    let mut s = CsmaSender::new();
    s.start_character();
    for k in 1..=MAX_COLLISIONS {
        match s.after_attempt(4) {
            SendAction::Retry(_, ms) => assert_eq!(ms, (1u64 << k) + 900),
            _ => panic!("expected a retry"),
        }
    }
    match s.after_attempt(4) {
        SendAction::GiveUp(r, ms) => {
            assert_eq!(r, "c".repeat(11));
            assert_eq!(ms, 2048 + 900);
        }
        _ => panic!("expected to give up"),
    }
    assert_eq!(s.log, format!("{} send error\n", "c".repeat(11)));
}

#[test]
fn typed_text_is_cut_at_the_first_character_not_allowed() {
    assert_eq!(sanitize_input("0110\n01"), "0110\n01");
    assert_eq!(sanitize_input("01a10"), "01");
    assert_eq!(sanitize_input("x"), "");
    assert_eq!(sanitize_input(""), "");
}

#[test]
fn text_typed_after_sending_starts_anew() {
    let mut s = Screen::new();
    s.user_input = "101\n".to_string();
    s.settle_input();
    assert_eq!(s.user_input, "101\n");
    assert_eq!(s.on_enter(), "101\n");
    assert!(s.is_next_data);
    s.user_input = "101\n1".to_string();
    s.settle_input();
    assert_eq!(s.user_input, "1");
    assert!(!s.is_next_data);
    s.user_input = "12".to_string();
    s.settle_input();
    assert_eq!(s.user_input, "1");
}

#[test]
fn enter_in_the_csma_program_sends_without_the_last_character() {
    let mut s = Screen::new();
    s.received_frame = "cc\n".to_string();
    s.user_input = "101\n".to_string();
    assert_eq!(s.on_enter_char_by_char(), "101");
    assert_eq!(s.received_frame, "");
    assert_eq!(s.user_input_prev, "101\n");
}

#[test]
fn window_keeps_what_was_received() {
    let mut s = Screen::new();
    s.on_receive("f".to_string(), "10\n".to_string(), 1, false);
    s.on_receive("g".to_string(), "x".to_string(), 2, true);
    assert_eq!(s.received_frame, "f");
    assert_eq!(s.received_data, "10\n");
    assert_eq!(s.distortion_count, 1);
    assert!(s.on_status("c".to_string()));
    assert_eq!(s.received_frame, "c");
    assert!(!s.on_status("!".to_string()));
    assert_eq!(s.received_frame, "c");
    s.select_parity(ParityChoice::Odd);
    assert!(s.parity == ParityChoice::Odd);
    s.user_input = "1".to_string();
    s.on_clear();
    assert_eq!(s.user_input, "");
}

#[test]
fn frames_are_shown_by_kind() {
    assert!(is_stuffed_display("0111b0"));
    assert!(!is_stuffed_display("01|1"));
    assert_eq!(stuffed_cells("1b0"), vec![('1', false), ('0', true), ('0', false)]);
    assert_eq!(coded_cells("10|01|1"), vec![('1', false), ('0', false), ('0', true), ('1', true), ('1', true)]);
}

#[test]
fn peers_take_the_two_pairs_of_ports() {
    let a = SerialConnection::default();
    let b = SerialConnection::change_pair();
    assert_eq!((a.self_read, a.self_write, a.other_read, a.other_write), (21, 20, 11, 10));
    assert_eq!((b.self_read, b.self_write, b.other_read, b.other_write), (11, 10, 21, 20));
}

#[test]
fn search_for_ports_follows_its_steps() {
    assert_eq!(probe_port(ProbeStage::PrimaryWrite), "/tmp/ttyS20");
    assert_eq!(probe_port(ProbeStage::SecondaryRead), "/tmp/ttyS11");
    assert!(matches!(probe_step(ProbeStage::PrimaryWrite, true), ProbeOutcome::Next(ProbeStage::PrimaryRead)));
    assert!(matches!(probe_step(ProbeStage::PrimaryWrite, false), ProbeOutcome::Next(ProbeStage::SecondaryWrite)));
    assert!(matches!(probe_step(ProbeStage::SecondaryWrite, false), ProbeOutcome::Retry));
    match probe_step(ProbeStage::SecondaryRead, true) {
        ProbeOutcome::Found(read, write, c) => {
            assert_eq!(read, "/tmp/ttyS11");
            assert_eq!(write, "/tmp/ttyS10");
            assert_eq!(c.self_write, 10);
        }
        _ => panic!("expected a pair"),
    }
    assert!(!search_timed_out(5_000_000_000));
    assert!(search_timed_out(5_000_000_001));
}

#[test]
fn cutting_typed_text_twice_changes_nothing() {
    for text in ["01a10", "0\n1\n", "2", "", "1x1"] {
        let once = sanitize_input(text);
        assert_eq!(sanitize_input(&once), once);
        assert!(once.chars().all(|c| c == '0' || c == '1' || c == '\n'));
    }
}

#[test]
fn settled_text_holds_only_allowed_characters() {
    let mut s = Screen::new();
    s.user_input_prev = "é".to_string();
    s.is_next_data = true;
    s.user_input = "101x".to_string();
    s.settle_input();
    // "é" takes two bytes, and the cut text "101" is longer than that
    assert_eq!(s.user_input, "1");
    assert!(!s.is_next_data);
}
