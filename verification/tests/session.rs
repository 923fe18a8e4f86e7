use direlera_rs::handlers::handle_message;
use direlera_rs::handlers::util::{
    detect_encoding_from_message, detect_language, make_server_information, TextEncoding,
};
use direlera_rs::kaillera::message_types as msg;
use direlera_rs::kaillera::protocol::{ParsedMessage, UDPPacketGenerator};
use direlera_rs::packet_util::{control_reply, parse_packet};
use direlera_rs::session_manager::{
    expired_sessions, process_packet, session_expired, CLEANUP_INTERVAL_MS, SESSION_TIMEOUT_MS,
};
use direlera_rs::state::{AppState, HandlerError, Message};

/// One framed message: number, length, type, data.
fn framed(number: u16, kind: u8, data: &[u8]) -> Vec<u8> {
    let len = (data.len() + 1) as u16;
    let mut v = vec![(number % 256) as u8, (number / 256) as u8, (len % 256) as u8, (len / 256) as u8, kind];
    v.extend_from_slice(data);
    v
}

fn datagram(msgs: &[Vec<u8>]) -> Vec<u8> {
    let mut v = vec![msgs.len() as u8];
    for m in msgs {
        v.extend_from_slice(m);
    }
    v
}

#[test]
fn first_message_is_handled_and_count_moves_on() {
    let mut st = AppState::new();
    let mut out: Vec<Message> = Vec::new();
    let login = framed(0, msg::USER_LOGIN, b"alice\0emu\0\x01");
    let rep = process_packet(&mut st, &mut out, &datagram(&[login.clone()]), 1, None, 0, "Hi").unwrap();
    assert_eq!(rep.next_expected, Some(1));
    assert!(rep.errors.is_empty());
    assert!(rep.fatal.is_none());
    assert_eq!(st.clients.len(), 1);
    // the redundant copy of message 0 in the next datagram is skipped
    let ack = framed(1, msg::CLIENT_TO_SERVER_ACK, &[0, 0, 0, 0, 0]);
    let rep = process_packet(&mut st, &mut out, &datagram(&[ack, login]), 1, Some(1), 10, "Hi").unwrap();
    assert_eq!(rep.next_expected, Some(2));
    assert_eq!(st.clients[0].info.ack_count, 1);
    assert_eq!(st.clients.len(), 1);
}

#[test]
fn a_lone_message_zero_starts_the_count_again() {
    let mut st = AppState::new();
    let mut out: Vec<Message> = Vec::new();
    let login = framed(0, msg::USER_LOGIN, b"bob\0emu\0\x01");
    let rep = process_packet(&mut st, &mut out, &datagram(&[login]), 1, Some(40), 0, "Hi").unwrap();
    assert_eq!(rep.next_expected, Some(1));
    assert_eq!(st.clients.len(), 1);
}

#[test]
fn out_of_order_messages_wait() {
    let mut st = AppState::new();
    let mut out: Vec<Message> = Vec::new();
    let m = framed(5, msg::CLIENT_KEEP_ALIVE, &[0]);
    let rep = process_packet(&mut st, &mut out, &datagram(&[m.clone(), m]), 1, Some(3), 0, "Hi").unwrap();
    assert_eq!(rep.next_expected, Some(3));
}

#[test]
fn handler_errors_are_reported_and_fatal_ones_end_the_session() {
    let mut st = AppState::new();
    let mut out: Vec<Message> = Vec::new();
    // a drop from an unknown client is reported; the next message still runs
    let drop = framed(0, msg::DROP_GAME, &[0, 0]);
    let keep = framed(1, msg::CLIENT_KEEP_ALIVE, &[0]);
    let rep = process_packet(&mut st, &mut out, &datagram(&[drop, keep]), 1, None, 0, "Hi").unwrap();
    assert_eq!(rep.errors.len(), 1);
    assert_eq!(rep.errors[0].number, 0);
    assert_eq!(rep.errors[0].kind, msg::DROP_GAME);
    assert_eq!(rep.errors[0].error, HandlerError::ClientNotFound);
    assert_eq!(rep.next_expected, Some(2));
    // an ack from an unknown client ends the session; later messages wait
    let ack = framed(2, msg::CLIENT_TO_SERVER_ACK, &[0]);
    let keep = framed(3, msg::CLIENT_KEEP_ALIVE, &[0]);
    let rep = process_packet(&mut st, &mut out, &datagram(&[ack, keep]), 1, Some(2), 0, "Hi").unwrap();
    assert_eq!(rep.fatal, Some(HandlerError::MissingClient));
    assert!(rep.errors.is_empty());
    assert_eq!(rep.next_expected, Some(3));
}

#[test]
fn the_count_may_not_pass_its_limit() {
    let mut st = AppState::new();
    let mut out: Vec<Message> = Vec::new();
    let m = framed(65535, msg::CLIENT_KEEP_ALIVE, &[0]);
    let rep = process_packet(&mut st, &mut out, &datagram(&[m]), 1, Some(65535), 0, "Hi").unwrap();
    assert_eq!(rep.fatal, Some(HandlerError::SequenceOverflow));
    assert_eq!(rep.next_expected, Some(65535));
}

#[test]
fn bad_datagrams_are_refused_untouched() {
    let mut st = AppState::new();
    let mut out: Vec<Message> = Vec::new();
    let r = process_packet(&mut st, &mut out, &[], 1, Some(4), 0, "Hi");
    assert_eq!(r.err(), Some("Packet is empty.".to_string()));
    let r = process_packet(&mut st, &mut out, &[1, 0, 0], 1, Some(4), 0, "Hi");
    assert!(r.is_err());
    assert!(out.is_empty());
}

#[test]
fn unknown_message_types_do_nothing() {
    let mut st = AppState::new();
    let mut out: Vec<Message> = Vec::new();
    let m = ParsedMessage { message_number: 0, message_length: 1, message_type: 0x7f, data: vec![] };
    assert_eq!(handle_message(&mut st, &mut out, &m, 1, 0, "Hi"), Ok(()));
    assert!(out.is_empty());
}

#[test]
fn silent_sessions_expire() {
    assert_eq!(SESSION_TIMEOUT_MS, 300_000);
    assert_eq!(CLEANUP_INTERVAL_MS, 3_000);
    assert!(!session_expired(0, 300_000));
    assert!(session_expired(0, 300_001));
    assert!(!session_expired(10, 5));
    let v = expired_sessions(&vec![(1, 0), (2, 400_000), (3, 50_000)], 400_001);
    assert_eq!(v, vec![1, 3]);
}

#[test]
fn generator_datagrams_read_back_newest_first() {
    let mut g = UDPPacketGenerator::new();
    g.make_send_packet(0x10, vec![1]);
    g.make_send_packet(0x11, vec![2, 3]);
    g.make_send_packet(0x12, vec![]);
    let d = g.make_send_packet(0x13, vec![9]);
    let ms = parse_packet(&d).unwrap();
    assert_eq!(ms.len(), 3);
    assert_eq!((ms[0].message_number, ms[0].message_type, ms[0].data.clone()), (3, 0x13, vec![9]));
    assert_eq!((ms[1].message_number, ms[1].message_type, ms[1].data.clone()), (2, 0x12, vec![]));
    assert_eq!((ms[2].message_number, ms[2].message_type, ms[2].data.clone()), (1, 0x11, vec![2, 3]));
}

#[test]
fn control_socket_replies() {
    assert_eq!(control_reply(b"HELLO0.83\0", 27888), Some(b"HELLOD00D27888\0".to_vec()));
    assert_eq!(control_reply(b"PING\0", 27888), Some(b"PONG\0".to_vec()));
    assert_eq!(control_reply(b"HELLO\0", 27888), None);
}

#[test]
fn welcome_encoding_follows_language() {
    assert_eq!(detect_encoding_from_message("Welcome"), TextEncoding::Utf8);
    assert_eq!(detect_encoding_from_message("안녕"), TextEncoding::EucKr);
    assert_eq!(detect_encoding_from_message("こんにちは"), TextEncoding::ShiftJis);
    assert_eq!(detect_encoding_from_message("你好"), TextEncoding::Gbk);
    assert_eq!(detect_encoding_from_message("héllo"), TextEncoding::Utf8);
    let d = detect_language("a한カ中");
    assert!(d.has_korean && d.has_japanese && d.has_chinese);
}

#[test]
fn server_information_in_the_welcome_encoding() {
    assert_eq!(make_server_information("Hi"), b"Server\0Hi\0".to_vec());
    // two Hangul syllables take two bytes each in EUC-KR (three in UTF-8)
    let k = make_server_information("안녕");
    assert_eq!(k.len(), 7 + 4 + 1);
    assert_ne!(&k[7..11], "안녕".as_bytes());
    let j = make_server_information("こんにちは");
    assert_eq!(j.len(), 7 + 10 + 1);
    let u = make_server_information("héllo");
    assert_eq!(&u[7..13], "héllo".as_bytes());
}
