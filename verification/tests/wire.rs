use gossip::message::gossip::{ContentMessage, HeaderMessage};
use gossip::message::sampling::PeerSamplingMessage;
use gossip::message::{
    Message, MessageType, NoopMessage, MASK_MESSAGE_PROTOCOL, MESSAGE_PROTOCOL_CONTENT_MESSAGE,
    MESSAGE_PROTOCOL_HEADER_MESSAGE, MESSAGE_PROTOCOL_NOOP_MESSAGE, MESSAGE_PROTOCOL_SAMPLING_MESSAGE,
};
use gossip::monitor::{to_decimal, MonitoringConfig};
use gossip::network::{frame, handle_message, FrameError, Protocol};
use gossip::random::{next_period, period_with_jitter};

#[test]
fn protocol_tags() {
    assert_eq!(MASK_MESSAGE_PROTOCOL, 0xF0);
    assert_eq!(NoopMessage.protocol(), 0x80);
    assert_eq!(NoopMessage.protocol(), MESSAGE_PROTOCOL_NOOP_MESSAGE);
    assert_eq!(HeaderMessage::new_request("a".to_owned()).protocol(), 0x20);
    assert_eq!(HeaderMessage::new_request("a".to_owned()).protocol(), MESSAGE_PROTOCOL_HEADER_MESSAGE);
    assert_eq!(ContentMessage::new_request("a".to_owned(), Vec::new()).protocol(), 0x40);
    assert_eq!(ContentMessage::new_request("a".to_owned(), Vec::new()).protocol(), MESSAGE_PROTOCOL_CONTENT_MESSAGE);
    assert_eq!(PeerSamplingMessage::new_request("a".to_owned(), None).protocol(), 0x10);
    assert_eq!(PeerSamplingMessage::new_request("a".to_owned(), None).protocol(), MESSAGE_PROTOCOL_SAMPLING_MESSAGE);
}

#[test]
fn header_message_holds_what_it_was_given() {
    let mut message = HeaderMessage::new_request("127.0.0.1:9000".to_owned());
    assert_eq!(message.sender(), "127.0.0.1:9000");
    assert_eq!(*message.message_type(), MessageType::Request);
    assert!(message.headers().is_empty());
    message.set_headers(vec!["d1".to_owned(), "d2".to_owned()]);
    assert_eq!(message.headers(), &vec!["d1".to_owned(), "d2".to_owned()]);
    assert_eq!(message.sender(), "127.0.0.1:9000");
    assert!(message.is_from(&"127.0.0.1:9000".to_owned()));
    assert!(!message.is_from(&"127.0.0.1:9001".to_owned()));
    let response = HeaderMessage::new_response("b".to_owned());
    assert_eq!(*response.message_type(), MessageType::Response);
}

#[test]
fn content_message_holds_what_it_was_given() {
    let entries = vec![("d1".to_owned(), vec![1u8, 2]), ("d2".to_owned(), Vec::new())];
    let message = ContentMessage::new_response("s".to_owned(), entries.clone());
    assert_eq!(message.sender(), "s");
    assert_eq!(*message.message_type(), MessageType::Response);
    assert_eq!(message.len(), 2);
    assert_eq!(message.content(), entries);
    let request = ContentMessage::new_request("s".to_owned(), Vec::new());
    assert_eq!(*request.message_type(), MessageType::Request);
    assert_eq!(request.len(), 0);
}

#[test]
fn a_frame_is_the_tag_and_the_body() {
    let message = HeaderMessage::new_request("a".to_owned());
    assert_eq!(frame(&message, vec![1, 2, 3]), vec![0x20, 1, 2, 3]);
    assert_eq!(frame(&NoopMessage, Vec::new()), vec![0x80]);
}

#[test]
fn frames_are_told_apart_by_the_upper_four_bits() {
    assert_eq!(handle_message(vec![0x10, 9, 8]), Ok((Protocol::Sampling, vec![9, 8])));
    assert_eq!(handle_message(vec![0x20, 9]), Ok((Protocol::Header, vec![9])));
    assert_eq!(handle_message(vec![0x40]), Ok((Protocol::Content, vec![])));
    assert_eq!(handle_message(vec![0x80, 1]), Ok((Protocol::Noop, vec![1])));
    assert_eq!(handle_message(vec![0x2f, 7]), Ok((Protocol::Header, vec![7])));
}

#[test]
fn unknown_and_empty_frames_are_refused() {
    assert_eq!(handle_message(vec![]), Err(FrameError::Empty));
    assert_eq!(handle_message(vec![0x00, 1]), Err(FrameError::UnknownProtocol(0x00)));
    assert_eq!(handle_message(vec![0x30, 1]), Err(FrameError::UnknownProtocol(0x30)));
    assert_eq!(handle_message(vec![0xff]), Err(FrameError::UnknownProtocol(0xf0)));
    assert_eq!(handle_message(vec![0x0f]), Err(FrameError::UnknownProtocol(0x00)));
}

#[test]
fn framing_round_trip() {
    let message = PeerSamplingMessage::new_request("127.0.0.1:9000".to_owned(), None);
    let body = message.as_bytes().unwrap();
    let (protocol, back) = handle_message(frame(&message, body.clone())).unwrap();
    assert_eq!(protocol, Protocol::Sampling);
    assert_eq!(back, body);
    let read = PeerSamplingMessage::from_bytes(back).unwrap();
    assert_eq!(read.sender(), "127.0.0.1:9000");
}

#[test]
fn decimal_digits() {
    assert_eq!(to_decimal(0), "0");
    assert_eq!(to_decimal(7), "7");
    assert_eq!(to_decimal(10), "10");
    assert_eq!(to_decimal(1234567890), "1234567890");
    assert_eq!(to_decimal(usize::MAX), usize::MAX.to_string());
}

#[test]
fn monitoring_config_holds_what_it_was_given() {
    let config = MonitoringConfig::new(true, "127.0.0.1:8080".to_owned(), "/peers".to_owned(), "/updates".to_owned());
    assert!(config.enabled());
    assert_eq!(config.host(), "127.0.0.1:8080");
    assert_eq!(config.peer_path(), "/peers");
    assert_eq!(config.update_path(), "/updates");
    let off = MonitoringConfig::default();
    assert!(!off.enabled());
    assert_eq!(off.host(), "");
    assert_eq!(off.peer_path(), "");
    assert_eq!(off.update_path(), "");
}

#[test]
fn monitoring_reports() {
    let config = MonitoringConfig::default();
    let peers = vec!["127.0.0.1:9001".to_owned(), "127.0.0.1:9002".to_owned()];
    assert_eq!(
        config.peer_data("127.0.0.1:9000", &peers),
        "{\"id\":\"127.0.0.1:9000\",\"peers\":[\"127.0.0.1:9001\",\"127.0.0.1:9002\"],\"messages\":[]}"
    );
    assert_eq!(config.peer_data("n", &Vec::new()), "{\"id\":\"n\",\"peers\":[],\"messages\":[]}");
    assert_eq!(
        config.update_data("n", &vec!["d1".to_owned()]),
        "{\"id\":\"n\",\"peers\":[],\"messages\":[\"d1\"]}"
    );
}

#[test]
fn monitoring_post_request() {
    let config = MonitoringConfig::new(true, "127.0.0.1:8080".to_owned(), "/peers".to_owned(), "/updates".to_owned());
    let json = "{\"id\":\"\u{e9}\"}";
    assert_eq!(
        config.post_request("/peers", json),
        "POST /peers HTTP/1.1\r\nHost: 127.0.0.1:8080\r\nAccept: */*\r\nContent-Type: application/json; charset=UTF-8\r\nContent-Length: 11\r\nConnection: close\r\n\r\n{\"id\":\"\u{e9}\"}"
    );
}

#[test]
fn period_without_deviation_is_fixed() {
    assert_eq!(next_period(1000, 0), 1000);
    assert_eq!(next_period(0, 0), 0);
    assert_eq!(period_with_jitter(1000, 17), 1017);
    assert_eq!(period_with_jitter(u64::MAX - 1, 5), u64::MAX);
    assert_eq!(period_with_jitter(u64::MAX, 0), u64::MAX);
}

#[test]
fn period_with_deviation_stays_below_the_bound() {
    for _ in 0..200 {
        let wait = next_period(600, 300);
        assert!((600..900).contains(&wait));
    }
    assert_eq!(next_period(600, 1), 600);
    assert_eq!(next_period(u64::MAX, 10), u64::MAX);
}
