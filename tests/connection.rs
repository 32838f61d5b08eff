use chat::client::WebSocketClient;
use chat::frame::{pack_message, DecodeError, Opcode};
use chat::handler::{WebSocktHandler, SERVER_TOKEN};
use chat::handshake::{gen_key, handshake_response, upgrade_response, RESPONSE_HEAD};
use chat::server::{find_header, Action, ClientState, Interest, WebSocktServer};

const SAMPLE_KEY: &str = "dGhlIHNhbXBsZSBub25jZQ==";
const SAMPLE_ACCEPT: &str = "s3pPLMBiTxaQ9kYGzzhZRbK+xOo=";

fn request_headers() -> Vec<(String, String)> {
    vec![
        ("Host".to_string(), "localhost".to_string()),
        ("Upgrade".to_string(), "websocket".to_string()),
        ("Sec-WebSocket-Key".to_string(), SAMPLE_KEY.to_string()),
    ]
}

fn client_frame(op: Opcode, payload: &[u8]) -> Vec<u8> {
    pack_message(op, payload, Some([9u8, 8, 7, 6])).unwrap()
}

fn connected() -> WebSocktServer {
    let mut c = WebSocktServer::new();
    c.handshake_parsed(true, request_headers());
    match c.write() {
        Action::Send(_) => {}
        other => panic!("expected a response, got {:?}", other),
    }
    assert_eq!(c.state(), ClientState::Connected);
    c
}

#[test]
fn accept_key_of_sample_key() {
    assert_eq!(gen_key(SAMPLE_KEY), SAMPLE_ACCEPT.to_string());
}

#[test]
fn upgrade_response_text() {
    let r = upgrade_response(RESPONSE_HEAD, "abc=");
    let expected = "HTTP/1.1 101 Switching Protocols\r\nConnection: Upgrade\r\n\
                    Sec-WebSocket-Accept: abc=\r\nUpgrade: websocket\r\n\r\n";
    assert_eq!(String::from_utf8(r).unwrap(), expected);
}

#[test]
fn handshake_response_carries_accept_key() {
    let r = String::from_utf8(handshake_response(RESPONSE_HEAD, SAMPLE_KEY)).unwrap();
    assert!(r.starts_with("HTTP/1.1 101 Switching Protocols\r\n"));
    assert!(r.contains(&format!("Sec-WebSocket-Accept: {}\r\n", SAMPLE_ACCEPT)));
    assert!(r.ends_with("\r\n\r\n"));
}

#[test]
fn last_header_with_the_name_wins() {
    let hs = vec![
        ("A".to_string(), "1".to_string()),
        ("B".to_string(), "2".to_string()),
        ("A".to_string(), "3".to_string()),
    ];
    assert_eq!(find_header(&hs, &"A".to_string()), Some("3".to_string()));
    assert_eq!(find_header(&hs, &"B".to_string()), Some("2".to_string()));
    assert_eq!(find_header(&hs, &"C".to_string()), None);
}

#[test]
fn handshake_moves_state_and_interest() {
    let mut c = WebSocktServer::new();
    assert_eq!(c.state(), ClientState::AwaitingHandshake);
    assert_eq!(c.interest(), Interest { readable: true, writable: false });
    c.handshake_parsed(false, vec![]);
    assert_eq!(c.state(), ClientState::AwaitingHandshake);
    c.handshake_parsed(true, request_headers());
    assert_eq!(c.state(), ClientState::HandshakeResponse);
    assert_eq!(c.interest(), Interest { readable: false, writable: true });
    match c.write() {
        Action::Send(bytes) => {
            let text = String::from_utf8(bytes).unwrap();
            assert!(text.contains(SAMPLE_ACCEPT));
        }
        other => panic!("expected a response, got {:?}", other),
    }
    assert_eq!(c.state(), ClientState::Connected);
    assert_eq!(c.interest(), Interest { readable: true, writable: false });
}

#[test]
fn handshake_without_key_closes() {
    let mut c = WebSocktServer::new();
    c.handshake_parsed(true, vec![("Host".to_string(), "x".to_string())]);
    assert!(matches!(c.write(), Action::Close));
    assert_eq!(c.state(), ClientState::HandshakeResponse);
}

#[test]
fn frames_before_handshake_are_ignored() {
    let mut c = WebSocktServer::new();
    let frame = client_frame(Opcode::Text, b"Hello");
    assert!(matches!(c.read(&frame), Action::Continue));
    assert_eq!(c.state(), ClientState::AwaitingHandshake);
    assert_eq!(c.interest(), Interest { readable: true, writable: false });
    assert!(matches!(c.write(), Action::Continue));
    assert_eq!(c.state(), ClientState::AwaitingHandshake);
}

#[test]
fn connected_never_goes_back() {
    let mut c = connected();
    c.handshake_parsed(true, request_headers());
    assert_eq!(c.state(), ClientState::Connected);
    assert!(matches!(c.write(), Action::Continue));
    assert_eq!(c.state(), ClientState::Connected);
}

#[test]
fn text_and_binary_are_echoed_in_order() {
    let mut c = connected();
    let mut bytes = client_frame(Opcode::Text, b"Hello");
    bytes.extend(client_frame(Opcode::Ping, b""));
    bytes.extend(client_frame(Opcode::Binary, &[1u8, 2, 3]));
    assert!(matches!(c.read(&bytes), Action::Continue));
    assert_eq!(c.interest(), Interest { readable: true, writable: true });
    match c.write() {
        Action::Send(b) => assert_eq!(b, vec![0x81u8, 0x05, b'H', b'e', b'l', b'l', b'o']),
        other => panic!("expected a frame, got {:?}", other),
    }
    assert_eq!(c.interest(), Interest { readable: true, writable: true });
    match c.write() {
        Action::Send(b) => assert_eq!(b, vec![0x82u8, 0x03, 1, 2, 3]),
        other => panic!("expected a frame, got {:?}", other),
    }
    assert_eq!(c.interest(), Interest { readable: true, writable: false });
    assert!(matches!(c.write(), Action::Continue));
}

#[test]
fn partial_frames_are_buffered() {
    let mut c = connected();
    let bytes = client_frame(Opcode::Text, b"Hello");
    assert!(matches!(c.read(&bytes[..3]), Action::Continue));
    assert_eq!(c.interest(), Interest { readable: true, writable: false });
    assert!(matches!(c.read(&bytes[3..]), Action::Continue));
    assert_eq!(c.interest(), Interest { readable: true, writable: true });
}

#[test]
fn close_frame_asks_for_teardown() {
    let mut c = connected();
    assert!(matches!(c.read(&client_frame(Opcode::Close, b"")), Action::Close));
}

#[test]
fn malformed_frame_asks_for_teardown() {
    let mut c = connected();
    assert!(matches!(c.read(&[0xC1u8, 0x80, 0, 0, 0, 0]), Action::Close));
}

#[test]
fn registry_hands_out_fresh_tokens() {
    let mut h = WebSocktHandler::new();
    let a = h.accept().unwrap();
    let b = h.accept().unwrap();
    assert_eq!(a, 2);
    assert_eq!(b, 3);
    assert!(a != SERVER_TOKEN && b != SERVER_TOKEN);
    assert_eq!(h.state(a), Some(ClientState::AwaitingHandshake));
    assert_eq!(h.interest(b), Some(Interest { readable: true, writable: false }));
    h.remove(a);
    assert_eq!(h.state(a), None);
    let c = h.accept().unwrap();
    assert_eq!(c, 4);
}

#[test]
fn registry_routes_events() {
    let mut h = WebSocktHandler::new();
    let t = h.accept().unwrap();
    assert!(h.handshake_parsed(t, true, request_headers()));
    assert!(!h.handshake_parsed(99, true, request_headers()));
    assert!(matches!(h.write(t), Some(Action::Send(_))));
    assert_eq!(h.state(t), Some(ClientState::Connected));
    assert!(matches!(h.read(t, &client_frame(Opcode::Text, b"Hi")), Some(Action::Continue)));
    match h.write(t) {
        Some(Action::Send(b)) => assert_eq!(b, vec![0x81u8, 0x02, b'H', b'i']),
        other => panic!("expected a frame, got {:?}", other),
    }
    assert!(h.read(99, b"x").is_none());
    assert!(matches!(h.read(t, &client_frame(Opcode::Close, b"")), Some(Action::Close)));
    assert_eq!(h.state(t), None);
}

#[test]
fn client_answers_with_plain_response() {
    let mut c = WebSocketClient::new();
    assert!(matches!(c.write(), Action::Continue));
    c.handshake_parsed(true, request_headers());
    assert_eq!(c.interest(), Interest { readable: false, writable: true });
    match c.write() {
        Action::Send(b) => {
            let expected = format!(
                "HTTP/1.1 101 Switching Protocols\r\nConnection: Upgrade\r\n\
                 Sec-WebSocket-Accept: {}\r\nUpgrade: websocket\r\n\r\n",
                SAMPLE_ACCEPT
            );
            assert_eq!(String::from_utf8(b).unwrap(), expected);
        }
        other => panic!("expected a response, got {:?}", other),
    }
    assert_eq!(c.state(), ClientState::Connected);
    assert_eq!(c.interest(), Interest { readable: true, writable: false });
}

#[test]
fn client_decodes_only_once_connected() {
    let mut c = WebSocketClient::new();
    let frame = client_frame(Opcode::Text, b"Hello");
    assert_eq!(c.read(&frame).unwrap().map(|f| f.payload), None);
    c.handshake_parsed(true, request_headers());
    assert_eq!(c.read(&frame).unwrap().map(|f| f.payload), None);
    assert!(matches!(c.write(), Action::Send(_)));
    let f = c.read(&frame).unwrap().unwrap();
    assert_eq!(f.opcode, Opcode::Text);
    assert_eq!(f.payload, b"Hello".to_vec());
}

#[test]
fn client_buffers_partial_frames() {
    let mut c = WebSocketClient::new();
    c.handshake_parsed(true, request_headers());
    assert!(matches!(c.write(), Action::Send(_)));
    let mut bytes = client_frame(Opcode::Text, b"one");
    bytes.extend(client_frame(Opcode::Binary, b"two"));
    assert!(c.read(&bytes[..4]).unwrap().is_none());
    let f = c.read(&bytes[4..]).unwrap().unwrap();
    assert_eq!(f.payload, b"one".to_vec());
    let g = c.read(&[]).unwrap().unwrap();
    assert_eq!(g.opcode, Opcode::Binary);
    assert_eq!(g.payload, b"two".to_vec());
    assert!(c.read(&[]).unwrap().is_none());
    assert_eq!(c.read(&[0xC1u8, 0x00]).err(), Some(DecodeError::UnsupportedExtension));
    assert_eq!(c.state(), ClientState::Connected);
}

#[test]
fn accept_key_is_28_base64_chars() {
    let k = gen_key("x3JJHMbDL1EzLkh9GBhXDw==");
    assert_eq!(k, "HSmrc0sMlYUkAGmm5OPpG2HaGWk=".to_string());
    let k2 = gen_key("");
    assert_eq!(k2.len(), 28);
    assert!(k2.ends_with('='));
    assert!(!k2[..27].contains('='));
}
