use bitcoinmw::base::error::Error;
use bitcoinmw::net::ws::{
    base64_encode, find_from, frame_header, frame_message, handshake_response, parse_frame,
    request_key, request_url, websocket_accept_key, Frame, WsAction, WsConn, WsRouter,
};

fn request(path: &str, key: Option<&str>) -> Vec<u8> {
    let mut s = format!("GET {} HTTP/1.1\r\nHost: localhost\r\nUpgrade: websocket\r\n", path);
    if let Some(k) = key {
        s.push_str(&format!("Sec-WebSocket-Key: {}\r\n", k));
    }
    s.push_str("\r\n");
    s.into_bytes()
}

fn masked(op_byte: u8, key: [u8; 4], payload: &[u8]) -> Vec<u8> {
    let mut v = vec![op_byte, 0x80 | payload.len() as u8];
    v.extend_from_slice(&key);
    for (i, b) in payload.iter().enumerate() {
        v.push(b ^ key[i % 4]);
    }
    v
}

const RFC_KEY: &str = "dGhlIHNhbXBsZSBub25jZQ==";
const RFC_ACCEPT: &str = "s3pPLMBiTxaQ9kYGzzhZRbK+xOo=";

#[test]
fn test_ws1() -> Result<(), Error> {
    let mut ws = WsRouter::new();
    assert_eq!(ws.add_handler("/abc")?, 0);
    ws.start()?;
    ws.stop()?;
    Ok(())
}

#[test]
fn test_base64_known_values() {
    assert_eq!(base64_encode(b""), b"".to_vec());
    assert_eq!(base64_encode(b"f"), b"Zg==".to_vec());
    assert_eq!(base64_encode(b"fo"), b"Zm8=".to_vec());
    assert_eq!(base64_encode(b"foo"), b"Zm9v".to_vec());
    assert_eq!(base64_encode(b"foobar"), b"Zm9vYmFy".to_vec());
    assert_eq!(base64_encode(&[0xff, 0xfe, 0xfd, 0x00]), b"//79AA==".to_vec());
}

#[test]
fn test_websocket_accept_key_rfc_example() -> Result<(), Error> {
    assert_eq!(websocket_accept_key(RFC_KEY)?, RFC_ACCEPT.to_string());
    Ok(())
}

#[test]
fn test_websocket_accept_key_differs_from_key() -> Result<(), Error> {
    let a = websocket_accept_key("abc")?;
    assert_eq!(a.len(), 28);
    assert_ne!(a, "abc".to_string());
    assert_ne!(a, websocket_accept_key("abd")?);
    Ok(())
}

#[test]
fn test_frame_header_lengths() {
    assert_eq!(frame_header(5), vec![0x82, 5]);
    assert_eq!(frame_header(125), vec![0x82, 125]);
    assert_eq!(frame_header(200), vec![0x82, 126, 0, 200]);
    assert_eq!(frame_header(65535), vec![0x82, 126, 0xff, 0xff]);
    assert_eq!(frame_header(70000), vec![0x82, 127, 0, 0, 0, 0, 0, 1, 0x11, 0x70]);
}

#[test]
fn test_frame_message() {
    assert_eq!(frame_message(b"hi1234"), vec![0x82, 6, b'h', b'i', b'1', b'2', b'3', b'4']);
    let big = vec![7u8; 300];
    let f = frame_message(&big);
    assert_eq!(&f[..4], &[0x82, 126, 1, 44]);
    assert_eq!(f.len(), 304);
}

#[test]
fn test_parse_frame_masked_rfc_example() {
    let bytes = [0x81, 0x85, 0x37, 0xfa, 0x21, 0x3d, 0x7f, 0x9f, 0x4d, 0x51, 0x58];
    match parse_frame(&bytes) {
        Frame::Data { consumed, fin, op, payload } => {
            assert_eq!(consumed, 11);
            assert!(fin);
            assert_eq!(op, 1);
            assert_eq!(payload, b"Hello".to_vec());
        }
        _ => panic!("expected a data frame"),
    }
}

#[test]
fn test_parse_frame_unmasked() {
    let mut bytes = vec![0x81, 0x05];
    bytes.extend_from_slice(b"Hello");
    bytes.push(0);
    match parse_frame(&bytes) {
        Frame::Data { consumed, fin, op, payload } => {
            assert_eq!(consumed, 7);
            assert!(fin);
            assert_eq!(op, 1);
            assert_eq!(payload, b"Hello".to_vec());
        }
        _ => panic!("expected a data frame"),
    }
    // a payload that reaches the end of what was read is not handed on
    bytes.pop();
    match parse_frame(&bytes) {
        Frame::Data { consumed, payload, .. } => {
            assert_eq!(consumed, 7);
            assert!(payload.is_empty());
        }
        _ => panic!("expected a data frame"),
    }
}

#[test]
fn test_parse_frame_roundtrip() {
    let msg = b"okokok";
    let mut bytes = frame_message(msg);
    bytes.push(0x82);
    match parse_frame(&bytes) {
        Frame::Data { consumed, fin, op, payload } => {
            assert_eq!(consumed, 8);
            assert!(fin);
            assert_eq!(op, 2);
            assert_eq!(payload, msg.to_vec());
        }
        _ => panic!("expected a data frame"),
    }
}

#[test]
fn test_parse_frame_incomplete_and_reserved() {
    assert!(matches!(parse_frame(&[]), Frame::NeedMore));
    assert!(matches!(parse_frame(&[0x82]), Frame::NeedMore));
    assert!(matches!(parse_frame(&[0x82, 126, 0]), Frame::NeedMore));
    assert!(matches!(parse_frame(&[0x82, 127, 0, 0, 0]), Frame::NeedMore));
    assert!(matches!(parse_frame(&[0x82, 5, 1, 2]), Frame::NeedMore));
    assert!(matches!(parse_frame(&[0xc2, 0x01, 0x00]), Frame::Close));
}

#[test]
fn test_find_from() {
    let b = b"abcabc";
    assert_eq!(find_from(b, b"bc", 0), Some(1));
    assert_eq!(find_from(b, b"bc", 2), Some(4));
    assert_eq!(find_from(b, b"bc", 5), None);
    assert_eq!(find_from(b, b"x", 0), None);
    assert_eq!(find_from(b"ab", b"abc", 0), None);
}

#[test]
fn test_request_url_and_key() {
    let req = request("/abc", Some(RFC_KEY));
    assert_eq!(request_url(&req), b"/abc".to_vec());
    assert_eq!(request_key(&req), RFC_KEY.as_bytes().to_vec());
    let no_key = request("/abc", None);
    assert_eq!(request_key(&no_key), Vec::<u8>::new());
    assert_eq!(request_url(b"GET  HTTP/1.1\r\n\r\n"), Vec::<u8>::new());
    assert_eq!(request_url(b"GET"), Vec::<u8>::new());
}

#[test]
fn test_handshake_response() {
    let (ok, up) = handshake_response(RFC_KEY.as_bytes());
    assert!(up);
    let expected = format!(
        "HTTP/1.1 101 Switching Protocols\r\nUpgrade: websocket\r\nConnection: Upgrade\r\nSec-WebSocket-Accept: {}\r\n\r\n",
        RFC_ACCEPT
    );
    assert_eq!(ok, expected.into_bytes());
    let (bad, up) = handshake_response(b"");
    assert!(!up);
    assert_eq!(bad, b"HTTP/1.1 400 Bad Request\r\nConnection: close\r\n\r\n".to_vec());
}

#[test]
fn test_router_states() -> Result<(), Error> {
    let mut ws = WsRouter::new();
    assert_eq!(ws.stop(), Err(Error::IllegalState));
    assert_eq!(ws.add_handler("/a")?, 0);
    assert_eq!(ws.add_handler("/b")?, 1);
    assert_eq!(ws.add_handler("/a"), Err(Error::Duplicate));
    assert_eq!(ws.lookup(b"/b"), Some(1));
    assert_eq!(ws.lookup(b"/c"), None);
    ws.start()?;
    assert_eq!(ws.start(), Err(Error::IllegalState));
    assert_eq!(ws.add_handler("/c"), Err(Error::IllegalState));
    assert_eq!(ws.stop(), Ok(()));
    Ok(())
}

#[test]
fn test_conn_handshake_then_message() -> Result<(), Error> {
    let mut ws = WsRouter::new();
    ws.add_handler("/x")?;
    ws.add_handler("/abc")?;
    ws.start()?;
    let mut conn = WsConn::new();
    let req = request("/abc", Some(RFC_KEY));
    let (actions, res) = conn.on_recv(&ws, &req);
    res?;
    assert_eq!(actions.len(), 2);
    match &actions[0] {
        WsAction::Write { bytes } => {
            let text = String::from_utf8(bytes.clone()).unwrap();
            assert!(text.starts_with("HTTP/1.1 101 Switching Protocols\r\n"));
            assert!(text.contains(RFC_ACCEPT));
        }
        _ => panic!("expected a write"),
    }
    assert!(matches!(actions[1], WsAction::Accept { index: 1 }));
    assert!(conn.is_upgraded());
    assert_eq!(conn.handler(), Some(1));

    let frame = masked(0x82, [1, 2, 3, 4], b"abc");
    let (actions, res) = conn.on_recv(&ws, &frame);
    res?;
    assert_eq!(actions.len(), 1);
    match &actions[0] {
        WsAction::Recv { handler, payload, fin, op } => {
            assert_eq!(*handler, Some(1));
            assert_eq!(payload, &b"abc".to_vec());
            assert!(*fin);
            assert_eq!(*op, 2);
        }
        _ => panic!("expected a message"),
    }
    Ok(())
}

#[test]
fn test_conn_split_frame_is_buffered() -> Result<(), Error> {
    let mut ws = WsRouter::new();
    ws.add_handler("/abc")?;
    let mut conn = WsConn::new();
    let (_, res) = conn.on_recv(&ws, &request("/abc", Some(RFC_KEY)));
    res?;
    let frame = masked(0x81, [9, 8, 7, 6], b"hello");
    assert_eq!(conn.buffered(), 0);
    let (actions, res) = conn.on_recv(&ws, &frame[..4]);
    res?;
    assert!(actions.is_empty());
    assert_eq!(conn.buffered(), 4);
    let (actions, res) = conn.on_recv(&ws, &frame[4..]);
    res?;
    assert_eq!(conn.buffered(), 0);
    assert_eq!(actions.len(), 1);
    match &actions[0] {
        WsAction::Recv { payload, op, .. } => {
            assert_eq!(payload, &b"hello".to_vec());
            assert_eq!(*op, 1);
        }
        _ => panic!("expected a message"),
    }
    Ok(())
}

#[test]
fn test_conn_two_frames_in_one_read() -> Result<(), Error> {
    let mut ws = WsRouter::new();
    ws.add_handler("/abc")?;
    let mut conn = WsConn::new();
    let (_, res) = conn.on_recv(&ws, &request("/abc", Some(RFC_KEY)));
    res?;
    let mut bytes = masked(0x82, [1, 1, 1, 1], b"one");
    bytes.extend_from_slice(&masked(0x82, [2, 2, 2, 2], b"two"));
    let (actions, res) = conn.on_recv(&ws, &bytes);
    res?;
    assert_eq!(actions.len(), 2);
    assert!(matches!(&actions[0], WsAction::Recv { payload, .. } if payload == b"one"));
    assert!(matches!(&actions[1], WsAction::Recv { payload, .. } if payload == b"two"));
    Ok(())
}

#[test]
fn test_conn_unknown_path_and_missing_key() -> Result<(), Error> {
    let mut ws = WsRouter::new();
    ws.add_handler("/abc")?;
    let mut conn = WsConn::new();
    let (actions, res) = conn.on_recv(&ws, &request("/nope", Some(RFC_KEY)));
    res?;
    assert_eq!(actions.len(), 1);
    assert!(matches!(actions[0], WsAction::Close));
    assert!(!conn.is_upgraded());

    let mut conn = WsConn::new();
    let (actions, res) = conn.on_recv(&ws, &request("/abc", None));
    res?;
    assert_eq!(actions.len(), 2);
    assert!(matches!(&actions[0], WsAction::Write { bytes } if bytes == b"HTTP/1.1 400 Bad Request\r\nConnection: close\r\n\r\n"));
    assert!(matches!(actions[1], WsAction::Close));
    assert!(!conn.is_upgraded());
    Ok(())
}

#[test]
fn test_conn_partial_head_waits() -> Result<(), Error> {
    let mut ws = WsRouter::new();
    ws.add_handler("/abc")?;
    let mut conn = WsConn::new();
    let req = request("/abc", Some(RFC_KEY));
    let (actions, res) = conn.on_recv(&ws, &req[..10]);
    res?;
    assert!(actions.is_empty());
    let (actions, res) = conn.on_recv(&ws, &req[10..]);
    res?;
    // the head completed in the buffer: answered, but the handler is not told
    assert_eq!(actions.len(), 1);
    assert!(matches!(&actions[0], WsAction::Write { .. }));
    assert!(conn.is_upgraded());
    Ok(())
}

#[test]
fn test_conn_bad_utf8_target() -> Result<(), Error> {
    let mut ws = WsRouter::new();
    ws.add_handler("/abc")?;
    let mut conn = WsConn::new();
    let req = b"GET /\xff HTTP/1.1\r\n\r\n".to_vec();
    let (actions, res) = conn.on_recv(&ws, &req);
    assert_eq!(res, Err(Error::Utf8Error));
    assert!(actions.is_empty());
    Ok(())
}

#[test]
fn test_conn_reserved_bits_close() -> Result<(), Error> {
    let mut ws = WsRouter::new();
    ws.add_handler("/abc")?;
    let mut conn = WsConn::new();
    let (_, res) = conn.on_recv(&ws, &request("/abc", Some(RFC_KEY)));
    res?;
    let (actions, res) = conn.on_recv(&ws, &[0xf2, 0x80, 0, 0, 0, 0]);
    res?;
    assert_eq!(actions.len(), 1);
    assert!(matches!(actions[0], WsAction::Close));
    Ok(())
}
