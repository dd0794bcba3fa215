use ndjson_stream::decoder::{decode_all, decode_bytes, Decoder};
use ndjson_stream::producer::{encode_bare, encode_enveloped, frame_bare, frame_enveloped};
use ndjson_stream::record::{DecodeConfig, Mode, RecordError, User, DEFAULT_MAX_FRAME_BYTES};

fn user(id: u32, name: &str) -> User {
    User { id, name: name.to_string() }
}

fn four_users() -> Vec<User> {
    vec![user(1, "Alice"), user(2, "Bob"), user(3, "Charlie"), user(4, "David")]
}

const S1_BODY: &[u8] = b"{\"id\":1,\"name\":\"Alice\"}\n{\"id\":2,\"name\":\"Bob\"}\n{\"id\":3,\"name\":\"Charlie\"}\n{\"id\":4,\"name\":\"David\"}\n";

#[test]
fn content_type_names_ndjson() {
    assert_eq!(ndjson_stream::record::ndjson_content_type(), "application/x-ndjson");
}

#[test]
fn encode_bare_exact_bytes() {
    assert_eq!(encode_bare(&four_users()), S1_BODY.to_vec());
}

#[test]
fn encode_enveloped_exact_bytes() {
    let out = encode_enveloped(&vec![user(1, "Alice"), user(2, "Bob")], true);
    let expected = b"{\"data\":{\"id\":1,\"name\":\"Alice\"},\"done\":false}\n{\"data\":{\"id\":2,\"name\":\"Bob\"},\"done\":true}\n";
    assert_eq!(out, expected.to_vec());
}

#[test]
fn frame_builders_match_whole_encoders() {
    let u = user(7, "Grace");
    let mut by_frames = frame_bare(&u);
    by_frames.extend(frame_bare(&user(8, "Heidi")));
    assert_eq!(by_frames, encode_bare(&vec![user(7, "Grace"), user(8, "Heidi")]));
    let f = frame_enveloped(&u, true);
    assert_eq!(f, encode_enveloped(&vec![u], true));
}

#[test]
fn basic_bare_stream() {
    let cfg = DecodeConfig::new(Mode::Bare);
    let r = decode_bytes(&S1_BODY.to_vec(), cfg);
    assert_eq!(
        r,
        vec![
            Ok(user(1, "Alice")),
            Ok(user(2, "Bob")),
            Ok(user(3, "Charlie")),
            Ok(user(4, "David")),
        ]
    );
}

#[test]
fn bare_round_trip() {
    let cfg = DecodeConfig::new(Mode::Bare);
    let xs = four_users();
    let r = decode_bytes(&encode_bare(&xs), cfg);
    assert_eq!(r, xs.into_iter().map(Ok).collect::<Vec<_>>());
}

#[test]
fn enveloped_round_trip_terminates() {
    let cfg = DecodeConfig::new(Mode::Enveloped);
    let xs = four_users();
    let mut body = encode_enveloped(&xs, true);
    // Anything after the done frame is never consumed.
    body.extend(b"{\"data\":{\"id\":9,\"name\":\"Zed\"},\"done\":false}\n".iter());
    let r = decode_bytes(&body, cfg);
    assert_eq!(r, xs.into_iter().map(Ok).collect::<Vec<_>>());
}

#[test]
fn enveloped_done_sentinel_stops_stream() {
    let cfg = DecodeConfig::new(Mode::Enveloped);
    let body = b"{\"data\":{\"id\":1,\"name\":\"Alice\"},\"done\":false}\n{\"data\":{\"id\":2,\"name\":\"Bob\"},\"done\":true}\n{\"id\":999}\n";
    let r = decode_bytes(&body.to_vec(), cfg);
    assert_eq!(r, vec![Ok(user(1, "Alice")), Ok(user(2, "Bob"))]);
}

#[test]
fn enveloped_done_defaults_to_false() {
    let cfg = DecodeConfig::new(Mode::Enveloped);
    let body = b"{\"data\":{\"id\":1,\"name\":\"Alice\"}}\n{\"data\":{\"id\":2,\"name\":\"Bob\"},\"done\":true}\n";
    let r = decode_bytes(&body.to_vec(), cfg);
    assert_eq!(r, vec![Ok(user(1, "Alice")), Ok(user(2, "Bob"))]);
}

#[test]
fn split_chunk_boundaries() {
    let cfg = DecodeConfig::new(Mode::Bare);
    let whole = S1_BODY.to_vec();
    let sizes = [5usize, 1, 50, 3];
    let mut chunks: Vec<Vec<u8>> = Vec::new();
    let mut pos = 0usize;
    for s in sizes {
        chunks.push(whole[pos..pos + s].to_vec());
        pos += s;
    }
    chunks.push(whole[pos..].to_vec());
    let r = decode_all(&chunks, cfg);
    assert_eq!(r, decode_bytes(&whole, cfg));
    assert_eq!(r.len(), 4);
}

#[test]
fn byte_by_byte_chunks() {
    let cfg = DecodeConfig::new(Mode::Bare);
    let whole = S1_BODY.to_vec();
    let chunks: Vec<Vec<u8>> = whole.iter().map(|b| vec![*b]).collect();
    assert_eq!(decode_all(&chunks, cfg), decode_bytes(&whole, cfg));
}

#[test]
fn malformed_frame_between_valid_frames() {
    let cfg = DecodeConfig::new(Mode::Bare);
    let body = b"{\"id\":1,\"name\":\"Alice\"}\n{\"id\":broken\n{\"id\":3,\"name\":\"Charlie\"}\n";
    let r = decode_bytes(&body.to_vec(), cfg);
    assert_eq!(
        r,
        vec![
            Ok(user(1, "Alice")),
            Err(RecordError::DecodeError { at: 1 }),
            Ok(user(3, "Charlie")),
        ]
    );
}

#[test]
fn crlf_separators_equal_lf() {
    let cfg = DecodeConfig::new(Mode::Bare);
    let crlf = b"{\"id\":1,\"name\":\"Alice\"}\r\n{\"id\":2,\"name\":\"Bob\"}\r\n";
    let lf = b"{\"id\":1,\"name\":\"Alice\"}\n{\"id\":2,\"name\":\"Bob\"}\n";
    assert_eq!(decode_bytes(&crlf.to_vec(), cfg), decode_bytes(&lf.to_vec(), cfg));
    assert_eq!(decode_bytes(&crlf.to_vec(), cfg).len(), 2);
}

#[test]
fn empty_body_decodes_to_nothing() {
    let cfg = DecodeConfig::new(Mode::Bare);
    assert_eq!(decode_bytes(&Vec::new(), cfg), vec![]);
}

#[test]
fn newline_only_body_decodes_to_nothing() {
    let cfg = DecodeConfig::new(Mode::Bare);
    assert_eq!(decode_bytes(&b"\n\n\n\n".to_vec(), cfg), vec![]);
    assert_eq!(decode_bytes(&b"\r\n\r\n".to_vec(), cfg), vec![]);
}

#[test]
fn empty_lines_between_frames_are_skipped() {
    let cfg = DecodeConfig::new(Mode::Bare);
    let body = b"{\"id\":1,\"name\":\"Alice\"}\n\n\r\n{\"id\":2,\"name\":\"Bob\"}\n";
    let r = decode_bytes(&body.to_vec(), cfg);
    assert_eq!(r, vec![Ok(user(1, "Alice")), Ok(user(2, "Bob"))]);
}

#[test]
fn unterminated_tail_accepted() {
    let cfg = DecodeConfig {
        mode: Mode::Bare,
        max_frame_bytes: DEFAULT_MAX_FRAME_BYTES,
        accept_unterminated_tail: true,
    };
    let r = decode_bytes(&b"{\"id\":1,\"name\":\"Alice\"}".to_vec(), cfg);
    assert_eq!(r, vec![Ok(user(1, "Alice"))]);
}

#[test]
fn unterminated_tail_rejected() {
    let cfg = DecodeConfig::new(Mode::Bare);
    let r = decode_bytes(&b"{\"id\":1,\"name\":\"Alice\"}".to_vec(), cfg);
    assert_eq!(r, vec![Err(RecordError::TruncatedFrame)]);
}

#[test]
fn oversize_frame_is_terminal() {
    let cfg = DecodeConfig { mode: Mode::Bare, max_frame_bytes: 8, accept_unterminated_tail: true };
    let body = b"{\"id\":1,\"name\":\"Alice\"}\n{\"id\":2,\"name\":\"Bob\"}\n";
    let r = decode_bytes(&body.to_vec(), cfg);
    assert_eq!(r, vec![Err(RecordError::FrameTooLarge { at: 0 })]);
}

#[test]
fn oversize_frame_after_valid_frame() {
    let cfg = DecodeConfig { mode: Mode::Bare, max_frame_bytes: 23, accept_unterminated_tail: false };
    let body = b"{\"id\":1,\"name\":\"Alice\"}\n{\"id\":3,\"name\":\"Charlie\"}\n";
    let r = decode_bytes(&body.to_vec(), cfg);
    assert_eq!(r, vec![Ok(user(1, "Alice")), Err(RecordError::FrameTooLarge { at: 1 })]);
}

#[test]
fn invalid_utf8_frame_is_inline_error() {
    let cfg = DecodeConfig::new(Mode::Bare);
    let mut body = vec![0xFFu8, 0xFE];
    body.push(b'\n');
    body.extend(b"{\"id\":2,\"name\":\"Bob\"}\n".iter());
    let r = decode_bytes(&body, cfg);
    assert_eq!(r, vec![Err(RecordError::InvalidUtf8 { at: 0 }), Ok(user(2, "Bob"))]);
}

#[test]
fn wrong_shape_is_decode_error() {
    let cfg = DecodeConfig::new(Mode::Bare);
    // Valid JSON, wrong schema: id out of range, name missing, id missing.
    let body = b"{\"id\":4294967296,\"name\":\"A\"}\n{\"id\":1}\n{\"name\":\"B\"}\n42\n";
    let r = decode_bytes(&body.to_vec(), cfg);
    assert_eq!(
        r,
        vec![
            Err(RecordError::DecodeError { at: 0 }),
            Err(RecordError::DecodeError { at: 1 }),
            Err(RecordError::DecodeError { at: 2 }),
            Err(RecordError::DecodeError { at: 3 }),
        ]
    );
}

#[test]
fn bare_frame_in_enveloped_mode_is_rejected() {
    let cfg = DecodeConfig::new(Mode::Enveloped);
    let r = decode_bytes(&b"{\"id\":1,\"name\":\"Alice\"}\n".to_vec(), cfg);
    assert_eq!(r, vec![Err(RecordError::DecodeError { at: 0 })]);
}

#[test]
fn transport_error_is_terminal_element() {
    let cfg = DecodeConfig::new(Mode::Bare);
    let mut d = Decoder::new(cfg);
    d.push_chunk(&b"{\"id\":1,\"name\":\"Alice\"}\n{\"id\":2".to_vec());
    d.transport_error();
    // Later bytes are ignored once the stream has closed.
    d.push_chunk(&b",\"name\":\"Bob\"}\n".to_vec());
    d.finish();
    assert_eq!(d.results, vec![Ok(user(1, "Alice")), Err(RecordError::Transport)]);
}

#[test]
fn http_failure_is_sole_element() {
    let cfg = DecodeConfig::new(Mode::Bare);
    let mut d = Decoder::new(cfg);
    d.http_failure(500);
    d.push_chunk(&b"{\"id\":1,\"name\":\"Alice\"}\n".to_vec());
    d.finish();
    assert_eq!(d.results, vec![Err(RecordError::HttpStatus { code: 500 })]);
}

#[test]
fn incremental_results_appear_per_line() {
    let cfg = DecodeConfig::new(Mode::Bare);
    let mut d = Decoder::new(cfg);
    d.push_chunk(&b"{\"id\":1,\"name\":\"Alice\"}\n{\"id\":2,".to_vec());
    assert_eq!(d.results, vec![Ok(user(1, "Alice"))]);
    d.push_chunk(&b"\"name\":\"Bob\"}\n".to_vec());
    assert_eq!(d.results, vec![Ok(user(1, "Alice")), Ok(user(2, "Bob"))]);
    d.finish();
    assert_eq!(d.results.len(), 2);
}

#[test]
fn name_with_escapes_round_trips() {
    let cfg = DecodeConfig::new(Mode::Bare);
    let xs = vec![user(1, "line\nbreak\r\ttab \"quoted\" \\slash"), user(2, "héllo ☃")];
    let r = decode_bytes(&encode_bare(&xs), cfg);
    assert_eq!(r, xs.into_iter().map(Ok).collect::<Vec<_>>());
}

#[test]
fn streamed_body_contains_each_user_line() {
    let body = encode_bare(&four_users());
    let text = String::from_utf8(body).unwrap();
    assert!(text.contains("{\"id\":1,\"name\":\"Alice\"}\n"));
    assert!(text.contains("{\"id\":2,\"name\":\"Bob\"}\n"));
    let enveloped = String::from_utf8(encode_enveloped(&four_users(), true)).unwrap();
    assert!(enveloped.contains("\"done\":true"));
    assert!(enveloped.rfind("\"done\":false").unwrap() < enveloped.rfind("\"done\":true").unwrap());
}
