use bytes::BytesMut;
use skkserv::codec::ProtocolError;
use skkserv::codec::Request;
use skkserv::codec::RequestCodec;
use skkserv::codec::Response;
use skkserv::codec::ResponseCodec;

#[test]
fn decode_empty_needs_more() {
    let mut codec = RequestCodec;
    let mut buf = BytesMut::new();
    let r = codec.decode(&mut buf);
    assert!(matches!(r, Ok(None)));
    assert_eq!(buf.len(), 0);
}

#[test]
fn decode_unterminated_payload_keeps_buffer() {
    let mut codec = RequestCodec;
    let mut buf = BytesMut::new();
    buf.extend_from_slice(b"1abc");
    let r = codec.decode(&mut buf);
    assert!(matches!(r, Ok(None)));
    assert_eq!(&buf[..], &b"1abc"[..]);

    let mut buf = BytesMut::new();
    buf.extend_from_slice(b"4xy");
    let r = codec.decode(&mut buf);
    assert!(matches!(r, Ok(None)));
    assert_eq!(&buf[..], &b"4xy"[..]);
}

#[test]
fn decode_convert_payload() {
    let mut codec = RequestCodec;
    let mut buf = BytesMut::new();
    buf.extend_from_slice(b"1abc ");
    let r = codec.decode(&mut buf);
    assert!(matches!(r, Ok(Some(Request::Convert(s))) if s == "abc"));
    assert_eq!(buf.len(), 0);
}

#[test]
fn decode_complete_empty_payload() {
    let mut codec = RequestCodec;
    let mut buf = BytesMut::new();
    buf.extend_from_slice(b"4 ");
    let r = codec.decode(&mut buf);
    assert!(matches!(r, Ok(Some(Request::Complete(s))) if s.is_empty()));
    assert_eq!(buf.len(), 0);
}

#[test]
fn decode_single_byte_commands() {
    let mut codec = RequestCodec;
    let mut buf = BytesMut::new();
    buf.extend_from_slice(b"023");
    let r = codec.decode(&mut buf);
    assert!(matches!(r, Ok(Some(Request::CloseConnection))));
    let r = codec.decode(&mut buf);
    assert!(matches!(r, Ok(Some(Request::GetVersion))));
    let r = codec.decode(&mut buf);
    assert!(matches!(r, Ok(Some(Request::GetHostInfo))));
    assert_eq!(buf.len(), 0);
}

#[test]
fn decode_unknown_command_unconsumed() {
    let mut codec = RequestCodec;
    let mut buf = BytesMut::new();
    buf.extend_from_slice(b"9abc");
    let r = codec.decode(&mut buf);
    match r {
        Err(ProtocolError::UnknownCommand(c)) => assert_eq!(c, b'9'),
        _ => panic!("expected an unknown-command error"),
    }
    assert_eq!(&buf[..], &b"9abc"[..]);
}

#[test]
fn decode_invalid_utf8_payload() {
    let mut codec = RequestCodec;
    let mut buf = BytesMut::new();
    buf.extend_from_slice(b"1");
    buf.extend_from_slice(&[0xff, 0xfe]);
    buf.extend_from_slice(b" trailing");
    let r = codec.decode(&mut buf);
    assert!(matches!(r, Err(ProtocolError::EncodingError)));
    // the corrupt frame is consumed through its terminating space
    assert_eq!(&buf[..], &b"trailing"[..]);
}

#[test]
fn decode_byte_by_byte_matches_whole() {
    for wire in [&b"1abc "[..], &b"4xy "[..], &b"0"[..], &b"2"[..], &b"3"[..]] {
        let mut codec = RequestCodec;
        let mut buf = BytesMut::new();
        for k in 0..wire.len() - 1 {
            buf.extend_from_slice(&wire[k..k + 1]);
            let r = codec.decode(&mut buf);
            assert!(matches!(r, Ok(None)));
            assert_eq!(&buf[..], &wire[..k + 1]);
        }
        buf.extend_from_slice(&wire[wire.len() - 1..]);
        let fragmented = codec.decode(&mut buf);
        assert_eq!(buf.len(), 0);

        let mut whole = BytesMut::new();
        whole.extend_from_slice(wire);
        let at_once = codec.decode(&mut whole);
        assert_eq!(whole.len(), 0);

        match (fragmented, at_once) {
            (Ok(Some(a)), Ok(Some(b))) => match (a, b) {
                (Request::CloseConnection, Request::CloseConnection) => {}
                (Request::GetVersion, Request::GetVersion) => {}
                (Request::GetHostInfo, Request::GetHostInfo) => {}
                (Request::Convert(x), Request::Convert(y)) => assert_eq!(x, y),
                (Request::Complete(x), Request::Complete(y)) => assert_eq!(x, y),
                _ => panic!("fragmented and whole decodes disagree"),
            },
            _ => panic!("expected a request from both decodes"),
        }
    }
}

#[test]
fn decode_pipelined_requests_in_order() {
    let mut codec = RequestCodec;
    let mut buf = BytesMut::new();
    buf.extend_from_slice(b"2" );
    buf.extend_from_slice(b"1foo ");
    buf.extend_from_slice(b"4");
    let r = codec.decode(&mut buf);
    assert!(matches!(r, Ok(Some(Request::GetVersion))));
    let r = codec.decode(&mut buf);
    assert!(matches!(r, Ok(Some(Request::Convert(s))) if s == "foo"));
    // the trailing completion request is still unterminated
    let r = codec.decode(&mut buf);
    assert!(matches!(r, Ok(None)));
    assert_eq!(&buf[..], &b"4"[..]);
    buf.extend_from_slice(b"bar ");
    let r = codec.decode(&mut buf);
    assert!(matches!(r, Ok(Some(Request::Complete(s))) if s == "bar"));
    assert_eq!(buf.len(), 0);
}

#[test]
fn encode_round_trip_candidates_then_empty() {
    let mut codec = ResponseCodec;
    let mut buf = BytesMut::new();
    codec
        .encode(Response::Candidates(vec!["abc".to_string()]), &mut buf)
        .unwrap();
    codec.encode(Response::Candidates(vec![]), &mut buf).unwrap();
    assert_eq!(&buf[..], &b"1/abc/\n4\n"[..]);
}

#[test]
fn encode_escapes_slash() {
    let mut codec = ResponseCodec;
    let mut buf = BytesMut::new();
    codec
        .encode(Response::Candidates(vec!["a/b".to_string()]), &mut buf)
        .unwrap();
    assert_eq!(&buf[..], &b"1/(concat \"a\\057b\")/\n"[..]);
}

#[test]
fn encode_no_slash_verbatim() {
    let mut codec = ResponseCodec;
    let mut buf = BytesMut::new();
    codec
        .encode(
            Response::Candidates(vec!["ab".to_string(), "2022-02-23".to_string()]),
            &mut buf,
        )
        .unwrap();
    assert_eq!(&buf[..], &b"1/ab/2022-02-23/\n"[..]);
}

#[test]
fn encode_multibyte_candidate_verbatim() {
    let mut codec = ResponseCodec;
    let mut buf = BytesMut::new();
    codec
        .encode(Response::Candidates(vec!["きょう".to_string()]), &mut buf)
        .unwrap();
    let expected = [&b"1/"[..], "きょう".as_bytes(), &b"/\n"[..]].concat();
    assert_eq!(&buf[..], &expected[..]);
}

#[test]
fn encode_version_reply() {
    let mut codec = ResponseCodec;
    let mut buf = BytesMut::new();
    codec.encode(Response::Version, &mut buf).unwrap();
    assert_eq!(&buf[..], &b"skkserv/0.1.0 "[..]);
}

#[test]
fn encode_host_info_reply() {
    let mut codec = ResponseCodec;
    let mut buf = BytesMut::new();
    codec.encode(Response::HostInfo, &mut buf).unwrap();
    assert_eq!(&buf[..], &b"dummy "[..]);
}
