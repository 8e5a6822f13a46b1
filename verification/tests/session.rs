use bytes::BytesMut;
use skkserv::codec::Request;
use skkserv::codec::RequestCodec;
use skkserv::codec::Response;
use skkserv::codec::ResponseCodec;
use skkserv::session::respond;

#[test]
fn respond_to_each_request() {
    assert!(respond(&Request::CloseConnection).is_none());
    assert!(matches!(respond(&Request::GetVersion), Some(Response::Version)));
    assert!(matches!(respond(&Request::GetHostInfo), Some(Response::HostInfo)));
    // a word outside the converter's table is owed an empty candidate list
    assert!(matches!(
        respond(&Request::Convert("xyz".to_string())),
        Some(Response::Candidates(cs)) if cs.is_empty()
    ));
    assert!(matches!(
        respond(&Request::Complete("xyz".to_string())),
        Some(Response::Candidates(cs)) if cs.is_empty()
    ));
}

#[test]
fn version_exchange_then_close() {
    // the client asks for the version, gets the build identity with a
    // trailing space, then closes; the close request is owed no reply
    let mut requests = RequestCodec;
    let mut responses = ResponseCodec;
    let mut inbound = BytesMut::new();
    let mut outbound = BytesMut::new();

    inbound.extend_from_slice(b"2");
    let r = requests.decode(&mut inbound);
    assert!(matches!(r, Ok(Some(Request::GetVersion))));
    let reply = respond(&Request::GetVersion).unwrap();
    responses.encode(reply, &mut outbound).unwrap();
    assert_eq!(&outbound[..], &b"skkserv/0.1.0 "[..]);

    inbound.extend_from_slice(b"0");
    let r = requests.decode(&mut inbound);
    assert!(matches!(r, Ok(Some(Request::CloseConnection))));
    assert!(respond(&Request::CloseConnection).is_none());
    assert_eq!(inbound.len(), 0);
}
