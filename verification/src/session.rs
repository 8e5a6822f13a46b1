//! The per-request decision of a connection's session: which response, if
//! any, answers a decoded request. The I/O loop that reads bytes, feeds the
//! decoder, flushes the encoder's output and finally closes the connection
//! lives outside the library and only performs what is decided here.

use vstd::prelude::*;

use crate::codec::Request;
use crate::codec::Response;
use crate::converter::candidates_post;
use crate::converter::convert;

verus! {

/// The response owed to one decoded request, or `None` for the request that
/// closes the connection. Conversion and completion requests are both
/// answered with the candidates the converter offers for their payload.
pub fn respond(request: &Request) -> (r: Option<Response>)
    ensures
        request is CloseConnection <==> r is None,
        request is GetVersion ==> r == Option::Some(Response::Version),
        request is GetHostInfo ==> r == Option::Some(Response::HostInfo),
        (match request {
            Request::Convert(s) => (match r {
                Option::Some(Response::Candidates(cs)) => candidates_post(s@, cs.deep_view()),
                _ => false,
            }),
            Request::Complete(s) => (match r {
                Option::Some(Response::Candidates(cs)) => candidates_post(s@, cs.deep_view()),
                _ => false,
            }),
            _ => true,
        }),
{
    match request {
        Request::CloseConnection => Option::None,
        Request::Convert(s) => Option::Some(Response::Candidates(convert(s.as_str()))),
        Request::GetVersion => Option::Some(Response::Version),
        Request::GetHostInfo => Option::Some(Response::HostInfo),
        Request::Complete(s) => Option::Some(Response::Candidates(convert(s.as_str()))),
    }
}

} // verus!
