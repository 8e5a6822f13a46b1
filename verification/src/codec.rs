//! The protocol codec: an incremental decoder that turns a fragmented byte
//! stream into typed requests, and an encoder that turns typed responses into
//! their exact wire bytes, including the escaping of payload bytes that
//! collide with the `/` field delimiter.
//!
//! Byte values spelled out below: `48`..`52` are the ASCII digits `0`..`4`
//! (the command bytes), `32` is the space that terminates a payload, `47` is
//! `/`, `10` is the newline, and `45` is `-`.

use vstd::prelude::*;
use vstd::utf8::valid_utf8;
use vstd::utf8::decode_utf8;
use vstd::utf8::encode_utf8;

use crate::buffer::buf_bytes;
use crate::buffer::buf_len;
use crate::buffer::buf_get;
use crate::buffer::buf_advance;
use crate::buffer::buf_extend;

verus! {

/// One request decoded from the client's byte stream.
#[derive(Debug)]
pub enum Request {
    /// Command `0`. The TCP connection should be closed.
    CloseConnection,
    /// Command `1`. Request for conversion.
    Convert(String),
    /// Command `2`. Request for version string.
    GetVersion,
    /// Command `3`. Request for host info.
    GetHostInfo,
    /// Command `4`. Request for completion.
    Complete(String),
}

/// One response to be encoded onto the server's byte stream.
#[derive(Debug)]
pub enum Response {
    /// Response for command `1` and `4`.
    Candidates(Vec<String>),
    /// Response for command `2`.
    Version,
    /// Response for command `3`.
    HostInfo,
}

/// An unrecoverable error of one connection's session.
#[derive(Debug)]
pub enum ProtocolError {
    /// Failure of the underlying transport; raised by the I/O layer, never
    /// by the codec itself.
    IOError,
    /// An unrecognized command byte, named for diagnosis.
    UnknownCommand(u8),
    /// A fully received payload whose bytes are not valid UTF-8.
    EncodingError,
}

/// The mathematical value of a request: payloads as character sequences.
pub enum ReqView {
    Close,
    Convert(Seq<char>),
    Version,
    HostInfo,
    Complete(Seq<char>),
}

pub open spec fn req_view(r: Request) -> ReqView {
    match r {
        Request::CloseConnection => ReqView::Close,
        Request::Convert(s) => ReqView::Convert(s@),
        Request::GetVersion => ReqView::Version,
        Request::GetHostInfo => ReqView::HostInfo,
        Request::Complete(s) => ReqView::Complete(s@),
    }
}

/// What one decoding step yields on given buffered bytes.
pub enum DecodeStep {
    /// Nothing can be decided yet: more bytes could still make the
    /// buffered prefix a complete request.
    NeedMore,
    /// A complete request.
    Parsed(ReqView),
    /// An unrecognized leading command byte.
    UnknownCmd(u8),
    /// A complete `1` or `4` payload that is not valid UTF-8.
    BadUtf8,
}

/// True when some byte of `s` is the payload-terminating space.
pub open spec fn has_space(s: Seq<u8>) -> bool {
    exists|i: int| 0 <= i < s.len() && s[i] == 32u8
}

/// Position of the first space byte of `s`, or `s.len()` when there is none.
pub open spec fn first_space(s: Seq<u8>) -> int
    decreases s.len(),
{
    if s.len() == 0 {
        0
    } else if s[0] == 32u8 {
        0
    } else {
        1 + first_space(s.drop_first())
    }
}

pub proof fn lemma_first_space(s: Seq<u8>)
    ensures
        !has_space(s) ==> first_space(s) == s.len(),
        has_space(s) ==> 0 <= first_space(s) < s.len() && s[first_space(s)] == 32u8,
        forall|j: int| 0 <= j < first_space(s) ==> s[j] != 32u8,
    decreases s.len(),
{
    if s.len() == 0 {
    } else if s[0] == 32u8 {
    } else {
        let t = s.drop_first();
        lemma_first_space(t);
        assert(forall|i: int| 0 <= i < t.len() ==> t[i] == s[i + 1]);
        if has_space(s) {
            let i = choose|i: int| 0 <= i < s.len() && s[i] == 32u8;
            assert(t[i - 1] == 32u8);
            assert(has_space(t));
        }
        if has_space(t) {
            let i = choose|i: int| 0 <= i < t.len() && t[i] == 32u8;
            assert(s[i + 1] == 32u8);
            assert(has_space(s));
        }
        assert(forall|j: int| 1 <= j < first_space(s) ==> s[j] == t[j - 1]);
    }
}

/// Appending bytes never moves an already-found first space.
pub proof fn lemma_first_space_append(s: Seq<u8>, ext: Seq<u8>)
    requires
        has_space(s),
    ensures
        has_space(s + ext),
        first_space(s + ext) == first_space(s),
    decreases s.len(),
{
    if s.len() == 0 {
    } else if s[0] == 32u8 {
        assert((s + ext)[0] == 32u8);
    } else {
        let t = s.drop_first();
        lemma_first_space(s);
        assert(s[first_space(s)] == 32u8);
        assert(t[first_space(s) - 1] == 32u8);
        assert(has_space(t));
        lemma_first_space_append(t, ext);
        assert((s + ext).drop_first() =~= t + ext);
        assert((s + ext)[0] == s[0]);
        lemma_first_space(s + ext);
        assert((s + ext)[first_space(s)] == 32u8);
        assert(has_space(s + ext));
    }
}

/// How many front bytes one decoding step on `b` removes from the buffer.
pub open spec fn consumed_len(b: Seq<u8>) -> int {
    if b.len() == 0 {
        0
    } else if b[0] == 48u8 || b[0] == 50u8 || b[0] == 51u8 {
        1
    } else if b[0] == 49u8 || b[0] == 52u8 {
        if has_space(b) {
            first_space(b) + 1
        } else {
            0
        }
    } else {
        0
    }
}

/// The payload of a complete `1` or `4` request buffered in `b`: the bytes
/// between the command byte and the first space.
pub open spec fn payload_bytes(b: Seq<u8>) -> Seq<u8> {
    b.subrange(1, first_space(b))
}

/// The decoding step that a buffer holding exactly the bytes `b` yields.
pub open spec fn decode_step(b: Seq<u8>) -> DecodeStep {
    if b.len() == 0 {
        DecodeStep::NeedMore
    } else if b[0] == 48u8 {
        DecodeStep::Parsed(ReqView::Close)
    } else if b[0] == 50u8 {
        DecodeStep::Parsed(ReqView::Version)
    } else if b[0] == 51u8 {
        DecodeStep::Parsed(ReqView::HostInfo)
    } else if b[0] == 49u8 || b[0] == 52u8 {
        if !has_space(b) {
            DecodeStep::NeedMore
        } else if !valid_utf8(payload_bytes(b)) {
            DecodeStep::BadUtf8
        } else if b[0] == 49u8 {
            DecodeStep::Parsed(ReqView::Convert(decode_utf8(payload_bytes(b))))
        } else {
            DecodeStep::Parsed(ReqView::Complete(decode_utf8(payload_bytes(b))))
        }
    } else {
        DecodeStep::UnknownCmd(b[0])
    }
}

/// A decoding step never consumes bytes it has not turned into a request or
/// charged to a framing failure: nothing on `NeedMore` or on an unknown
/// command, the whole frame otherwise.
pub proof fn lemma_consumed_within(b: Seq<u8>)
    ensures
        0 <= consumed_len(b) <= b.len(),
        decode_step(b) is NeedMore ==> consumed_len(b) == 0,
        decode_step(b) is UnknownCmd ==> consumed_len(b) == 0,
{
    lemma_first_space(b);
}

/// Once a buffer yields a request or an error, feeding more bytes changes
/// neither the outcome nor the number of bytes consumed: decoding a request
/// from arbitrarily fragmented input gives exactly what decoding the whole
/// of it at once gives.
pub proof fn lemma_decode_prefix_stable(b: Seq<u8>, ext: Seq<u8>)
    requires
        !(decode_step(b) is NeedMore),
    ensures
        decode_step(b + ext) == decode_step(b),
        consumed_len(b + ext) == consumed_len(b),
{
    assert((b + ext)[0] == b[0]);
    if b[0] == 49u8 || b[0] == 52u8 {
        assert(has_space(b));
        lemma_first_space(b);
        lemma_first_space_append(b, ext);
        assert(forall|i: int| 0 <= i < b.len() ==> (b + ext)[i] == b[i]);
        assert(payload_bytes(b + ext) =~= payload_bytes(b));
    }
}

/// An empty buffer always asks for more data and consumes nothing; it is
/// never an error.
pub proof fn lemma_decode_empty(b: Seq<u8>)
    requires
        b.len() == 0,
    ensures
        decode_step(b) is NeedMore,
        consumed_len(b) == 0,
{
}

/// A `1` or `4` command whose payload's terminating space has not arrived
/// yet asks for more data and leaves the buffer byte for byte unchanged:
/// the command byte is not re-consumed or lost across retries.
pub proof fn lemma_decode_unterminated(b: Seq<u8>)
    requires
        b.len() > 0,
        b[0] == 49u8 || b[0] == 52u8,
        !has_space(b),
    ensures
        decode_step(b) is NeedMore,
        consumed_len(b) == 0,
        b.skip(consumed_len(b)) == b,
{
    assert(b.skip(0) =~= b);
}

/// A buffer led by an unrecognized command byte yields a framing error
/// naming that byte, and does not consume it.
pub proof fn lemma_decode_unknown(b: Seq<u8>)
    requires
        b.len() > 0,
        b[0] != 48u8,
        b[0] != 49u8,
        b[0] != 50u8,
        b[0] != 51u8,
        b[0] != 52u8,
    ensures
        decode_step(b) == DecodeStep::UnknownCmd(b[0]),
        consumed_len(b) == 0,
        b.skip(consumed_len(b)) == b,
{
    assert(b.skip(0) =~= b);
}

/// A proper prefix of one request's frame never yields a request or an
/// error: the decoder asks for more bytes and leaves the buffer whole. With
/// [`lemma_decode_prefix_stable`] this says that feeding a frame in
/// arbitrarily small chunks decodes exactly as feeding it whole: every call
/// before the last consumes nothing, and the last sees the whole frame.
pub proof fn lemma_decode_incomplete_prefix(b: Seq<u8>, k: int)
    requires
        !(decode_step(b) is NeedMore),
        0 <= k < consumed_len(b),
    ensures
        decode_step(b.take(k)) is NeedMore,
        consumed_len(b.take(k)) == 0,
{
    lemma_first_space(b);
    let p = b.take(k);
    if k == 0 {
    } else {
        assert(p[0] == b[0]);
        if b[0] == 49u8 || b[0] == 52u8 {
            assert(has_space(b));
            assert(k < first_space(b) + 1);
            assert(forall|j: int| 0 <= j < p.len() ==> p[j] == b[j]);
            assert(forall|j: int| 0 <= j < p.len() ==> p[j] != 32u8);
            assert(!has_space(p));
        }
    }
}

/// True when some byte of `s` is the `/` field delimiter.
pub open spec fn contains_slash(s: Seq<u8>) -> bool {
    exists|i: int| 0 <= i < s.len() && s[i] == 47u8
}

/// The four-byte sequence `\057` that stands in for one `/` byte.
pub open spec fn slash_escape() -> Seq<u8> {
    seq![92u8, 48u8, 53u8, 55u8]
}

/// The body of an escaped candidate: every `/` byte replaced by `\057`.
pub open spec fn escape_body(s: Seq<u8>) -> Seq<u8>
    decreases s.len(),
{
    if s.len() == 0 {
        Seq::empty()
    } else if s[0] == 47u8 {
        slash_escape() + escape_body(s.drop_first())
    } else {
        seq![s[0]] + escape_body(s.drop_first())
    }
}

/// The wire form of one candidate: verbatim when it contains no `/` byte,
/// otherwise its escaped body wrapped in `(concat "` and `")`.
pub open spec fn escape_bytes(s: Seq<u8>) -> Seq<u8> {
    if contains_slash(s) {
        seq![40u8, 99u8, 111u8, 110u8, 99u8, 97u8, 116u8, 32u8, 34u8] + escape_body(s) + seq![
            34u8,
            41u8,
        ]
    } else {
        s
    }
}

/// A candidate with no `/` in it is put on the wire verbatim, byte-identical
/// to its own UTF-8 encoding.
pub proof fn lemma_escape_verbatim(s: Seq<u8>)
    requires
        !contains_slash(s),
    ensures
        escape_bytes(s) == s,
{
}

proof fn lemma_escape_body_push(s: Seq<u8>, x: u8)
    ensures
        escape_body(s.push(x)) == escape_body(s) + (if x == 47u8 {
            slash_escape()
        } else {
            seq![x]
        }),
    decreases s.len(),
{
    let tail: Seq<u8> = if x == 47u8 {
        slash_escape()
    } else {
        seq![x]
    };
    if s.len() == 0 {
        assert(s.push(x)[0] == x);
        assert(s.push(x).drop_first() =~= Seq::<u8>::empty());
        assert(escape_body(Seq::<u8>::empty()) == Seq::<u8>::empty());
        assert(escape_body(s.push(x)) == tail + Seq::<u8>::empty());
        assert(tail + Seq::<u8>::empty() =~= tail);
        assert(escape_body(s) + tail =~= tail);
    } else {
        assert(s.push(x)[0] == s[0]);
        assert(s.push(x).drop_first() =~= s.drop_first().push(x));
        lemma_escape_body_push(s.drop_first(), x);
        let head: Seq<u8> = if s[0] == 47u8 {
            slash_escape()
        } else {
            seq![s[0]]
        };
        assert(head + (escape_body(s.drop_first()) + tail) =~= (head + escape_body(s.drop_first()))
            + tail);
    }
}

/// Candidate section of a non-empty candidates line: each candidate's wire
/// form followed by one `/`.
pub open spec fn candidates_body(cs: Seq<Seq<char>>) -> Seq<u8>
    decreases cs.len(),
{
    if cs.len() == 0 {
        Seq::empty()
    } else {
        escape_bytes(encode_utf8(cs[0])) + seq![47u8] + candidates_body(cs.drop_first())
    }
}

proof fn lemma_candidates_body_push(cs: Seq<Seq<char>>, c: Seq<char>)
    ensures
        candidates_body(cs.push(c)) == candidates_body(cs) + escape_bytes(encode_utf8(c)) + seq![
            47u8,
        ],
    decreases cs.len(),
{
    let e = escape_bytes(encode_utf8(c));
    let piece = e + seq![47u8];
    if cs.len() == 0 {
        assert(cs.push(c)[0] == c);
        assert(cs.push(c).drop_first() =~= Seq::<Seq<char>>::empty());
        assert(candidates_body(Seq::<Seq<char>>::empty()) == Seq::<u8>::empty());
        assert(candidates_body(cs.push(c)) == e + seq![47u8] + Seq::<u8>::empty());
        assert(e + seq![47u8] + Seq::<u8>::empty() =~= e + seq![47u8]);
        assert(candidates_body(cs) + e + seq![47u8] =~= e + seq![47u8]);
    } else {
        assert(cs.push(c)[0] == cs[0]);
        assert(cs.push(c).drop_first() =~= cs.drop_first().push(c));
        lemma_candidates_body_push(cs.drop_first(), c);
        let head = escape_bytes(encode_utf8(cs[0])) + seq![47u8];
        assert(head + (candidates_body(cs.drop_first()) + piece) =~= (head + candidates_body(
            cs.drop_first(),
        )) + piece);
        assert(candidates_body(cs) + escape_bytes(encode_utf8(c)) + seq![47u8] =~= candidates_body(
            cs,
        ) + piece);
    }
}

/// The version reply `skkserv/0.1.0 `: program name and version joined by a
/// `/`, with a trailing space and no newline.
pub open spec fn version_wire() -> Seq<u8> {
    seq![115u8, 107u8, 107u8, 115u8, 101u8, 114u8, 118u8, 47u8, 48u8, 46u8, 49u8, 46u8, 48u8, 32u8]
}

/// The host-info reply `dummy `: a fixed placeholder with a trailing space
/// and no newline.
pub open spec fn host_info_wire() -> Seq<u8> {
    seq![100u8, 117u8, 109u8, 109u8, 121u8, 32u8]
}

/// The exact bytes a response puts on the wire. An empty candidate list is
/// the sentinel line `4\n`; a non-empty one is `1/`, each candidate's wire
/// form followed by `/`, and a newline.
pub open spec fn response_wire(r: Response) -> Seq<u8> {
    match r {
        Response::Candidates(cs) => if cs.deep_view().len() == 0 {
            seq![52u8, 10u8]
        } else {
            seq![49u8, 47u8] + candidates_body(cs.deep_view()) + seq![10u8]
        },
        Response::Version => version_wire(),
        Response::HostInfo => host_info_wire(),
    }
}

/// Relies on `String::from_utf8`: `Ok` exactly when the bytes are valid
/// UTF-8, and the string then holds the characters they encode.
#[verifier::external_body]
pub(crate) fn string_from_bytes(v: Vec<u8>) -> (r: Option<String>)
    ensures
        r is Some <==> valid_utf8(v@),
        r is Some ==> r->0@ == decode_utf8(v@),
{
    match String::from_utf8(v) {
        Ok(s) => Some(s),
        Err(_) => None,
    }
}

/// Position of the first space byte buffered in `src`, if one has arrived.
fn find_space(src: &bytes::BytesMut) -> (r: Option<usize>)
    ensures
        (match r {
            Some(i) => has_space(buf_bytes(*src)) && i == first_space(buf_bytes(*src)),
            None => !has_space(buf_bytes(*src)),
        }),
{
    let ghost b = buf_bytes(*src);
    let n = buf_len(src);
    let mut i: usize = 0;
    while i < n
        invariant
            i <= n,
            n == b.len(),
            b == buf_bytes(*src),
            forall|j: int| 0 <= j < i ==> b[j] != 32u8,
        decreases n - i,
    {
        if buf_get(src, i) == 32u8 {
            proof {
                assert(0 <= i < b.len() && b[i as int] == 32u8);
                assert(has_space(b));
                lemma_first_space(b);
            }
            return Some(i);
        }
        i += 1;
    }
    proof {
        lemma_first_space(b);
        assert(!has_space(b));
    }
    None
}

/// Incremental decoder of client requests. It keeps no state of its own:
/// between calls everything pending lives in the connection's byte buffer.
pub struct RequestCodec;

impl RequestCodec {
    /// One decoding step on the bytes buffered so far: yields one complete
    /// request, asks for more bytes, or reports a framing failure, consuming
    /// exactly the frame it accounted for and nothing on `Ok(None)` or on an
    /// unknown command byte.
    pub fn decode(&mut self, src: &mut bytes::BytesMut) -> (r: Result<
        Option<Request>,
        ProtocolError,
    >)
        ensures
            buf_bytes(*final(src)) == buf_bytes(*old(src)).skip(
                consumed_len(buf_bytes(*old(src))),
            ),
            (match decode_step(buf_bytes(*old(src))) {
                DecodeStep::NeedMore => r == Ok::<Option<Request>, ProtocolError>(None),
                DecodeStep::Parsed(v) => (match r {
                    Ok(Some(req)) => req_view(req) == v,
                    _ => false,
                }),
                DecodeStep::UnknownCmd(c) => r == Err::<Option<Request>, ProtocolError>(
                    ProtocolError::UnknownCommand(c),
                ),
                DecodeStep::BadUtf8 => r == Err::<Option<Request>, ProtocolError>(
                    ProtocolError::EncodingError,
                ),
            }),
    {
        let ghost b = buf_bytes(*old(src));
        let n = buf_len(src);
        if n == 0 {
            proof {
                assert(b.skip(0) =~= b);
            }
            return Ok(None);
        }
        let c = buf_get(src, 0);
        if c == 48u8 {
            buf_advance(src, 1);
            Ok(Some(Request::CloseConnection))
        } else if c == 50u8 {
            buf_advance(src, 1);
            Ok(Some(Request::GetVersion))
        } else if c == 51u8 {
            buf_advance(src, 1);
            Ok(Some(Request::GetHostInfo))
        } else if c == 49u8 || c == 52u8 {
            match find_space(src) {
                None => {
                    proof {
                        assert(b.skip(0) =~= b);
                    }
                    Ok(None)
                },
                Some(i) => {
                    proof {
                        lemma_first_space(b);
                        assert(Seq::<u8>::empty() =~= b.subrange(1, 1));
                    }
                    let mut payload: Vec<u8> = Vec::new();
                    let mut j: usize = 1;
                    while j < i
                        invariant
                            1 <= j <= i,
                            i == first_space(b),
                            i < b.len(),
                            b == buf_bytes(*src),
                            payload@ == b.subrange(1, j as int),
                        decreases i - j,
                    {
                        let x = buf_get(src, j);
                        payload.push(x);
                        proof {
                            assert(b.subrange(1, j + 1) =~= b.subrange(1, j as int).push(
                                b[j as int],
                            ));
                        }
                        j += 1;
                    }
                    buf_advance(src, i + 1);
                    proof {
                        assert(payload@ == payload_bytes(b));
                    }
                    match string_from_bytes(payload) {
                        Some(s) => {
                            if c == 49u8 {
                                Ok(Some(Request::Convert(s)))
                            } else {
                                Ok(Some(Request::Complete(s)))
                            }
                        },
                        None => Err(ProtocolError::EncodingError),
                    }
                },
            }
        } else {
            proof {
                assert(b.skip(0) =~= b);
            }
            Err(ProtocolError::UnknownCommand(c))
        }
    }
}

/// Appends one candidate's wire form to `out`, escaping it when it holds a
/// `/` byte.
fn push_escaped(out: &mut Vec<u8>, s: &str)
    ensures
        final(out)@ == old(out)@ + escape_bytes(encode_utf8(s@)),
{
    let ghost start = out@;
    let bs: &[u8] = s.as_bytes();
    let ghost e = bs@;
    let n = bs.len();
    let mut has: bool = false;
    let mut k: usize = 0;
    while k < n
        invariant
            k <= n,
            n == e.len(),
            bs@ == e,
            has <==> contains_slash(e.take(k as int)),
        decreases n - k,
    {
        if bs[k] == 47u8 {
            has = true;
        }
        proof {
            assert(e.take(k + 1) =~= e.take(k as int).push(e[k as int]));
            if contains_slash(e.take(k as int)) {
                let w = choose|i: int|
                    0 <= i < e.take(k as int).len() && e.take(k as int)[i] == 47u8;
                assert(e.take(k + 1)[w] == 47u8);
            }
            if e[k as int] == 47u8 {
                assert(e.take(k + 1)[k as int] == 47u8);
            }
        }
        k += 1;
    }
    proof {
        assert(e.take(n as int) =~= e);
    }
    if has == false {
        out.extend_from_slice(bs);
        proof {
            assert(out@ =~= start + escape_bytes(e));
        }
        return ;
    }
    // `(concat "` before, the escaped body, then `")` after
    out.push(40u8);
    out.push(99u8);
    out.push(111u8);
    out.push(110u8);
    out.push(99u8);
    out.push(97u8);
    out.push(116u8);
    out.push(32u8);
    out.push(34u8);
    let ghost head = seq![40u8, 99u8, 111u8, 110u8, 99u8, 97u8, 116u8, 32u8, 34u8];
    proof {
        assert(out@ =~= start + head);
        assert(escape_body(e.take(0)) =~= Seq::<u8>::empty());
        assert(out@ =~= start + head + escape_body(e.take(0)));
    }
    let mut k: usize = 0;
    while k < n
        invariant
            k <= n,
            n == e.len(),
            bs@ == e,
            out@ == start + head + escape_body(e.take(k as int)),
        decreases n - k,
    {
        let x = bs[k];
        if x == 47u8 {
            out.push(92u8);
            out.push(48u8);
            out.push(53u8);
            out.push(55u8);
        } else {
            out.push(x);
        }
        proof {
            assert(e.take(k + 1) =~= e.take(k as int).push(e[k as int]));
            lemma_escape_body_push(e.take(k as int), e[k as int]);
            assert(out@ =~= start + head + escape_body(e.take(k + 1)));
        }
        k += 1;
    }
    out.push(34u8);
    out.push(41u8);
    proof {
        assert(out@ =~= start + (head + escape_body(e) + seq![34u8, 41u8]));
    }
}

/// Encoder of server responses. Like the decoder it keeps no state; each
/// call appends one response's bytes to the connection's output buffer.
pub struct ResponseCodec;

impl ResponseCodec {
    /// Appends the exact wire bytes of `item` to `dst`. Encoding itself
    /// cannot fail; only the I/O layer that later flushes the buffer can.
    pub fn encode(&mut self, item: Response, dst: &mut bytes::BytesMut) -> (r: Result<
        (),
        ProtocolError,
    >)
        ensures
            r is Ok,
            buf_bytes(*final(dst)) == buf_bytes(*old(dst)) + response_wire(item),
    {
        let mut out: Vec<u8> = Vec::new();
        match &item {
            Response::Candidates(cs) => {
                if cs.len() == 0 {
                    out.push(52u8);
                    out.push(10u8);
                    proof {
                        assert(out@ =~= response_wire(item));
                    }
                } else {
                    out.push(49u8);
                    out.push(47u8);
                    proof {
                        assert(candidates_body(cs.deep_view().take(0)) =~= Seq::<u8>::empty());
                        assert(out@ =~= seq![49u8, 47u8] + candidates_body(
                            cs.deep_view().take(0),
                        ));
                    }
                    let mut k: usize = 0;
                    while k < cs.len()
                        invariant
                            k <= cs.len(),
                            out@ == seq![49u8, 47u8] + candidates_body(
                                cs.deep_view().take(k as int),
                            ),
                        decreases cs.len() - k,
                    {
                        push_escaped(&mut out, cs[k].as_str());
                        out.push(47u8);
                        proof {
                            let cv = cs.deep_view();
                            assert(cv.take(k + 1) =~= cv.take(k as int).push(cv[k as int]));
                            lemma_candidates_body_push(cv.take(k as int), cv[k as int]);
                            assert(cv[k as int] == cs@[k as int]@);
                            assert(out@ =~= seq![49u8, 47u8] + candidates_body(cv.take(k + 1)));
                        }
                        k += 1;
                    }
                    out.push(10u8);
                    proof {
                        assert(cs.deep_view().take(cs@.len() as int) =~= cs.deep_view());
                        assert(out@ =~= response_wire(item));
                    }
                }
            },
            Response::Version => {
                out.push(115u8);
                out.push(107u8);
                out.push(107u8);
                out.push(115u8);
                out.push(101u8);
                out.push(114u8);
                out.push(118u8);
                out.push(47u8);
                out.push(48u8);
                out.push(46u8);
                out.push(49u8);
                out.push(46u8);
                out.push(48u8);
                out.push(32u8);
                proof {
                    assert(out@ =~= response_wire(item));
                }
            },
            Response::HostInfo => {
                out.push(100u8);
                out.push(117u8);
                out.push(109u8);
                out.push(109u8);
                out.push(121u8);
                out.push(32u8);
                proof {
                    assert(out@ =~= response_wire(item));
                }
            },
        }
        buf_extend(dst, out.as_slice());
        Ok(())
    }
}

} // verus!

