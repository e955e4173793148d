//! The frames of the wire protocol: one tag byte, then a payload of fixed
//! width, the width of the largest record of the frame's family. The fields
//! of a record stand at the start of the payload, least significant byte
//! first; the rest is padding, written as zeros and not read.

use vstd::prelude::*;
use crate::comm::bytes::{
    byte_of_i8, get_i64, get_i8, get_u16, get_u64, i64_of_word, i8_of_byte, le2, le8, put_i64,
    put_i8, put_u16, put_u64, put_zeros, val2, val8, word_of_i64, zeros, lemma_signed_round_trip,
    lemma_val2_le2, lemma_val8_le8,
};
use crate::comm::manager::Reply;
use crate::comm::urcp::{
    AddRequest, AddResponse, CancelRequest, DelimResponse, ExecuteResponse, FlushRequest,
    LevelViewRequest, OBReqType, OBRequest, OBRequestWrapper, OBRespType, OBResponse,
    OBResponseWrapper, PriceLevelResponse, PriceViewResponse, ReduceRequest, StartRequest,
};

verus! {

/// The width of a request's payload: that of a reduce, its largest record.
pub const REQUEST_PAYLOAD_LEN: usize = 18;

/// The width of a request frame.
pub const REQUEST_FRAME_LEN: usize = 19;

/// The width of a response's payload: that of a level view, its largest record.
pub const RESPONSE_PAYLOAD_LEN: usize = 2048;

/// The width of a response frame.
pub const RESPONSE_FRAME_LEN: usize = 2049;

/// Why bytes are not a frame.
#[derive(Clone, Copy, Debug, PartialEq, Eq)]
pub enum FrameError {
    /// The bytes do not have the width of a frame.
    Length,
    /// The tag byte announces no kind of frame.
    UnknownTag(u8),
    /// An order index does not fit this machine's index type.
    FieldRange,
}

/// The fields of a request, as they stand at the start of the payload.
pub open spec fn request_fields(r: OBRequest) -> Seq<u8> {
    match r {
        OBRequest::Add(a) => le8(a.qty).push(byte_of_i8(a.price)) + le2(a.ob_id),
        OBRequest::Cancel(c) => le8(c.oid as u64) + le2(c.ob_id),
        OBRequest::Reduce(c) => le8(c.oid as u64) + le8(c.qty) + le2(c.ob_id),
        OBRequest::Flush(f) => le2(f.ob_id),
        OBRequest::Start(f) => le2(f.ob_id),
        OBRequest::LevelView(f) => le2(f.ob_id),
    }
}

/// The frame of a request.
pub open spec fn request_frame(r: OBRequest) -> Seq<u8> {
    seq![r.kind().tag()] + request_fields(r) + zeros((18 - request_fields(r).len()) as nat)
}

/// The request that a frame holds, or why it holds none.
pub open spec fn parse_request(bytes: Seq<u8>) -> Result<OBRequest, FrameError> {
    if bytes.len() != 19 {
        Err(FrameError::Length)
    } else {
        match OBReqType::of_tag(bytes[0]) {
            None => Err(FrameError::UnknownTag(bytes[0])),
            Some(OBReqType::ADD) => Ok(
                OBRequest::Add(
                    AddRequest {
                        qty: val8(bytes.subrange(1, 9)) as u64,
                        price: i8_of_byte(bytes[9]),
                        ob_id: val2(bytes.subrange(10, 12)) as u16,
                    },
                ),
            ),
            Some(OBReqType::CANCEL) => if val8(bytes.subrange(1, 9)) > usize::MAX {
                Err(FrameError::FieldRange)
            } else {
                Ok(
                    OBRequest::Cancel(
                        CancelRequest {
                            oid: val8(bytes.subrange(1, 9)) as usize,
                            ob_id: val2(bytes.subrange(9, 11)) as u16,
                        },
                    ),
                )
            },
            Some(OBReqType::REDUCE) => if val8(bytes.subrange(1, 9)) > usize::MAX {
                Err(FrameError::FieldRange)
            } else {
                Ok(
                    OBRequest::Reduce(
                        ReduceRequest {
                            oid: val8(bytes.subrange(1, 9)) as usize,
                            qty: val8(bytes.subrange(9, 17)) as u64,
                            ob_id: val2(bytes.subrange(17, 19)) as u16,
                        },
                    ),
                )
            },
            Some(OBReqType::FLUSH) => Ok(
                OBRequest::Flush(FlushRequest { ob_id: val2(bytes.subrange(1, 3)) as u16 }),
            ),
            Some(OBReqType::START) => Ok(
                OBRequest::Start(StartRequest { ob_id: val2(bytes.subrange(1, 3)) as u16 }),
            ),
            Some(OBReqType::LEVELVIEW) => Ok(
                OBRequest::LevelView(LevelViewRequest { ob_id: val2(bytes.subrange(1, 3)) as u16 }),
            ),
        }
    }
}

/// Round trip: the frame of a request holds that request, field for field.
pub proof fn lemma_request_round_trip(r: OBRequest)
    ensures
        request_frame(r).len() == REQUEST_FRAME_LEN,
        parse_request(request_frame(r)) == Ok::<OBRequest, FrameError>(r),
{
    let f = request_frame(r);
    match r {
        OBRequest::Add(a) => {
            lemma_val8_le8(a.qty);
            lemma_val2_le2(a.ob_id);
            lemma_signed_round_trip(a.price, 0);
            assert(f.subrange(1, 9) =~= le8(a.qty));
            assert(f.subrange(10, 12) =~= le2(a.ob_id));
            assert(f[9] == byte_of_i8(a.price));
        },
        OBRequest::Cancel(c) => {
            lemma_val8_le8(c.oid as u64);
            lemma_val2_le2(c.ob_id);
            assert(f.subrange(1, 9) =~= le8(c.oid as u64));
            assert(f.subrange(9, 11) =~= le2(c.ob_id));
        },
        OBRequest::Reduce(c) => {
            lemma_val8_le8(c.oid as u64);
            lemma_val8_le8(c.qty);
            lemma_val2_le2(c.ob_id);
            assert(f.subrange(1, 9) =~= le8(c.oid as u64));
            assert(f.subrange(9, 17) =~= le8(c.qty));
            assert(f.subrange(17, 19) =~= le2(c.ob_id));
        },
        OBRequest::Flush(x) => {
            lemma_val2_le2(x.ob_id);
            assert(f.subrange(1, 3) =~= le2(x.ob_id));
        },
        OBRequest::Start(x) => {
            lemma_val2_le2(x.ob_id);
            assert(f.subrange(1, 3) =~= le2(x.ob_id));
        },
        OBRequest::LevelView(x) => {
            lemma_val2_le2(x.ob_id);
            assert(f.subrange(1, 3) =~= le2(x.ob_id));
        },
    }
}

/// Writes the frame of a request.
pub fn encode_request(w: &OBRequestWrapper) -> (out: Vec<u8>)
    ensures
        out@ == request_frame(w.req),
        out@.len() == REQUEST_FRAME_LEN,
{
    let mut out: Vec<u8> = Vec::new();
    out.push(w.req.typ().to_u8());
    match w.req {
        OBRequest::Add(a) => {
            put_u64(&mut out, a.qty);
            put_i8(&mut out, a.price);
            put_u16(&mut out, a.ob_id);
            put_zeros(&mut out, 7);
        },
        OBRequest::Cancel(c) => {
            put_u64(&mut out, c.oid as u64);
            put_u16(&mut out, c.ob_id);
            put_zeros(&mut out, 8);
        },
        OBRequest::Reduce(c) => {
            put_u64(&mut out, c.oid as u64);
            put_u64(&mut out, c.qty);
            put_u16(&mut out, c.ob_id);
            put_zeros(&mut out, 0);
        },
        OBRequest::Flush(f) => {
            put_u16(&mut out, f.ob_id);
            put_zeros(&mut out, 16);
        },
        OBRequest::Start(f) => {
            put_u16(&mut out, f.ob_id);
            put_zeros(&mut out, 16);
        },
        OBRequest::LevelView(f) => {
            put_u16(&mut out, f.ob_id);
            put_zeros(&mut out, 16);
        },
    }
    assert(out@ =~= request_frame(w.req));
    out
}

/// Reads a request frame: the tag, then the fields that the tag announces.
pub fn decode_request(bytes: &[u8]) -> (r: Result<OBRequestWrapper, FrameError>)
    ensures
        match parse_request(bytes@) {
            Ok(req) => r matches Ok(w) && w.req == req && w.wf(),
            Err(e) => r == Err::<OBRequestWrapper, FrameError>(e),
        },
{
    if bytes.len() != REQUEST_FRAME_LEN {
        return Err(FrameError::Length);
    }
    let tag = bytes[0];
    let kind = match OBReqType::from_u8(tag) {
        None => {
            return Err(FrameError::UnknownTag(tag));
        },
        Some(kind) => kind,
    };
    let req = match kind {
        OBReqType::ADD => OBRequest::Add(
            AddRequest::new(get_u64(bytes, 1), get_i8(bytes, 9), get_u16(bytes, 10)),
        ),
        OBReqType::CANCEL => {
            let oid = get_u64(bytes, 1);
            if oid > usize::MAX as u64 {
                return Err(FrameError::FieldRange);
            }
            OBRequest::Cancel(CancelRequest::new(oid as usize, get_u16(bytes, 9)))
        },
        OBReqType::REDUCE => {
            let oid = get_u64(bytes, 1);
            if oid > usize::MAX as u64 {
                return Err(FrameError::FieldRange);
            }
            OBRequest::Reduce(ReduceRequest::new(oid as usize, get_u64(bytes, 9), get_u16(bytes, 17)))
        },
        OBReqType::FLUSH => OBRequest::Flush(FlushRequest::new(get_u16(bytes, 1))),
        OBReqType::START => OBRequest::Start(StartRequest::new(get_u16(bytes, 1))),
        OBReqType::LEVELVIEW => OBRequest::LevelView(LevelViewRequest::new(get_u16(bytes, 1))),
    };
    Ok(OBRequestWrapper::new(req))
}

/// The bytes of a level snapshot: the quantities one after the other.
pub open spec fn view_bytes(prices: Seq<u64>) -> Seq<u8> {
    Seq::new(prices.len() * 8, |i: int| le8(prices[i / 8])[i % 8])
}

/// The fields of a response, as they stand at the start of the payload.
pub open spec fn response_fields(r: OBResponse) -> Seq<u8> {
    match r {
        OBResponse::Add(a) => le8(a.oid as u64),
        OBResponse::Execute(e) => le8(e.executed_oid as u64) + le8(e.qty),
        OBResponse::Price(p) => seq![byte_of_i8(p.price)] + le8(word_of_i64(p.delta)),
        OBResponse::LevelView(v) => view_bytes(v.prices@),
        OBResponse::End(_) => Seq::empty(),
    }
}

/// The frame of a response.
pub open spec fn response_frame(r: OBResponse) -> Seq<u8> {
    seq![r.kind().tag()] + response_fields(r) + zeros((2048 - response_fields(r).len()) as nat)
}

/// Whether a frame is the end marker.
pub open spec fn is_end(frame: Seq<u8>) -> bool {
    OBRespType::of_tag(frame[0]) == Some(OBRespType::DELIM)
}

/// Why bytes hold no response, if they hold none.
pub open spec fn response_refusal(bytes: Seq<u8>) -> Option<FrameError> {
    if bytes.len() != 2049 {
        Some(FrameError::Length)
    } else {
        match OBRespType::of_tag(bytes[0]) {
            None => Some(FrameError::UnknownTag(bytes[0])),
            Some(OBRespType::ADD) | Some(OBRespType::EXECUTE) => if val8(bytes.subrange(1, 9)) > usize::MAX {
                Some(FrameError::FieldRange)
            } else {
                None
            },
            _ => None,
        }
    }
}

/// Whether `r` is the response that the frame `bytes` holds: the frame's
/// tag announces the kind of `r`, and each field of `r` has the value that
/// stands at its place.
pub open spec fn holds_response(bytes: Seq<u8>, r: OBResponse) -> bool {
    &&& OBRespType::of_tag(bytes[0]) == Some(r.kind())
    &&& match r {
        OBResponse::Add(a) => a.oid == val8(bytes.subrange(1, 9)),
        OBResponse::Execute(e) => e.executed_oid == val8(bytes.subrange(1, 9)) && e.qty == val8(
            bytes.subrange(9, 17),
        ),
        OBResponse::Price(p) => p.price == i8_of_byte(bytes[1]) && p.delta == i64_of_word(
            val8(bytes.subrange(2, 10)) as u64,
        ),
        OBResponse::LevelView(v) => forall|k: int|
            0 <= k < 256 ==> (#[trigger] v.prices@[k]) == val8(bytes.subrange(1 + 8 * k, 9 + 8 * k)),
        OBResponse::End(_) => true,
    }
}

/// A frame holds at most one response.
pub proof fn lemma_response_unique(bytes: Seq<u8>, a: OBResponse, b: OBResponse)
    requires
        holds_response(bytes, a),
        holds_response(bytes, b),
    ensures
        a == b,
{
    match a {
        OBResponse::LevelView(va) => {
            let vb = b->LevelView_0;
            assert forall|k: int| 0 <= k < 256 implies va.prices[k] == vb.prices[k] by {
                assert(va.prices@[k] == vb.prices@[k]);
            }
            assert(va.prices =~= vb.prices);
        },
        _ => {},
    }
}

/// The quantity at place `k` of a snapshot stands at its eight bytes.
proof fn lemma_view_bytes_at(prices: Seq<u64>, k: int)
    requires
        0 <= k < prices.len(),
    ensures
        view_bytes(prices).subrange(8 * k, 8 * k + 8) == le8(prices[k]),
{
    let part = view_bytes(prices).subrange(8 * k, 8 * k + 8);
    assert forall|j: int| 0 <= j < 8 implies part[j] == le8(prices[k])[j] by {
        assert((8 * k + j) / 8 == k);
        assert((8 * k + j) % 8 == j);
    }
    assert(part =~= le8(prices[k]));
}

/// Round trip: the frame of a response is read without refusal and holds
/// that response, field for field.
pub proof fn lemma_response_round_trip(r: OBResponse)
    ensures
        response_frame(r).len() == RESPONSE_FRAME_LEN,
        response_refusal(response_frame(r)) is None,
        holds_response(response_frame(r), r),
        is_end(response_frame(r)) == (r is End),
{
    let f = response_frame(r);
    match r {
        OBResponse::Add(a) => {
            lemma_val8_le8(a.oid as u64);
            assert(f.subrange(1, 9) =~= le8(a.oid as u64));
        },
        OBResponse::Execute(e) => {
            lemma_val8_le8(e.executed_oid as u64);
            lemma_val8_le8(e.qty);
            assert(f.subrange(1, 9) =~= le8(e.executed_oid as u64));
            assert(f.subrange(9, 17) =~= le8(e.qty));
        },
        OBResponse::Price(p) => {
            lemma_val8_le8(word_of_i64(p.delta));
            lemma_signed_round_trip(p.price, p.delta);
            assert(f.subrange(2, 10) =~= le8(word_of_i64(p.delta)));
            assert(f[1] == byte_of_i8(p.price));
        },
        OBResponse::LevelView(v) => {
            assert(v.prices@.len() == 256);
            assert forall|k: int| 0 <= k < 256 implies (#[trigger] v.prices@[k]) == val8(
                f.subrange(1 + 8 * k, 9 + 8 * k),
            ) by {
                lemma_view_bytes_at(v.prices@, k);
                assert(f.subrange(1 + 8 * k, 9 + 8 * k) =~= view_bytes(v.prices@).subrange(8 * k, 8 * k + 8));
                lemma_val8_le8(v.prices@[k]);
            }
        },
        OBResponse::End(_) => {},
    }
}

/// Round trip, the other half: whatever is read from the frame of a
/// response is that response.
pub proof fn lemma_response_read_back(r: OBResponse, read: OBResponse)
    requires
        holds_response(response_frame(r), read),
    ensures
        read == r,
{
    lemma_response_round_trip(r);
    lemma_response_unique(response_frame(r), read, r);
}

/// Appends the bytes of a level snapshot.
fn put_view(out: &mut Vec<u8>, prices: &[u64; 256])
    ensures
        final(out)@ == old(out)@ + view_bytes(prices@),
{
    let mut k: usize = 0;
    assert(old(out)@ + view_bytes(prices@.take(0)) =~= old(out)@);
    while k < 256
        invariant
            k <= 256,
            prices@.len() == 256,
            out@ == old(out)@ + view_bytes(prices@.take(k as int)),
        decreases 256 - k,
    {
        let ghost before = out@;
        put_u64(out, prices[k]);
        proof {
            let a = view_bytes(prices@.take(k as int));
            let b = view_bytes(prices@.take(k + 1));
            assert forall|i: int| 0 <= i < b.len() implies b[i] == (a + le8(prices@[k as int]))[i] by {
                if i < 8 * k {
                    assert(i / 8 < k);
                } else {
                    assert(i / 8 == k);
                    assert(i % 8 == i - 8 * k);
                }
            }
            assert(b =~= a + le8(prices@[k as int]));
            assert(out@ =~= old(out)@ + b);
        }
        k = k + 1;
    }
    assert(prices@.take(256) =~= prices@);
}

/// Appends the frame of a response.
pub fn put_response(out: &mut Vec<u8>, w: &OBResponseWrapper)
    ensures
        final(out)@ == old(out)@ + response_frame(w.resp),
        response_frame(w.resp).len() == RESPONSE_FRAME_LEN,
{
    out.push(w.resp.typ().to_u8());
    match &w.resp {
        OBResponse::Add(a) => {
            put_u64(out, a.oid as u64);
            put_zeros(out, 2040);
        },
        OBResponse::Execute(e) => {
            put_u64(out, e.executed_oid as u64);
            put_u64(out, e.qty);
            put_zeros(out, 2032);
        },
        OBResponse::Price(p) => {
            put_i8(out, p.price);
            put_i64(out, p.delta);
            put_zeros(out, 2039);
        },
        OBResponse::LevelView(v) => {
            put_view(out, &v.prices);
            put_zeros(out, 0);
        },
        OBResponse::End(_) => {
            put_zeros(out, 2048);
        },
    }
    assert(out@ =~= old(out)@ + response_frame(w.resp));
}

/// Writes the frame of a response.
pub fn encode_response(w: &OBResponseWrapper) -> (out: Vec<u8>)
    ensures
        out@ == response_frame(w.resp),
        out@.len() == RESPONSE_FRAME_LEN,
{
    let mut out: Vec<u8> = Vec::new();
    put_response(&mut out, w);
    assert(out@ =~= response_frame(w.resp));
    out
}

/// Reads a response frame: the tag, then the fields that the tag announces.
pub fn decode_response(bytes: &[u8]) -> (r: Result<OBResponseWrapper, FrameError>)
    ensures
        match response_refusal(bytes@) {
            Some(e) => r == Err::<OBResponseWrapper, FrameError>(e),
            None => r matches Ok(w) && w.wf() && holds_response(bytes@, w.resp),
        },
{
    if bytes.len() != RESPONSE_FRAME_LEN {
        return Err(FrameError::Length);
    }
    let tag = bytes[0];
    let kind = match OBRespType::from_u8(tag) {
        None => {
            return Err(FrameError::UnknownTag(tag));
        },
        Some(kind) => kind,
    };
    let resp = match kind {
        OBRespType::ADD => {
            let oid = get_u64(bytes, 1);
            if oid > usize::MAX as u64 {
                return Err(FrameError::FieldRange);
            }
            OBResponse::Add(AddResponse::new(oid as usize))
        },
        OBRespType::EXECUTE => {
            let oid = get_u64(bytes, 1);
            if oid > usize::MAX as u64 {
                return Err(FrameError::FieldRange);
            }
            OBResponse::Execute(ExecuteResponse::new(oid as usize, get_u64(bytes, 9)))
        },
        OBRespType::PRICE => OBResponse::Price(PriceLevelResponse::new(get_i8(bytes, 1), get_i64(bytes, 2))),
        OBRespType::LEVELVIEW => {
            let mut prices: [u64; 256] = [0;256];
            let mut k: usize = 0;
            while k < 256
                invariant
                    k <= 256,
                    bytes@.len() == 2049,
                    forall|j: int| 0 <= j < k ==> (#[trigger] prices@[j]) == val8(bytes@.subrange(1 + 8 * j, 9 + 8 * j)),
                decreases 256 - k,
            {
                let v = get_u64(bytes, 1 + 8 * k);
                prices[k] = v;
                k = k + 1;
            }
            OBResponse::LevelView(PriceViewResponse { prices })
        },
        OBRespType::DELIM => OBResponse::End(DelimResponse::new()),
    };
    Ok(OBResponseWrapper::new(resp))
}

/// The records of a run of wrapped responses.
pub open spec fn records(events: Seq<OBResponseWrapper>) -> Seq<OBResponse> {
    Seq::new(events.len(), |k: int| events[k].resp)
}

/// The frame at place `k` of the answer to a request with several events:
/// the frame of event `k`, and after the last event the end marker.
pub open spec fn stream_frame(events: Seq<OBResponse>, k: int) -> Seq<u8> {
    if 0 <= k < events.len() {
        response_frame(events[k])
    } else {
        response_frame(OBResponse::End(DelimResponse {  }))
    }
}

/// The bytes of the answer to a request with several events: the frames of
/// the events in their order, then the end marker.
pub open spec fn response_stream(events: Seq<OBResponse>) -> Seq<u8> {
    Seq::new(((events.len() + 1) * 2049) as nat, |i: int| stream_frame(events, i / 2049)[i % 2049])
}

/// The bytes of frame `k` of a stream.
pub open spec fn frame_at(bytes: Seq<u8>, k: int) -> Seq<u8> {
    bytes.subrange(k * 2049, (k + 1) * 2049)
}

/// Where the end marker stands in a stream, reading frame by frame from
/// frame `from` on, or why the reading breaks off before it is found.
pub open spec fn stream_end(bytes: Seq<u8>, from: int) -> Result<int, FrameError>
    decreases bytes.len() - from * 2049,
{
    if from < 0 || (from + 1) * 2049 > bytes.len() {
        Err(FrameError::Length)
    } else {
        match response_refusal(frame_at(bytes, from)) {
            Some(e) => Err(e),
            None => if is_end(frame_at(bytes, from)) {
                Ok(from)
            } else {
                stream_end(bytes, from + 1)
            },
        }
    }
}

/// Frame `k` of the stream of `events` is the frame of event `k`.
pub proof fn lemma_stream_frame(events: Seq<OBResponse>, k: int)
    requires
        0 <= k <= events.len(),
    ensures
        frame_at(response_stream(events), k) == stream_frame(events, k),
        stream_frame(events, k).len() == RESPONSE_FRAME_LEN,
{
    if k < events.len() {
        lemma_response_round_trip(events[k]);
    } else {
        lemma_response_round_trip(OBResponse::End(DelimResponse {  }));
    }
    let part = frame_at(response_stream(events), k);
    let whole = stream_frame(events, k);
    assert forall|j: int| 0 <= j < 2049 implies part[j] == whole[j] by {
        assert((k * 2049 + j) / 2049 == k);
        assert((k * 2049 + j) % 2049 == j);
    }
    assert(part =~= whole);
}

/// Round trip of a sequence, frame by frame: each frame of the stream of
/// `events` holds its event.
pub proof fn lemma_stream_holds(events: Seq<OBResponse>, k: int)
    requires
        0 <= k < events.len(),
    ensures
        holds_response(frame_at(response_stream(events), k), events[k]),
        response_refusal(frame_at(response_stream(events), k)) is None,
{
    lemma_stream_frame(events, k);
    lemma_response_round_trip(events[k]);
}

/// Round trip of a sequence: reading the stream of events that hold no end
/// marker finds the end marker right behind the last event.
pub proof fn lemma_stream_round_trip(events: Seq<OBResponse>, from: int)
    requires
        0 <= from <= events.len(),
        forall|k: int| 0 <= k < events.len() ==> !((#[trigger] events[k]) is End),
    ensures
        stream_end(response_stream(events), from) == Ok::<int, FrameError>(events.len() as int),
    decreases events.len() - from,
{
    let bytes = response_stream(events);
    lemma_stream_frame(events, from);
    assert(bytes.len() == (events.len() + 1) * 2049);
    if from < events.len() {
        lemma_response_round_trip(events[from]);
        assert(!(events[from] is End));
        lemma_stream_round_trip(events, from + 1);
    } else {
        lemma_response_round_trip(OBResponse::End(DelimResponse {  }));
    }
}

/// Writes the answer to a request with several events: the frame of each
/// event in turn, then the end marker.
pub fn encode_response_vec(resps: &Vec<OBResponseWrapper>) -> (out: Vec<u8>)
    ensures
        out@ == response_stream(records(resps@)),
        out@.len() == (resps@.len() + 1) * RESPONSE_FRAME_LEN,
{
    let mut out: Vec<u8> = Vec::new();
    let ghost events = records(resps@);
    let mut i: usize = 0;
    while i < resps.len()
        invariant
            i <= resps@.len(),
            events == records(resps@),
            out@.len() == i * 2049,
            forall|j: int| 0 <= j < out@.len() ==> out@[j] == stream_frame(events, j / 2049)[j % 2049],
        decreases resps@.len() - i,
    {
        let ghost before = out@;
        put_response(&mut out, &resps[i]);
        proof {
            assert forall|j: int| 0 <= j < out@.len() implies out@[j] == stream_frame(events, j / 2049)[j % 2049] by {
                if j >= i * 2049 {
                    assert(j / 2049 == i);
                    assert(j % 2049 == j - i * 2049);
                }
            }
        }
        i = i + 1;
    }
    let ghost before = out@;
    let end = OBResponseWrapper::new(OBResponse::End(DelimResponse::new()));
    put_response(&mut out, &end);
    proof {
        assert forall|j: int| 0 <= j < out@.len() implies out@[j] == stream_frame(events, j / 2049)[j % 2049] by {
            if j >= i * 2049 {
                assert(j / 2049 == i);
                assert(j % 2049 == j - i * 2049);
            }
        }
        assert(out@ =~= response_stream(events));
    }
    out
}

/// Takes one more frame of an answer with several events: the end marker
/// ends the sequence and is not kept; any other response joins the events.
/// Returns whether the sequence has ended.
pub fn accept_response(events: &mut Vec<OBResponseWrapper>, response: OBResponseWrapper) -> (done: bool)
    ensures
        done == (response.resp is End),
        done ==> final(events)@ == old(events)@,
        !done ==> final(events)@ == old(events)@.push(response),
{
    match response.resp {
        OBResponse::End(_) => true,
        _ => {
            events.push(response);
            false
        },
    }
}

/// Reads the answer to a request with several events from a buffer: frame
/// after frame up to the end marker. Returns the events before the marker.
pub fn decode_response_vec(bytes: &[u8]) -> (r: Result<Vec<OBResponseWrapper>, FrameError>)
    ensures
        match stream_end(bytes@, 0) {
            Err(e) => r == Err::<Vec<OBResponseWrapper>, FrameError>(e),
            Ok(n) => {
                &&& r matches Ok(events)
                &&& events@.len() == n
                &&& forall|k: int| 0 <= k < n ==> {
                    &&& (#[trigger] events@[k]).wf()
                    &&& holds_response(frame_at(bytes@, k), events@[k].resp)
                }
            },
        },
{
    let mut events: Vec<OBResponseWrapper> = Vec::new();
    let mut k: usize = 0;
    loop
        invariant
            events@.len() == k,
            k * 2049 <= bytes@.len(),
            stream_end(bytes@, 0) == stream_end(bytes@, k as int),
            forall|j: int| 0 <= j < k ==> {
                &&& (#[trigger] events@[j]).wf()
                &&& holds_response(frame_at(bytes@, j), events@[j].resp)
            },
        decreases bytes@.len() - k * 2049,
    {
        if bytes.len() - k * RESPONSE_FRAME_LEN < RESPONSE_FRAME_LEN {
            return Err(FrameError::Length);
        }
        let frame = vstd::slice::slice_subrange(bytes, k * RESPONSE_FRAME_LEN, (k + 1) * RESPONSE_FRAME_LEN);
        assert(frame@ == frame_at(bytes@, k as int));
        let response = match decode_response(frame) {
            Err(e) => {
                return Err(e);
            },
            Ok(response) => response,
        };
        if accept_response(&mut events, response) {
            return Ok(events);
        }
        k = k + 1;
    }
}

/// The bytes of the engine's answer: a sequence of events goes out as a
/// stream with its end marker, a single response as one frame without one.
pub open spec fn reply_bytes(reply: Reply) -> Seq<u8> {
    match reply {
        Reply::Events(events) => response_stream(records(events@)),
        Reply::Single(response) => response_frame(response.resp),
    }
}

/// Writes the engine's answer to a request.
pub fn encode_reply(reply: &Reply) -> (out: Vec<u8>)
    ensures
        out@ == reply_bytes(*reply),
{
    match reply {
        Reply::Events(events) => encode_response_vec(events),
        Reply::Single(response) => encode_response(response),
    }
}

} // verus!
