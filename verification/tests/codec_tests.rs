use fast_book::comm::bytes::{get_i64, get_i8, get_u16, get_u64, put_i64, put_i8, put_u16, put_u64, put_zeros};
use fast_book::comm::frame::{
    accept_response, decode_request, decode_response, decode_response_vec, encode_reply,
    encode_request, encode_response, encode_response_vec, FrameError, REQUEST_FRAME_LEN,
    REQUEST_PAYLOAD_LEN, RESPONSE_FRAME_LEN, RESPONSE_PAYLOAD_LEN,
};
use fast_book::comm::manager::Reply;
use fast_book::comm::urcp::{
    AddRequest, AddResponse, CancelRequest, DelimResponse, ExecuteResponse, FlushRequest,
    LevelViewRequest, OBReqType, OBRequest, OBRequestWrapper, OBRespType, OBResponse,
    OBResponseWrapper, PriceLevelResponse, PriceViewResponse, ReduceRequest, StartRequest,
    VIEW_LEN,
};

fn request_round_trip(req: OBRequest) {
    let wrapper = OBRequestWrapper::new(req);
    let bytes = encode_request(&wrapper);
    assert_eq!(bytes.len(), REQUEST_FRAME_LEN);
    assert_eq!(bytes[0], wrapper.typ.to_u8());
    assert_eq!(decode_request(&bytes), Ok(wrapper));
}

fn response_round_trip(resp: OBResponse) {
    let wrapper = OBResponseWrapper::new(resp);
    let bytes = encode_response(&wrapper);
    assert_eq!(bytes.len(), RESPONSE_FRAME_LEN);
    assert_eq!(bytes[0], wrapper.typ.to_u8());
    assert_eq!(decode_response(&bytes), Ok(wrapper));
}

#[test]
fn frame_widths() {
    assert_eq!(REQUEST_PAYLOAD_LEN, 18);
    assert_eq!(REQUEST_FRAME_LEN, 19);
    assert_eq!(RESPONSE_PAYLOAD_LEN, VIEW_LEN * 8);
    assert_eq!(RESPONSE_FRAME_LEN, 2049);
}

#[test]
fn request_round_trips_at_the_boundaries() {
    for qty in [0u64, 1, 255, 256, u64::MAX] {
        for price in [i8::MIN, -1, 0, 1, i8::MAX] {
            for ob_id in [0u16, 1, 255, 256, u16::MAX] {
                request_round_trip(OBRequest::Add(AddRequest::new(qty, price, ob_id)));
            }
        }
    }
    for oid in [0usize, 1, 65_536, usize::MAX] {
        for ob_id in [0u16, u16::MAX] {
            request_round_trip(OBRequest::Cancel(CancelRequest::new(oid, ob_id)));
            for qty in [0u64, 0x0102_0304_0506_0708, u64::MAX] {
                request_round_trip(OBRequest::Reduce(ReduceRequest::new(oid, qty, ob_id)));
            }
        }
    }
    for ob_id in [0u16, 0x1234, u16::MAX] {
        request_round_trip(OBRequest::Flush(FlushRequest::new(ob_id)));
        request_round_trip(OBRequest::Start(StartRequest::new(ob_id)));
        request_round_trip(OBRequest::LevelView(LevelViewRequest::new(ob_id)));
    }
}

#[test]
fn response_round_trips_at_the_boundaries() {
    for oid in [0usize, 1, usize::MAX] {
        response_round_trip(OBResponse::Add(AddResponse::new(oid)));
        for qty in [0u64, 7, u64::MAX] {
            response_round_trip(OBResponse::Execute(ExecuteResponse::new(oid, qty)));
        }
    }
    for price in [i8::MIN, -1, 0, i8::MAX] {
        for delta in [i64::MIN, -1, 0, 1, i64::MAX] {
            response_round_trip(OBResponse::Price(PriceLevelResponse::new(price, delta)));
        }
    }
    let mut prices = [0u64; 256];
    for (i, p) in prices.iter_mut().enumerate() {
        *p = (i as u64) * 0x0101_0101_0101_0101;
    }
    prices[255] = u64::MAX;
    response_round_trip(OBResponse::LevelView(PriceViewResponse { prices }));
    response_round_trip(OBResponse::LevelView(PriceViewResponse { prices: [0; 256] }));
    response_round_trip(OBResponse::End(DelimResponse::new()));
}

#[test]
fn exact_request_layout() {
    let add = encode_request(&OBRequestWrapper::new(OBRequest::Add(AddRequest::new(
        0x0102_0304_0506_0708,
        -2,
        0x0a0b,
    ))));
    assert_eq!(
        add,
        vec![b'A', 8, 7, 6, 5, 4, 3, 2, 1, 0xfe, 0x0b, 0x0a, 0, 0, 0, 0, 0, 0, 0]
    );
    let reduce = encode_request(&OBRequestWrapper::new(OBRequest::Reduce(ReduceRequest::new(
        258, 3, 1,
    ))));
    assert_eq!(
        reduce,
        vec![b'R', 2, 1, 0, 0, 0, 0, 0, 0, 3, 0, 0, 0, 0, 0, 0, 0, 1, 0]
    );
    let cancel = encode_request(&OBRequestWrapper::new(OBRequest::Cancel(CancelRequest::new(1, 2))));
    assert_eq!(&cancel[..11], &[b'C', 1, 0, 0, 0, 0, 0, 0, 0, 2, 0]);
    let flush = encode_request(&OBRequestWrapper::new(OBRequest::Flush(FlushRequest::new(513))));
    assert_eq!(&flush[..3], &[b'F', 1, 2]);
}

#[test]
fn exact_response_layout() {
    let p = encode_response(&OBResponseWrapper::new(OBResponse::Price(PriceLevelResponse::new(
        -128, -2,
    ))));
    assert_eq!(&p[..10], &[b'$', 0x80, 0xfe, 0xff, 0xff, 0xff, 0xff, 0xff, 0xff, 0xff]);
    assert!(p[10..].iter().all(|b| *b == 0));
    let x = encode_response(&OBResponseWrapper::new(OBResponse::Execute(ExecuteResponse::new(
        3, 260,
    ))));
    assert_eq!(&x[..17], &[b'X', 3, 0, 0, 0, 0, 0, 0, 0, 4, 1, 0, 0, 0, 0, 0, 0]);
    let end = encode_response(&OBResponseWrapper::new(OBResponse::End(DelimResponse::new())));
    assert_eq!(end[0], b'#');
    assert!(end[1..].iter().all(|b| *b == 0));
    let mut prices = [0u64; 256];
    prices[1] = 0x0201;
    let v = encode_response(&OBResponseWrapper::new(OBResponse::LevelView(PriceViewResponse { prices })));
    assert_eq!(v[0], b'V');
    assert_eq!(&v[9..12], &[1, 2, 0]);
}

#[test]
fn tags() {
    let req = [
        (OBReqType::ADD, b'A'),
        (OBReqType::CANCEL, b'C'),
        (OBReqType::REDUCE, b'R'),
        (OBReqType::FLUSH, b'F'),
        (OBReqType::START, b'S'),
        (OBReqType::LEVELVIEW, b'V'),
    ];
    for (kind, byte) in req {
        assert_eq!(kind.to_u8(), byte);
        assert_eq!(OBReqType::from_u8(byte), Some(kind));
    }
    let resp = [
        (OBRespType::ADD, b'A'),
        (OBRespType::EXECUTE, b'X'),
        (OBRespType::PRICE, b'$'),
        (OBRespType::LEVELVIEW, b'V'),
        (OBRespType::DELIM, b'#'),
    ];
    for (kind, byte) in resp {
        assert_eq!(kind.to_u8(), byte);
        assert_eq!(OBRespType::from_u8(byte), Some(kind));
    }
    assert_eq!(OBReqType::from_u8(b'-'), None);
    assert_eq!(OBReqType::from_u8(b'X'), None);
    assert_eq!(OBRespType::from_u8(b'C'), None);
    assert_eq!(OBRespType::from_u8(0), None);
}

#[test]
fn malformed_frames_are_refused() {
    let mut frame = encode_request(&OBRequestWrapper::new(OBRequest::Start(StartRequest::new(1))));
    frame[0] = b'?';
    assert_eq!(decode_request(&frame), Err(FrameError::UnknownTag(b'?')));
    assert_eq!(decode_request(&frame[..18]), Err(FrameError::Length));
    assert_eq!(decode_request(&[]), Err(FrameError::Length));
    frame.push(0);
    assert_eq!(decode_request(&frame), Err(FrameError::Length));

    let mut frame = encode_response(&OBResponseWrapper::new(OBResponse::Add(AddResponse::new(1))));
    frame[0] = b'C';
    assert_eq!(decode_response(&frame), Err(FrameError::UnknownTag(b'C')));
    assert_eq!(decode_response(&frame[..2048]), Err(FrameError::Length));
}

#[test]
fn padding_is_not_read() {
    let wrapper = OBRequestWrapper::new(OBRequest::Flush(FlushRequest::new(7)));
    let mut frame = encode_request(&wrapper);
    for b in frame[3..].iter_mut() {
        *b = 0xaa;
    }
    assert_eq!(decode_request(&frame), Ok(wrapper));
}

#[test]
fn sequence_round_trip() {
    let events = vec![
        OBResponseWrapper::new(OBResponse::Execute(ExecuteResponse::new(0, 4))),
        OBResponseWrapper::new(OBResponse::Price(PriceLevelResponse::new(50, -4))),
        OBResponseWrapper::new(OBResponse::Add(AddResponse::new(9))),
        OBResponseWrapper::new(OBResponse::Price(PriceLevelResponse::new(-50, 3))),
    ];
    let bytes = encode_response_vec(&events);
    assert_eq!(bytes.len(), 5 * RESPONSE_FRAME_LEN);
    assert_eq!(bytes[4 * RESPONSE_FRAME_LEN], b'#');
    assert_eq!(decode_response_vec(&bytes), Ok(events.clone()));
    // what follows the end marker is not read
    let mut longer = bytes.clone();
    longer.extend_from_slice(&[1, 2, 3]);
    assert_eq!(decode_response_vec(&longer), Ok(events));

    let empty = encode_response_vec(&vec![]);
    assert_eq!(empty.len(), RESPONSE_FRAME_LEN);
    assert_eq!(decode_response_vec(&empty), Ok(vec![]));
}

#[test]
fn broken_sequences_are_refused() {
    let events = vec![OBResponseWrapper::new(OBResponse::Add(AddResponse::new(9)))];
    let bytes = encode_response_vec(&events);
    // the end marker is missing
    assert_eq!(decode_response_vec(&bytes[..RESPONSE_FRAME_LEN]), Err(FrameError::Length));
    assert_eq!(decode_response_vec(&bytes[..bytes.len() - 1]), Err(FrameError::Length));
    assert_eq!(decode_response_vec(&[]), Err(FrameError::Length));
    let mut bad = bytes.clone();
    bad[RESPONSE_FRAME_LEN] = b'!';
    assert_eq!(decode_response_vec(&bad), Err(FrameError::UnknownTag(b'!')));
}

#[test]
fn frames_are_taken_one_by_one() {
    let mut events = Vec::new();
    let first = OBResponseWrapper::new(OBResponse::Add(AddResponse::new(1)));
    assert!(!accept_response(&mut events, first));
    assert!(accept_response(
        &mut events,
        OBResponseWrapper::new(OBResponse::End(DelimResponse::new()))
    ));
    assert_eq!(events, vec![first]);
}

#[test]
fn replies_go_out_with_or_without_the_end_marker() {
    let single = OBResponseWrapper::new(OBResponse::Price(PriceLevelResponse::new(1, -1)));
    assert_eq!(encode_reply(&Reply::Single(single)), encode_response(&single));
    let events = vec![single];
    assert_eq!(encode_reply(&Reply::Events(events.clone())), encode_response_vec(&events));
}

#[test]
fn integer_fields() {
    let mut out = Vec::new();
    put_u16(&mut out, 0xbeef);
    put_u64(&mut out, 0x1122_3344_5566_7788);
    put_i8(&mut out, -1);
    put_i64(&mut out, i64::MIN);
    put_zeros(&mut out, 2);
    assert_eq!(
        out,
        vec![
            0xef, 0xbe, 0x88, 0x77, 0x66, 0x55, 0x44, 0x33, 0x22, 0x11, 0xff, 0, 0, 0, 0, 0, 0, 0,
            0x80, 0, 0
        ]
    );
    assert_eq!(get_u16(&out, 0), 0xbeef);
    assert_eq!(get_u64(&out, 2), 0x1122_3344_5566_7788);
    assert_eq!(get_i8(&out, 10), -1);
    assert_eq!(get_i64(&out, 11), i64::MIN);
    assert_eq!(get_i8(&out, 18), i8::MIN);
    assert_eq!(get_i8(&out, 17), 0);
}
