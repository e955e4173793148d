use fast_book::book::book::BookError;
use fast_book::book::model::MagnitudeCross;
use fast_book::comm::frame::{decode_response_vec, encode_reply, RESPONSE_FRAME_LEN};
use fast_book::comm::manager::{EngineError, Manager, Reply};
use fast_book::comm::urcp::{
    AddRequest, AddResponse, CancelRequest, DelimResponse, ExecuteResponse, FlushRequest,
    LevelViewRequest, OBRequest, OBRequestWrapper, OBResponse, OBResponseWrapper,
    PriceLevelResponse, ReduceRequest, StartRequest,
};

fn request(req: OBRequest) -> OBRequestWrapper {
    OBRequestWrapper::new(req)
}

#[test]
fn books_share_one_pool_of_order_slots() {
    let mut manager = Manager::new(3, 4, 2);
    assert_eq!(manager.len(), 2);
    assert_eq!(manager.add(0, 5, 10), Ok(0));
    assert_eq!(manager.add(1, 5, 10), Ok(1));
    assert_eq!(manager.add(0, 5, 11), Ok(2));
    assert_eq!(manager.add(1, 5, 11), Err(EngineError::Book(BookError::OrderStoreFull)));
    assert_eq!(manager.orders().len(), 3);
    // an index is not an order of every book
    assert_eq!(manager.delete(0, 1), Err(EngineError::Book(BookError::UnknownOrder)));
    assert_eq!(manager.delete(1, 1), Ok(PriceLevelResponse::new(10, -5)));
    assert_eq!(manager.book(0).unwrap().prices(false), vec![10, 11]);
    assert_eq!(manager.book(1).unwrap().prices(false), Vec::<i8>::new());
    assert!(manager.book(2).is_none());
}

#[test]
fn unknown_book_is_reported() {
    let mut manager = Manager::new(8, 4, 2);
    assert_eq!(manager.add(2, 1, 1), Err(EngineError::UnknownBook));
    assert_eq!(manager.reduce(7, 0, 1), Err(EngineError::UnknownBook));
    assert_eq!(manager.delete(u16::MAX, 0), Err(EngineError::UnknownBook));
    assert_eq!(manager.match_order(2, 1, 1, &MagnitudeCross), Err(EngineError::UnknownBook));
    assert_eq!(manager.get_level_view(2), Err(EngineError::UnknownBook));
    let empty = Manager::new(8, 4, 0);
    assert_eq!(empty.len(), 0);
    assert_eq!(empty.get_level_view(0), Err(EngineError::UnknownBook));
}

#[test]
fn clear_resets_every_book() {
    let mut manager = Manager::new(8, 4, 3);
    manager.add(0, 5, 10).unwrap();
    manager.add(2, 6, -10).unwrap();
    manager.clear();
    assert_eq!(manager.orders().len(), 0);
    for id in 0..3 {
        assert_eq!(manager.book(id).unwrap().level_len(), 0);
        assert_eq!(manager.get_level_view(id), Ok([0u64; 256]));
    }
    assert_eq!(manager.delete(0, 0), Err(EngineError::Book(BookError::UnknownOrder)));
    assert_eq!(manager.add(1, 1, 1), Ok(0));
}

#[test]
fn engine_answers_each_kind_of_request() {
    let mut manager = Manager::new(16, 8, 2);
    let policy = MagnitudeCross;

    let rest = manager
        .dispatch(&request(OBRequest::Add(AddRequest::new(10, 50, 1))), &policy)
        .unwrap();
    assert_eq!(
        rest,
        Reply::Events(vec![
            OBResponseWrapper::new(OBResponse::Add(AddResponse::new(0))),
            OBResponseWrapper::new(OBResponse::Price(PriceLevelResponse::new(50, 10))),
        ])
    );

    let cross = manager
        .dispatch(&request(OBRequest::Add(AddRequest::new(4, -60, 1))), &policy)
        .unwrap();
    assert_eq!(
        cross,
        Reply::Events(vec![
            OBResponseWrapper::new(OBResponse::Execute(ExecuteResponse::new(0, 4))),
            OBResponseWrapper::new(OBResponse::Price(PriceLevelResponse::new(50, -4))),
        ])
    );

    let reduce = manager
        .dispatch(&request(OBRequest::Reduce(ReduceRequest::new(0, 1, 1))), &policy)
        .unwrap();
    assert_eq!(
        reduce,
        Reply::Single(OBResponseWrapper::new(OBResponse::Price(PriceLevelResponse::new(50, -1))))
    );

    let view = manager
        .dispatch(&request(OBRequest::LevelView(LevelViewRequest::new(1))), &policy)
        .unwrap();
    match view {
        Reply::Single(OBResponseWrapper { resp: OBResponse::LevelView(v), .. }) => {
            let mut expected = [0u64; 256];
            expected[128 + 50] = 5;
            assert_eq!(v.prices, expected);
        }
        other => panic!("unexpected reply {:?}", other),
    }

    let cancel = manager
        .dispatch(&request(OBRequest::Cancel(CancelRequest::new(0, 1))), &policy)
        .unwrap();
    assert_eq!(
        cancel,
        Reply::Single(OBResponseWrapper::new(OBResponse::Price(PriceLevelResponse::new(50, -5))))
    );

    let end = Reply::Single(OBResponseWrapper::new(OBResponse::End(DelimResponse::new())));
    assert_eq!(
        manager.dispatch(&request(OBRequest::Start(StartRequest::new(0))), &policy),
        Ok(end.clone())
    );
    manager.add(0, 1, 1).unwrap();
    assert_eq!(
        manager.dispatch(&request(OBRequest::Flush(FlushRequest::new(1))), &policy),
        Ok(end)
    );
    assert_eq!(manager.orders().len(), 0);
    assert_eq!(manager.book(0).unwrap().level_len(), 0);
}

#[test]
fn engine_reports_errors() {
    let mut manager = Manager::new(16, 8, 1);
    let policy = MagnitudeCross;
    for req in [
        OBRequest::Add(AddRequest::new(1, 1, 1)),
        OBRequest::Cancel(CancelRequest::new(0, 1)),
        OBRequest::Reduce(ReduceRequest::new(0, 1, 1)),
        OBRequest::Flush(FlushRequest::new(1)),
        OBRequest::Start(StartRequest::new(1)),
        OBRequest::LevelView(LevelViewRequest::new(1)),
    ] {
        assert_eq!(manager.dispatch(&request(req), &policy), Err(EngineError::UnknownBook));
    }
    assert_eq!(
        manager.dispatch(&request(OBRequest::Cancel(CancelRequest::new(0, 0))), &policy),
        Err(EngineError::Book(BookError::UnknownOrder))
    );
    manager.add(0, 2, 3).unwrap();
    assert_eq!(
        manager.dispatch(&request(OBRequest::Reduce(ReduceRequest::new(0, 3, 0))), &policy),
        Err(EngineError::Book(BookError::OverReduction))
    );
}

#[test]
fn a_crossing_add_goes_out_as_frames_with_the_end_marker() {
    let mut manager = Manager::new(16, 8, 1);
    let policy = MagnitudeCross;
    manager.add(0, 4, 50).unwrap();
    manager.add(0, 6, 50).unwrap();
    let reply = manager
        .dispatch(&request(OBRequest::Add(AddRequest::new(7, -50, 0))), &policy)
        .unwrap();
    let expected = vec![
        OBResponseWrapper::new(OBResponse::Execute(ExecuteResponse::new(0, 4))),
        OBResponseWrapper::new(OBResponse::Price(PriceLevelResponse::new(50, -4))),
        OBResponseWrapper::new(OBResponse::Execute(ExecuteResponse::new(1, 3))),
        OBResponseWrapper::new(OBResponse::Price(PriceLevelResponse::new(50, -3))),
    ];
    assert_eq!(reply, Reply::Events(expected.clone()));
    let bytes = encode_reply(&reply);
    assert_eq!(bytes.len(), 5 * RESPONSE_FRAME_LEN);
    assert_eq!(bytes[0], b'X');
    assert_eq!(bytes[RESPONSE_FRAME_LEN], b'$');
    assert_eq!(bytes[4 * RESPONSE_FRAME_LEN], b'#');
    assert_eq!(decode_response_vec(&bytes), Ok(expected));
    // the level stays with what is left and leaves once that is taken
    assert_eq!(manager.book(0).unwrap().prices(false), vec![50]);
    manager.delete(0, 1).unwrap();
    assert_eq!(manager.book(0).unwrap().prices(false), Vec::<i8>::new());
    assert_eq!(manager.book(0).unwrap().level_len(), 0);
}
