use fast_book::book::book::{BookError, OrderChain, Orderbook};
use fast_book::book::bump::BumpAllocator;
use fast_book::book::model::{AlwaysCross, CrossingPolicy, MagnitudeCross, NeverCross, SummationCross};
use fast_book::comm::urcp::{
    AddResponse, ExecuteResponse, OBRespType, OBResponse, OBResponseWrapper, PriceLevelResponse,
};

fn execute(oid: usize, qty: u64) -> OBResponseWrapper {
    OBResponseWrapper::new(OBResponse::Execute(ExecuteResponse::new(oid, qty)))
}

fn price(price: i8, delta: i64) -> OBResponseWrapper {
    OBResponseWrapper::new(OBResponse::Price(PriceLevelResponse::new(price, delta)))
}

fn added(oid: usize) -> OBResponseWrapper {
    OBResponseWrapper::new(OBResponse::Add(AddResponse::new(oid)))
}

fn filled(events: &[OBResponseWrapper]) -> u64 {
    events
        .iter()
        .map(|e| match e.resp {
            OBResponse::Execute(x) => x.qty,
            _ => 0,
        })
        .sum()
}

fn resting(book: &Orderbook, arena: &BumpAllocator<OrderChain>) -> u64 {
    book.get_level_view(arena).iter().sum()
}

#[test]
fn two_fills_and_no_remainder() {
    let mut arena = BumpAllocator::<OrderChain>::with_capacity(16);
    let mut book = Orderbook::with_capacities(0, 8);
    let o0 = book.add(&mut arena, 4, 50).unwrap();
    let o1 = book.add(&mut arena, 6, 50).unwrap();
    let events = book.match_order(&mut arena, 7, -50, &MagnitudeCross).unwrap();
    assert_eq!(events, vec![execute(o0, 4), price(50, -4), execute(o1, 3), price(50, -3)]);
    assert_eq!(events[0].typ, OBRespType::EXECUTE);
    assert_eq!(events[1].typ, OBRespType::PRICE);
    // nothing came to rest on the incoming side
    assert_eq!(book.prices(true), Vec::<i8>::new());
    assert_eq!(arena.len(), 2);
    // the level lives on with what is left, and leaves when that is taken
    assert_eq!(book.level(&arena, 50).unwrap().qty(), 3);
    assert_eq!(book.level(&arena, 50).unwrap().head(), Some(o1));
    let last = book.match_order(&mut arena, 3, -50, &MagnitudeCross).unwrap();
    assert_eq!(last, vec![execute(o1, 3), price(50, -3)]);
    assert!(book.level(&arena, 50).is_none());
    assert_eq!(book.prices(false), Vec::<i8>::new());
    assert_eq!(book.level_len(), 0);
}

#[test]
fn remainder_rests_after_the_fills() {
    let mut arena = BumpAllocator::<OrderChain>::with_capacity(16);
    let mut book = Orderbook::with_capacities(0, 8);
    book.add(&mut arena, 2, 10).unwrap();
    book.add(&mut arena, 3, 20).unwrap();
    let events = book.match_order(&mut arena, 9, -30, &MagnitudeCross).unwrap();
    // best level first: 20 before 10
    assert_eq!(
        events,
        vec![execute(1, 3), price(20, -3), execute(0, 2), price(10, -2), added(2), price(-30, 4)]
    );
    assert_eq!(book.prices(false), Vec::<i8>::new());
    assert_eq!(book.prices(true), vec![-30]);
    assert_eq!(book.level(&arena, -30).unwrap().qty(), 4);
}

#[test]
fn sweep_stops_where_prices_do_not_cross() {
    let mut arena = BumpAllocator::<OrderChain>::with_capacity(16);
    let mut book = Orderbook::with_capacities(0, 8);
    book.add(&mut arena, 2, 10).unwrap();
    book.add(&mut arena, 3, 40).unwrap();
    // the best level, 40, is beyond the incoming magnitude: nothing trades
    let events = book.match_order(&mut arena, 5, -30, &MagnitudeCross).unwrap();
    assert_eq!(events, vec![added(2), price(-30, 5)]);
    assert_eq!(book.prices(false), vec![10, 40]);
}

#[test]
fn zero_quantity_match() {
    let mut arena = BumpAllocator::<OrderChain>::with_capacity(16);
    let mut book = Orderbook::with_capacities(0, 8);
    assert_eq!(book.match_order(&mut arena, 0, 5, &AlwaysCross), Ok(vec![]));
    book.add(&mut arena, 2, -10).unwrap();
    let events = book.match_order(&mut arena, 0, 5, &AlwaysCross).unwrap();
    assert_eq!(events, vec![execute(0, 0), price(-10, 0)]);
    assert_eq!(book.level(&arena, -10).unwrap().qty(), 2);
}

#[test]
fn match_is_refused_before_anything_changes() {
    // the order store is full: an order that would leave a remainder is refused
    let mut arena = BumpAllocator::<OrderChain>::with_capacity(1);
    let mut book = Orderbook::with_capacities(0, 8);
    book.add(&mut arena, 2, 10).unwrap();
    assert_eq!(
        book.match_order(&mut arena, 5, -10, &AlwaysCross),
        Err(BookError::OrderStoreFull)
    );
    assert_eq!(
        book.match_order(&mut arena, 1, -10, &NeverCross),
        Err(BookError::OrderStoreFull)
    );
    assert_eq!(
        book.match_order(&mut arena, u64::MAX, -10, &AlwaysCross),
        Err(BookError::QuantityTooLarge)
    );
    assert_eq!(book.level(&arena, 10).unwrap().qty(), 2);
    assert_eq!(arena.get(0).qty(), 2);
    // one that is filled in full needs no slot
    assert_eq!(
        book.match_order(&mut arena, 1, -10, &AlwaysCross),
        Ok(vec![execute(0, 1), price(10, -1)])
    );

    // the level store is full: a remainder that needs a new level is refused
    let mut arena = BumpAllocator::<OrderChain>::with_capacity(4);
    let mut book = Orderbook::with_capacities(0, 1);
    book.add(&mut arena, 2, 10).unwrap();
    assert_eq!(
        book.match_order(&mut arena, 1, -10, &NeverCross),
        Err(BookError::LevelStoreFull)
    );
    assert_eq!(book.level(&arena, 10).unwrap().qty(), 2);
    // but not where the sweep uses up a level and so makes room for it
    assert_eq!(
        book.match_order(&mut arena, 3, -10, &AlwaysCross),
        Ok(vec![execute(0, 2), price(10, -2), added(1), price(-10, 1)])
    );
    assert_eq!(book.prices(true), vec![-10]);
    assert_eq!(book.prices(false), Vec::<i8>::new());
}

#[test]
fn remainder_must_fit_a_price_event() {
    let mut arena = BumpAllocator::<OrderChain>::with_capacity(4);
    let mut book = Orderbook::with_capacities(0, 4);
    book.add(&mut arena, 2, 10).unwrap();
    let big = i64::MAX as u64 + 2;
    assert_eq!(
        book.match_order(&mut arena, big + 1, -10, &AlwaysCross),
        Err(BookError::QuantityTooLarge)
    );
    assert_eq!(
        book.match_order(&mut arena, big, -10, &AlwaysCross),
        Ok(vec![execute(0, 2), price(10, -2), added(1), price(-10, i64::MAX)])
    );
    // the level at the incoming price would pass its counter
    assert_eq!(
        book.match_order(&mut arena, i64::MAX as u64, -10, &AlwaysCross),
        Ok(vec![added(2), price(-10, i64::MAX)])
    );
    assert_eq!(
        book.match_order(&mut arena, 2, -10, &AlwaysCross),
        Err(BookError::LevelOverflow)
    );
    assert_eq!(book.level(&arena, -10).unwrap().qty(), u64::MAX - 1);
}

#[test]
fn sweep_through_several_levels_and_orders() {
    let mut arena = BumpAllocator::<OrderChain>::with_capacity(16);
    let mut book = Orderbook::with_capacities(0, 3);
    for (qty, at) in [(1u64, -3i8), (2, -3), (4, -2), (8, -1), (16, -1)] {
        book.add(&mut arena, qty, at).unwrap();
    }
    // best first: -1 (orders 3, 4), then -2 (order 2), then -3 (orders 0, 1)
    let events = book.match_order(&mut arena, 30, 9, &AlwaysCross).unwrap();
    assert_eq!(
        events,
        vec![
            execute(3, 8), price(-1, -8), execute(4, 16), price(-1, -16), execute(2, 4), price(-2, -4),
            execute(0, 1), price(-3, -1), execute(1, 1), price(-3, -1),
        ]
    );
    assert_eq!(book.prices(true), vec![-3]);
    assert_eq!(book.level(&arena, -3).unwrap().qty(), 1);
    assert_eq!(book.level(&arena, -3).unwrap().head(), Some(1));
    // a sweep that empties the side and rests on the other
    let events = book.match_order(&mut arena, 5, 9, &AlwaysCross).unwrap();
    assert_eq!(events, vec![execute(1, 1), price(-3, -1), added(5), price(9, 4)]);
    assert_eq!(book.level_len(), 1);
}

fn conservation_under<P: CrossingPolicy>(policy: &P) {
    let mut arena = BumpAllocator::<OrderChain>::with_capacity(64);
    let mut book = Orderbook::with_capacities(0, 32);
    let mut expected_resting: u64 = 0;
    let incoming: [(u64, i8); 12] = [
        (5, 40), (7, 60), (3, -45), (20, -70), (4, 10), (9, -5),
        (15, 99), (1, -99), (30, 1), (2, -1), (50, -100), (6, 100),
    ];
    for (qty, at) in incoming {
        let before = resting(&book, &arena);
        assert_eq!(before, expected_resting);
        let events = book.match_order(&mut arena, qty, at, policy).unwrap();
        let fills = filled(&events);
        let rested: u64 = match events.last() {
            Some(OBResponseWrapper { resp: OBResponse::Price(p), .. })
                if events.len() >= 2 && matches!(events[events.len() - 2].resp, OBResponse::Add(_)) =>
            {
                assert!(p.delta > 0);
                assert_eq!(p.price, at);
                p.delta as u64
            }
            _ => 0,
        };
        // what was filled and what came to rest is what came in
        assert_eq!(fills + rested, qty);
        // every fill took the same quantity off the book
        expected_resting = before - fills + rested;
        assert_eq!(resting(&book, &arena), expected_resting);
        // fills come before the remainder, each with its price event
        for pair in events.chunks(2) {
            match (pair[0].resp, pair[1].resp) {
                (OBResponse::Execute(x), OBResponse::Price(p)) => assert_eq!(p.delta, -(x.qty as i64)),
                (OBResponse::Add(_), OBResponse::Price(p)) => assert_eq!(p.delta as u64, rested),
                _ => panic!("events do not come in pairs"),
            }
        }
    }
}

#[test]
fn conservation_for_magnitude_policy() {
    conservation_under(&MagnitudeCross);
}

#[test]
fn conservation_for_summation_policy() {
    conservation_under(&SummationCross { par: 100 });
}

#[test]
fn conservation_for_always_and_never() {
    conservation_under(&AlwaysCross);
    conservation_under(&NeverCross);
}

#[test]
fn policies_decide_as_stated() {
    assert!(MagnitudeCross.crosses(50, -50));
    assert!(MagnitudeCross.crosses(-128, -128));
    assert!(MagnitudeCross.crosses(0, 0));
    assert!(!MagnitudeCross.crosses(51, -50));
    assert!(MagnitudeCross.crosses(-49, 50));
    assert!(!MagnitudeCross.crosses(-128, 127));
    let sum = SummationCross { par: 100 };
    assert!(sum.crosses(40, -60));
    assert!(!sum.crosses(40, -59));
    assert!(sum.crosses(-128, -128));
    assert!(!(SummationCross { par: 257 }).crosses(-128, -128));
    assert!((SummationCross { par: 256 }).crosses(-128, -128));
    assert!(AlwaysCross.crosses(1, 2));
    assert!(!NeverCross.crosses(1, 2));
}
