use fast_book::comm::board::{BoardError, PriceBoard};
use fast_book::comm::domain::{ApiExecuteInner, Contract, CreateOrder, UserOrder};
use fast_book::comm::ledger::{
    affordable, contract_holders, execute_packet, internal_price, ledger_actions, required_balance,
    result_bits, settlement_credits, LedgerAction, LedgerError, OrderError,
};
use fast_book::comm::urcp::{
    AddResponse, DelimResponse, ExecuteResponse, OBResponse, OBResponseWrapper, PriceLevelResponse,
};
use std::collections::BTreeMap;

fn price(at: i8, delta: i64) -> OBResponseWrapper {
    OBResponseWrapper::new(OBResponse::Price(PriceLevelResponse::new(at, delta)))
}

fn order(price: i32, qty: i32, user_fk: i32) -> UserOrder {
    UserOrder { id: 0, book_id: 0, price, qty, user_fk }
}

#[test]
fn board_follows_price_events() {
    let mut board = PriceBoard::new(2);
    assert_eq!(board.handle_price_level(PriceLevelResponse::new(5, 10), 0), Ok(()));
    assert_eq!(board.handle_price_level(PriceLevelResponse::new(5, -4), 0), Ok(()));
    assert_eq!(board.handle_price_level(PriceLevelResponse::new(-7, 3), 1), Ok(()));
    assert_eq!(board.handle_price_level(PriceLevelResponse::new(-7, -3), 1), Ok(()));
    let levels = board.get_price_levels();
    assert_eq!(levels.len(), 2);
    assert_eq!(levels[0], BTreeMap::from([(5i8, 6u64)]));
    // a price that went back to nothing keeps its entry
    assert_eq!(levels[1], BTreeMap::from([(-7i8, 0u64)]));
}

#[test]
fn board_refuses_what_does_not_fit() {
    let mut board = PriceBoard::new(1);
    assert_eq!(
        board.handle_price_level(PriceLevelResponse::new(5, 1), 1),
        Err(BoardError::UnknownBook)
    );
    assert_eq!(
        board.handle_price_level(PriceLevelResponse::new(5, -1), 0),
        Err(BoardError::Underflow)
    );
    assert_eq!(
        board.handle_price_level(PriceLevelResponse::new(5, i64::MIN), 0),
        Err(BoardError::Underflow)
    );
    assert_eq!(board.handle_price_level(PriceLevelResponse::new(5, i64::MAX), 0), Ok(()));
    assert_eq!(board.handle_price_level(PriceLevelResponse::new(5, i64::MAX), 0), Ok(()));
    assert_eq!(board.handle_price_level(PriceLevelResponse::new(5, 1), 0), Ok(()));
    assert_eq!(
        board.handle_price_level(PriceLevelResponse::new(5, 1), 0),
        Err(BoardError::Overflow)
    );
    assert_eq!(board.get_price_levels()[0], BTreeMap::from([(5i8, u64::MAX)]));
    assert_eq!(board.handle_price_level(PriceLevelResponse::new(5, i64::MIN), 0), Ok(()));
    assert_eq!(board.get_price_levels()[0], BTreeMap::from([(5i8, (1u64 << 63) - 1)]));
    board.clear();
    assert_eq!(board.get_price_levels(), vec![BTreeMap::new()]);
}

#[test]
fn board_takes_the_price_events_out_of_an_answer() {
    let mut board = PriceBoard::new(2);
    let execute = OBResponseWrapper::new(OBResponse::Execute(ExecuteResponse::new(3, 4)));
    let add = OBResponseWrapper::new(OBResponse::Add(AddResponse::new(9)));
    board.handle_price_level(PriceLevelResponse::new(50, 10), 1).unwrap();
    let kept = board.absorb(vec![execute, price(50, -4), add, price(-60, 2)], 1);
    assert_eq!(kept, Ok(vec![execute, add]));
    assert_eq!(board.get_price_levels()[1], BTreeMap::from([(50i8, 6u64), (-60i8, 2u64)]));
    assert_eq!(board.get_price_levels()[0], BTreeMap::new());

    // an answer that does not fit leaves the board as it was
    let bad = board.absorb(vec![price(50, -1), add, price(50, -6)], 1);
    assert_eq!(bad, Err(BoardError::Underflow));
    assert_eq!(board.get_price_levels()[1], BTreeMap::from([(50i8, 6u64), (-60i8, 2u64)]));
    assert_eq!(board.absorb(vec![add], 2), Err(BoardError::UnknownBook));
    assert_eq!(board.absorb(vec![], 0), Ok(vec![]));
}

#[test]
fn client_prices_become_engine_prices() {
    let yes = CreateOrder { qty: 3, price: 40, market: 0, yes: true };
    let no = CreateOrder { qty: 3, price: 40, market: 1, yes: false };
    assert_eq!(internal_price(&yes), Ok(-40));
    assert_eq!(internal_price(&no), Ok(60));
    assert_eq!(internal_price(&CreateOrder { price: 99, ..yes }), Ok(-99));
    assert_eq!(internal_price(&CreateOrder { price: 1, ..no }), Ok(99));
    assert_eq!(internal_price(&CreateOrder { market: 2, ..yes }), Err(OrderError::UnknownMarket));
    assert_eq!(internal_price(&CreateOrder { price: 0, ..yes }), Err(OrderError::PriceOutOfRange));
    assert_eq!(internal_price(&CreateOrder { price: 100, ..no }), Err(OrderError::PriceOutOfRange));
    assert_eq!(internal_price(&CreateOrder { price: -5, ..no }), Err(OrderError::PriceOutOfRange));
    assert_eq!(internal_price(&CreateOrder { qty: 0, ..no }), Err(OrderError::NoQuantity));
}

#[test]
fn cost_of_an_order() {
    assert_eq!(required_balance(-40, 3), Some(120));
    assert_eq!(required_balance(60, 3), Some(180));
    assert_eq!(required_balance(0, u64::MAX), Some(0));
    assert_eq!(required_balance(-128, 16_777_215), Some(2_147_483_520));
    assert_eq!(required_balance(-128, 16_777_216), None);
    assert_eq!(required_balance(1, i32::MAX as u64), Some(i32::MAX));
    assert_eq!(required_balance(1, i32::MAX as u64 + 1), None);
    assert_eq!(required_balance(127, u64::MAX), None);
    assert_eq!(affordable(120, -40, 3), Some(120));
    assert_eq!(affordable(119, -40, 3), None);
    assert_eq!(affordable(i32::MAX, 2, i32::MAX as u64), None);
    assert_eq!(affordable(-1, 0, 5), None);
}

#[test]
fn contract_sides_and_result_bits() {
    assert_eq!(contract_holders(-40, 7, 9), (7, 9));
    assert_eq!(contract_holders(60, 7, 9), (9, 7));
    assert_eq!(contract_holders(0, 7, 9), (9, 7));
    assert_eq!(result_bits(0), (false, false));
    assert_eq!(result_bits(1), (false, true));
    assert_eq!(result_bits(2), (true, false));
    assert_eq!(result_bits(3), (true, true));
    assert_eq!(result_bits(4), (false, false));
    assert_eq!(result_bits(7), (true, true));
}

#[test]
fn events_become_ledger_actions() {
    let events = vec![
        OBResponseWrapper::new(OBResponse::Execute(ExecuteResponse::new(3, 4))),
        price(50, -4),
        OBResponseWrapper::new(OBResponse::Add(AddResponse::new(9))),
        OBResponseWrapper::new(OBResponse::End(DelimResponse::new())),
    ];
    assert_eq!(
        ledger_actions(&events),
        vec![
            LedgerAction::Contract { oid: 3, qty: 4 },
            LedgerAction::Nothing,
            LedgerAction::Resting { oid: 9 },
            LedgerAction::Nothing,
        ]
    );
    assert_eq!(
        execute_packet(&ExecuteResponse::new(3, 4)),
        ApiExecuteInner { oid: 3, qty: 4 }
    );
}

#[test]
fn settlement_pays_orders_back_and_contracts_out() {
    let orders = vec![order(-40, 3, 1), order(60, 2, 2), order(-10, 1, 1), order(100, 5, 3)];
    let contracts = vec![
        Contract { book_id: 0, yes_holder: 2, no_holder: 4, qty: 3 },
        Contract { book_id: 1, yes_holder: 5, no_holder: 5, qty: 9 },
        Contract { book_id: 0, yes_holder: 1, no_holder: 2, qty: 1 },
    ];
    // user 1: 40*3 + 10*1; user 2: 40*2; user 3: 0*5
    assert_eq!(
        settlement_credits(&orders, &contracts, true),
        Ok(vec![(1, 130 + 100), (2, 80 + 300), (3, 0)])
    );
    assert_eq!(
        settlement_credits(&orders, &contracts, false),
        Ok(vec![(1, 130), (2, 80 + 100), (3, 0), (4, 300)])
    );
    assert_eq!(settlement_credits(&vec![], &vec![], true), Ok(vec![]));
}

#[test]
fn settlement_that_does_not_fit_is_refused() {
    let orders = vec![order(-100, i32::MAX, 1)];
    assert_eq!(settlement_credits(&orders, &vec![], true), Err(LedgerError::Overflow));
    // credits that cancel out fit, whatever they pass on the way
    let orders = vec![order(-1, i32::MAX, 1), order(-1, i32::MAX, 1), order(1, i32::MIN, 1), order(-1, i32::MIN + 1, 1)];
    // 2147483647 + 2147483647 + 99 * -2147483648 - 2147483647 is below any balance
    assert_eq!(settlement_credits(&orders, &vec![], true), Err(LedgerError::Overflow));
    let orders = vec![order(-1, i32::MAX, 1), order(-1, i32::MAX, 1), order(-1, -i32::MAX, 1)];
    assert_eq!(settlement_credits(&orders, &vec![], true), Ok(vec![(1, i32::MAX)]));
    let orders = vec![order(i32::MIN, i32::MIN, 1), order(i32::MIN, i32::MAX, 1), order(i32::MIN, 1, 1)];
    assert_eq!(settlement_credits(&orders, &vec![], true), Ok(vec![(1, 0)]));
    let contracts = vec![Contract { book_id: 0, yes_holder: 1, no_holder: 2, qty: 21_474_837 }];
    assert_eq!(settlement_credits(&vec![], &contracts, true), Err(LedgerError::Overflow));
    let contracts = vec![Contract { book_id: 0, yes_holder: 1, no_holder: 2, qty: 21_474_836 }];
    assert_eq!(settlement_credits(&vec![], &contracts, false), Ok(vec![(2, 2_147_483_600)]));
}
