use fast_book::book::book::{BookError, OrderChain, Orderbook};
use fast_book::book::bump::BumpAllocator;
use fast_book::comm::urcp::PriceLevelResponse;

fn arena() -> BumpAllocator<OrderChain> {
    BumpAllocator::<OrderChain>::with_capacity(100)
}

fn book() -> Orderbook {
    Orderbook::with_capacities(0, 200)
}

/// Walks a level's chain from its head and returns the orders met, with
/// their quantities, checking the back links on the way.
fn walk(book: &Orderbook, arena: &mut BumpAllocator<OrderChain>, price: i8) -> Vec<(usize, u64)> {
    let mut out = Vec::new();
    let level = match book.level(arena, price) {
        Some(level) => level,
        None => return out,
    };
    let mut cur = level.head();
    let mut prev = None;
    while let Some(oid) = cur {
        let order = arena.get(oid);
        assert_eq!(order.prev(), prev);
        out.push((oid, order.qty()));
        prev = cur;
        cur = order.next();
    }
    assert_eq!(level.tail(), prev);
    out
}

fn test_n_remove(n: usize, idx: usize) {
    let mut arena = arena();
    let mut book = book();
    let mut order_vec: Vec<usize> = vec![];
    for i in 0..n {
        book.add(&mut arena, (i + 1) as u64, 50).unwrap();
        order_vec.push(i);
    }

    // delete the targeted order
    book.reduce_order(&mut arena, idx, (idx + 1) as u64).unwrap();
    order_vec.remove(idx);

    // get the best order
    let best_order = book.best_order(&arena, -50);
    match order_vec.len() {
        0 => {
            assert!(best_order.is_none());
            assert!(book.level_len() == 0);
            return;
        }
        _ => assert!(best_order.is_some()),
    }

    // get the best order id
    let (best_oid, _) = best_order.unwrap();

    // the best order id is the one put in first (after removal)
    assert!(best_oid == *order_vec.first().unwrap());

    let mut oid_iter = Some(best_oid);
    let mut oid_prev = None;
    for e in order_vec.iter() {
        let order = arena.get(oid_iter.unwrap());
        assert!(oid_iter == Some(*e));
        assert!(order.qty() == (*e + 1) as u64);
        assert!(
            order.prev() == oid_prev,
            "{:?}.prev is incorrectly {:?} not {:?}",
            oid_iter,
            order.prev(),
            oid_prev
        );

        oid_prev = oid_iter;
        oid_iter = order.next();
    }

    assert!(oid_iter == None, "last order in chain should be nil");

    let best_level = book.level_of(&arena, best_oid).unwrap();

    assert!(best_level.head() == Some(*order_vec.first().unwrap()));
}

#[test]
fn test_chaining() {
    let mut arena = arena();
    let mut book = book();
    for i in 1..101 {
        book.add(&mut arena, i, 99).unwrap();
    }

    let mut oid = Some(0);
    // oid's should be 0 -> 99
    for i in 0..100 {
        let order = arena.get(oid.unwrap());
        assert!(order.qty() == i + 1);
        assert!(oid == Some(i as usize));
        oid = order.next();
    }
    assert!(oid == None);
}

#[test]
fn test_5_remove_start() {
    test_n_remove(5, 0);
}

#[test]
fn test_5_remove_end() {
    test_n_remove(5, 4);
}

#[test]
fn test_5_remove_middle() {
    test_n_remove(5, 2);
}

#[test]
fn test_1_remove() {
    test_n_remove(1, 0);
}

#[test]
fn test_2_remove_first() {
    test_n_remove(2, 0);
}

#[test]
fn test_2_remove_last() {
    test_n_remove(2, 1);
}

#[test]
fn fifo_order_is_kept() {
    let mut arena = arena();
    let mut book = book();
    let o0 = book.add(&mut arena, 3, 40).unwrap();
    let o1 = book.add(&mut arena, 5, 40).unwrap();
    let o2 = book.add(&mut arena, 7, 40).unwrap();
    assert_eq!((o0, o1, o2), (0, 1, 2));
    assert_eq!(walk(&book, &mut arena, 40), vec![(0, 3), (1, 5), (2, 7)]);

    let delta = book.delete(&mut arena, o0).unwrap();
    assert_eq!(delta, PriceLevelResponse::new(40, -3));
    assert_eq!(walk(&book, &mut arena, 40), vec![(1, 5), (2, 7)]);
    let level = book.level(&arena, 40).unwrap();
    assert_eq!(level.head(), Some(o1));
    assert_eq!(level.tail(), Some(o2));
    assert_eq!(level.qty(), 12);
}

#[test]
fn level_lifecycle() {
    let mut arena = arena();
    let mut book = book();
    let oid = book.add(&mut arena, 5, 50).unwrap();
    assert_eq!(book.prices(false), vec![50]);
    assert_eq!(book.prices(true), Vec::<i8>::new());
    assert_eq!(book.level_len(), 1);
    let level = book.level(&arena, 50).unwrap();
    assert_eq!(level.price(), 50);
    assert_eq!(level.qty(), 5);

    let delta = book.delete(&mut arena, oid).unwrap();
    assert_eq!(delta, PriceLevelResponse::new(50, -5));
    assert_eq!(book.prices(false), Vec::<i8>::new());
    assert_eq!(book.level_len(), 0);
    assert!(book.level(&arena, 50).is_none());

    // the freed slot is taken again
    book.add(&mut arena, 1, 60).unwrap();
    assert_eq!(book.level_len(), 1);
}

#[test]
fn index_stays_sorted_on_both_sides() {
    let mut arena = arena();
    let mut book = book();
    for price in [30i8, -5, 10, 127, 0, -128, -60, 20, 10, -5, 64] {
        book.add(&mut arena, 2, price).unwrap();
    }
    assert_eq!(book.prices(true), vec![-128, -60, -5]);
    assert_eq!(book.prices(false), vec![0, 10, 20, 30, 64, 127]);
    // remove the only order at 20 and one of the two at 10
    book.delete(&mut arena, 7).unwrap();
    book.delete(&mut arena, 2).unwrap();
    assert_eq!(book.prices(false), vec![0, 10, 30, 64, 127]);
    book.delete(&mut arena, 5).unwrap();
    assert_eq!(book.prices(true), vec![-60, -5]);
}

#[test]
fn aggregate_is_sum_of_chain() {
    let mut arena = arena();
    let mut book = book();
    let mut ids = Vec::new();
    for (qty, price) in [(4u64, 10i8), (6, 10), (1, -3), (9, 10), (2, -3), (8, 11)] {
        ids.push(book.add(&mut arena, qty, price).unwrap());
    }
    book.reduce(&mut arena, ids[1], 2).unwrap();
    book.delete(&mut arena, ids[0]).unwrap();
    book.reduce(&mut arena, ids[4], 1).unwrap();
    for price in [10i8, -3, 11] {
        let chain = walk(&book, &mut arena, price);
        let sum: u64 = chain.iter().map(|(_, q)| *q).sum();
        assert_eq!(book.level(&arena, price).unwrap().qty(), sum);
    }
    assert_eq!(walk(&book, &mut arena, 10), vec![(1, 4), (3, 9)]);
    assert_eq!(walk(&book, &mut arena, -3), vec![(2, 1), (4, 1)]);
    assert_eq!(book.level(&arena, 10).unwrap().qty(), 13);
}

#[test]
fn reduce_reports_price_and_delta() {
    let mut arena = arena();
    let mut book = book();
    let a = book.add(&mut arena, 10, -20).unwrap();
    assert_eq!(book.reduce(&mut arena, a, 3), Ok(PriceLevelResponse::new(-20, -3)));
    assert_eq!(book.reduce(&mut arena, a, 0), Ok(PriceLevelResponse::new(-20, 0)));
    assert_eq!(arena.get(a).qty(), 7);
    assert_eq!(book.level(&arena, -20).unwrap().qty(), 7);
}

#[test]
fn unlink_middle_and_tail() {
    let mut arena = arena();
    let mut book = book();
    for q in 1..=4u64 {
        book.add(&mut arena, q, 7).unwrap();
    }
    book.delete(&mut arena, 1).unwrap();
    assert_eq!(walk(&book, &mut arena, 7), vec![(0, 1), (2, 3), (3, 4)]);
    book.delete(&mut arena, 3).unwrap();
    assert_eq!(walk(&book, &mut arena, 7), vec![(0, 1), (2, 3)]);
    // a new order joins behind the new tail
    let n = book.add(&mut arena, 9, 7).unwrap();
    assert_eq!(walk(&book, &mut arena, 7), vec![(0, 1), (2, 3), (n, 9)]);
}

#[test]
fn book_errors() {
    let mut arena = BumpAllocator::<OrderChain>::with_capacity(2);
    let mut book = Orderbook::with_capacities(0, 1);
    assert_eq!(book.add(&mut arena, 0, 5), Err(BookError::ZeroQuantity));
    assert_eq!(book.add(&mut arena, 1u64 << 63, 5), Err(BookError::QuantityTooLarge));
    let a = book.add(&mut arena, i64::MAX as u64, 5).unwrap();
    assert_eq!(book.add(&mut arena, 1, 6), Err(BookError::LevelStoreFull));
    assert_eq!(book.reduce(&mut arena, a, (i64::MAX as u64) + 1), Err(BookError::OverReduction));
    assert_eq!(book.reduce(&mut arena, 1, 1), Err(BookError::UnknownOrder));
    assert_eq!(book.reduce(&mut arena, 77, 1), Err(BookError::UnknownOrder));
    let b = book.add(&mut arena, i64::MAX as u64, 5).unwrap();
    assert_eq!(book.add(&mut arena, 1, 5), Err(BookError::OrderStoreFull));
    // nothing changed by the refusals
    assert_eq!(walk(&book, &mut arena, 5), vec![(a, i64::MAX as u64), (b, i64::MAX as u64)]);
    book.delete(&mut arena, a).unwrap();
    assert_eq!(book.delete(&mut arena, a), Err(BookError::UnknownOrder));
    assert_eq!(book.reduce(&mut arena, a, 0), Err(BookError::UnknownOrder));
}

#[test]
fn level_overflow_is_refused() {
    let mut arena = BumpAllocator::<OrderChain>::with_capacity(8);
    let mut book = Orderbook::with_capacities(0, 4);
    book.add(&mut arena, i64::MAX as u64, 1).unwrap();
    book.add(&mut arena, i64::MAX as u64, 1).unwrap();
    assert_eq!(book.level(&arena, 1).unwrap().qty(), u64::MAX - 1);
    assert_eq!(book.add(&mut arena, 2, 1), Err(BookError::LevelOverflow));
    assert_eq!(book.add(&mut arena, 1, 1), Ok(2));
    assert_eq!(book.level(&arena, 1).unwrap().qty(), u64::MAX);
}

#[test]
fn an_order_of_another_book_is_unknown() {
    let mut arena = arena();
    let mut first = Orderbook::with_capacities(0, 4);
    let mut second = Orderbook::with_capacities(1, 4);
    let a = first.add(&mut arena, 3, 9).unwrap();
    let b = second.add(&mut arena, 4, 9).unwrap();
    assert_eq!((a, b), (0, 1));
    assert_eq!(second.delete(&mut arena, a), Err(BookError::UnknownOrder));
    assert_eq!(first.delete(&mut arena, b), Err(BookError::UnknownOrder));
    assert_eq!(first.delete(&mut arena, a), Ok(PriceLevelResponse::new(9, -3)));
    assert_eq!(second.level(&arena, 9).unwrap().qty(), 4);
    assert_eq!(arena.get(b).book_id(), 1);
    assert_eq!(arena.get(b).level_id(), Some(0));
}

#[test]
fn level_view_is_keyed_by_price() {
    let mut arena = arena();
    let mut book = book();
    book.add(&mut arena, 5, -128).unwrap();
    book.add(&mut arena, 6, -1).unwrap();
    book.add(&mut arena, 7, 0).unwrap();
    book.add(&mut arena, 8, 127).unwrap();
    book.add(&mut arena, 4, 127).unwrap();
    let view = book.get_level_view(&arena);
    let mut expected = [0u64; 256];
    expected[0] = 5;
    expected[127] = 6;
    expected[128] = 7;
    expected[255] = 12;
    assert_eq!(view, expected);
}

#[test]
fn clear_empties_book_and_store() {
    let mut arena = arena();
    let mut book = book();
    book.add(&mut arena, 5, 3).unwrap();
    book.add(&mut arena, 5, -3).unwrap();
    book.clear(&mut arena);
    assert_eq!(arena.len(), 0);
    assert_eq!(book.level_len(), 0);
    assert!(book.best_order(&arena, 1).is_none());
    assert!(book.best_order(&arena, -1).is_none());
    assert_eq!(book.delete(&mut arena, 0), Err(BookError::UnknownOrder));
    assert_eq!(book.add(&mut arena, 2, 3), Ok(0));
}

#[test]
fn best_order_is_last_of_the_opposite_side() {
    let mut arena = arena();
    let mut book = book();
    book.add(&mut arena, 1, 10).unwrap();
    book.add(&mut arena, 1, 30).unwrap();
    book.add(&mut arena, 1, 20).unwrap();
    book.add(&mut arena, 1, -40).unwrap();
    book.add(&mut arena, 1, -2).unwrap();
    book.add(&mut arena, 1, -2).unwrap();
    assert_eq!(book.best_order(&arena, -1), Some((1, 30)));
    assert_eq!(book.best_order(&arena, 0), Some((4, -2)));
    assert_eq!(book.best_order(&arena, 55), Some((4, -2)));
}
