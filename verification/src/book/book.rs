//! The order book: two price indexes over a level store, with the orders of
//! each level chained in arrival order inside a shared order store.

use vstd::prelude::*;
use crate::book::bump::BumpAllocator;
use crate::book::pool::{BasicArena, MemArena};
use crate::book::model::{
    best_price, chain_at, chain_ok, fill_events, filled, position, rest, rest_events, sweep, take, total,
    CrossingPolicy, Ladder, RestingOrder,
    lemma_best_between_none, lemma_best_between_top, lemma_best_price_side, lemma_filled_concat,
    lemma_sweep_level,
    lemma_filled_rest, lemma_sweep_conserves,
    lemma_total_bounds, lemma_total_exhausted, lemma_total_push, lemma_total_remove,
    lemma_total_single, lemma_total_update,
};
use crate::comm::urcp::{
    AddResponse, ExecuteResponse, OBResponse, OBResponseWrapper, PriceLevelResponse,
};

verus! {

/// Why the book refused an operation. Nothing was changed when one is returned.
#[derive(Clone, Copy, Debug, PartialEq, Eq)]
pub enum BookError {
    /// An order of quantity zero cannot rest.
    ZeroQuantity,
    /// The quantity does not fit the signed delta of a price event.
    QuantityTooLarge,
    /// The level's aggregate quantity would pass what its counter can hold.
    LevelOverflow,
    /// The order store has no slot left.
    OrderStoreFull,
    /// The level store has no slot left.
    LevelStoreFull,
    /// The index names no order that rests in this book.
    UnknownOrder,
    /// More was to be taken off an order than it has left.
    OverReduction,
}

/// One order in the order store.
#[derive(Clone, Copy, Debug)]
pub struct OrderChain {
    qty: u64,
    book_id: u16,
    level_id: Option<usize>,
    next: Option<usize>,
    prev: Option<usize>,
}

impl OrderChain {
    /// An order of `qty` that belongs to no level yet and has no neighbours.
    fn new(qty: u64) -> (order: Self)
        ensures
            order == (OrderChain { qty, book_id: 0, level_id: None, next: None, prev: None }),
    {
        OrderChain { qty, book_id: 0, level_id: None, next: None, prev: None }
    }

    /// What is left of the order; zero once it has left its chain.
    pub closed spec fn quantity(self) -> u64 {
        self.qty
    }

    /// The book that wrote the order.
    pub closed spec fn owner(self) -> u16 {
        self.book_id
    }

    /// The slot of the level that the order belongs to.
    pub closed spec fn level(self) -> Option<usize> {
        self.level_id
    }

    /// The order behind this one in its chain.
    pub closed spec fn successor(self) -> Option<usize> {
        self.next
    }

    /// The order ahead of this one in its chain.
    pub closed spec fn predecessor(self) -> Option<usize> {
        self.prev
    }

    pub fn qty(&self) -> (q: u64)
        ensures
            q == self.quantity(),
    {
        self.qty
    }

    pub fn book_id(&self) -> (b: u16)
        ensures
            b == self.owner(),
    {
        self.book_id
    }

    pub fn level_id(&self) -> (l: Option<usize>)
        ensures
            l == self.level(),
    {
        self.level_id
    }

    pub fn next(&self) -> (n: Option<usize>)
        ensures
            n == self.successor(),
    {
        self.next
    }

    pub fn prev(&self) -> (p: Option<usize>)
        ensures
            p == self.predecessor(),
    {
        self.prev
    }
}

/// The aggregate of all orders at one price.
#[derive(Clone, Copy, Debug)]
pub struct Level {
    head: Option<usize>,
    tail: Option<usize>,
    price: i8,
    qty: u64,
}

impl Level {
    /// A level at `price` with aggregate `qty` and no order chained yet.
    pub fn new(price: i8, qty: u64) -> (level: Self)
        ensures
            level.first() is None,
            level.last() is None,
            level.at() == price,
            level.aggregate() == qty,
    {
        Level { head: None, tail: None, price, qty }
    }

    /// The oldest order of the level.
    pub closed spec fn first(self) -> Option<usize> {
        self.head
    }

    /// The newest order of the level.
    pub closed spec fn last(self) -> Option<usize> {
        self.tail
    }

    /// The price of the level.
    pub closed spec fn at(self) -> i8 {
        self.price
    }

    /// The aggregate quantity of the level.
    pub closed spec fn aggregate(self) -> u64 {
        self.qty
    }

    pub fn head(&self) -> (h: Option<usize>)
        ensures
            h == self.first(),
    {
        self.head
    }

    pub fn tail(&self) -> (t: Option<usize>)
        ensures
            t == self.last(),
    {
        self.tail
    }

    pub fn price(&self) -> (p: i8)
        ensures
            p == self.at(),
    {
        self.price
    }

    pub fn qty(&self) -> (q: u64)
        ensures
            q == self.aggregate(),
    {
        self.qty
    }
}

/// One entry of a price index: a price and the slot of its level.
#[derive(Clone, Copy, Debug)]
pub struct PriceLevel {
    price: i8,
    level_id: usize,
}

impl PriceLevel {
    pub closed spec fn at(self) -> i8 {
        self.price
    }

    pub closed spec fn slot(self) -> usize {
        self.level_id
    }

    pub fn price(&self) -> (p: i8)
        ensures
            p == self.at(),
    {
        self.price
    }

    pub fn level_id(&self) -> (l: usize)
        ensures
            l == self.slot(),
    {
        self.level_id
    }
}

/// What the book remembers of a level beside its records: the slot that holds
/// it and the orders of its chain, oldest first.
pub struct Shadow {
    pub slot: usize,
    pub chain: Seq<usize>,
}

/// The orders of a chain as the model sees them.
pub open spec fn model_chain(store: Seq<OrderChain>, chain: Seq<usize>) -> Seq<RestingOrder> {
    Seq::new(chain.len(), |k: int| RestingOrder { id: chain[k], qty: store[chain[k] as int].quantity() })
}

/// Whether a price belongs to the side of the negative prices.
pub open spec fn negative(price: i8) -> bool {
    price < 0
}

/// Where the quantity at `price` stands in a level snapshot: the negative
/// prices fill the lower half, the others the upper half.
pub open spec fn bucket(price: i8) -> int {
    price + 128
}

/// Strictly ascending by price.
pub open spec fn ascending(side: Seq<PriceLevel>) -> bool {
    forall|i: int, j: int| 0 <= i < j < side.len() ==> (#[trigger] side[i]).at() < (#[trigger] side[j]).at()
}

/// Whether the order store changed as one book with tag `id` may change it:
/// it only grew, the records of other books are as they were, no record
/// changed hands, and the new records are that book's.
pub open spec fn store_step(before: Seq<OrderChain>, after: Seq<OrderChain>, id: u16) -> bool {
    &&& before.len() <= after.len()
    &&& forall|i: int| 0 <= i < before.len() ==> (#[trigger] after[i]).owner() == before[i].owner()
    &&& forall|i: int| 0 <= i < before.len() && before[i].owner() != id ==> (#[trigger] after[i]) == before[i]
    &&& forall|i: int| before.len() <= i < after.len() ==> (#[trigger] after[i]).owner() == id
}

/// Two steps of one book after each other are a step of that book.
pub proof fn lemma_store_step_trans(a: Seq<OrderChain>, b: Seq<OrderChain>, c: Seq<OrderChain>, id: u16)
    requires
        store_step(a, b, id),
        store_step(b, c, id),
    ensures
        store_step(a, c, id),
{
    assert forall|i: int| 0 <= i < a.len() implies (#[trigger] c[i]).owner() == a[i].owner() by {
        assert(b[i].owner() == a[i].owner());
    }
    assert forall|i: int| 0 <= i < a.len() && a[i].owner() != id implies (#[trigger] c[i]) == a[i] by {
        assert(b[i] == a[i]);
    }
    assert forall|i: int| a.len() <= i < c.len() implies (#[trigger] c[i]).owner() == id by {
        if i < b.len() {
            assert(b[i].owner() == id);
        }
    }
}

spec fn link_ok(store: Seq<OrderChain>, id: u16, slot: usize, c: Seq<usize>, k: int) -> bool {
    let r = store[c[k] as int];
    &&& c[k] < store.len()
    &&& 0 < r.qty <= i64::MAX
    &&& r.book_id == id
    &&& r.level_id == Some(slot)
    &&& r.prev == (if k == 0 { None } else { Some(c[k - 1]) })
    &&& r.next == (if k == c.len() - 1 { None } else { Some(c[k + 1]) })
}

spec fn chain_linked(store: Seq<OrderChain>, id: u16, slot: usize, level: Level, c: Seq<usize>) -> bool {
    &&& c.len() > 0
    &&& c.no_duplicates()
    &&& level.head == Some(c[0])
    &&& level.tail == Some(c[c.len() - 1])
    &&& level.qty == total(model_chain(store, c))
    &&& forall|k: int| 0 <= k < c.len() ==> #[trigger] link_ok(store, id, slot, c, k)
}

/// A chain that was in order stays so where none of its records changed.
proof fn lemma_chain_frame(s1: Seq<OrderChain>, s2: Seq<OrderChain>, id: u16, slot: usize, level: Level, c: Seq<usize>)
    requires
        chain_linked(s1, id, slot, level, c),
        s1.len() <= s2.len(),
        forall|k: int| 0 <= k < c.len() ==> s2[(#[trigger] c[k]) as int] == s1[c[k] as int],
    ensures
        chain_linked(s2, id, slot, level, c),
        model_chain(s2, c) == model_chain(s1, c),
{
    assert(model_chain(s2, c) =~= model_chain(s1, c));
    assert forall|k: int| 0 <= k < c.len() implies #[trigger] link_ok(s2, id, slot, c, k) by {
        assert(link_ok(s1, id, slot, c, k));
    }
}

/// One book over an order store that it may share with others.
pub struct Orderbook {
    id: u16,
    sorted_yes: Vec<PriceLevel>,
    sorted_no: Vec<PriceLevel>,
    level_arena: BasicArena<Level>,
    shadow: Ghost<Map<i8, Shadow>>,
}

impl Orderbook {
    /// The tag that marks this book's records in the order store.
    pub closed spec fn tag(&self) -> u16 {
        self.id
    }

    /// The price index of one side, in its order: the side of the negative
    /// prices, or the side of the others.
    pub closed spec fn price_index(&self, negative_side: bool) -> Seq<PriceLevel> {
        if negative_side {
            self.sorted_yes@
        } else {
            self.sorted_no@
        }
    }

    /// The levels of the book as the model sees them.
    pub closed spec fn levels(&self, orders: &BumpAllocator<OrderChain>) -> Ladder {
        Map::new(
            |p: i8| self.shadow@.dom().contains(p),
            |p: i8| model_chain(orders@, self.shadow@[p].chain),
        )
    }

    /// The aggregate quantity that the level at `price` records; zero without a level.
    pub closed spec fn level_qty(&self, price: i8) -> u64 {
        if self.shadow@.dom().contains(price) {
            self.level_arena.content(self.shadow@[price].slot as int)->0.qty
        } else {
            0
        }
    }

    /// The number of levels in the book.
    pub closed spec fn level_count(&self) -> nat {
        self.level_arena.occupied()
    }

    /// The number of levels that the book has room for.
    pub closed spec fn level_capacity(&self) -> nat {
        self.level_arena.capacity()
    }

    /// Whether `oid` names an order that this book wrote and that still rests.
    pub open spec fn rests(&self, orders: &BumpAllocator<OrderChain>, oid: usize) -> bool {
        &&& oid < orders@.len()
        &&& orders@[oid as int].owner() == self.tag()
        &&& orders@[oid as int].quantity() > 0
    }

    /// The price of the level that the order belongs to.
    pub closed spec fn price_of(&self, orders: &BumpAllocator<OrderChain>, oid: usize) -> i8 {
        self.level_arena.content(orders@[oid as int].level_id->0 as int)->0.price
    }

    /// The index of one side is sorted, holds prices of that side only, and
    /// each entry names the slot that the book remembers for its price.
    spec fn side_ok(&self, yes: bool) -> bool {
        let side = self.price_index(yes);
        &&& ascending(side)
        &&& forall|i: int| 0 <= i < side.len() ==> {
            &&& ((#[trigger] side[i]).price < 0) == yes
            &&& self.shadow@.dom().contains(side[i].price)
            &&& self.shadow@[side[i].price].slot == side[i].level_id
        }
    }

    /// Whether the index of its side has an entry for `p`.
    spec fn listed(&self, p: i8) -> bool {
        let side = self.price_index(negative(p));
        exists|i: int| 0 <= i < side.len() && (#[trigger] side[i]).price == p
    }

    /// The level at `p` is allocated, carries its price, and its chain is in order.
    spec fn level_ok(&self, store: Seq<OrderChain>, p: i8) -> bool {
        let sh = self.shadow@[p];
        &&& self.level_arena.is_allocated(sh.slot as int)
        &&& self.level_arena.content(sh.slot as int) is Some
        &&& self.level_arena.content(sh.slot as int)->0.price == p
        &&& chain_linked(store, self.id, sh.slot, self.level_arena.content(sh.slot as int)->0, sh.chain)
    }

    /// Whether the record of order `oid` points at a level of this book
    /// whose chain holds it.
    spec fn linked(&self, store: Seq<OrderChain>, oid: usize) -> bool {
        let r = store[oid as int];
        &&& r.level_id is Some
        &&& self.level_arena.is_allocated(r.level_id->0 as int)
        &&& self.level_arena.content(r.level_id->0 as int) is Some
        &&& {
            let p = self.level_arena.content(r.level_id->0 as int)->0.price;
            &&& self.shadow@.dom().contains(p)
            &&& self.shadow@[p].slot == r.level_id->0
            &&& self.shadow@[p].chain.contains(oid)
        }
    }

    /// Every resting order of this book stands in the chain of its level.
    spec fn member_ok(&self, store: Seq<OrderChain>) -> bool {
        forall|oid: usize|
            oid < store.len() && (#[trigger] store[oid as int]).book_id == self.id && store[oid as int].qty > 0
                ==> self.linked(store, oid)
    }

    /// The book and the order store fit together: the indexes are sorted and
    /// name exactly the levels, each level's chain is linked in both
    /// directions from head to tail, its aggregate is the sum of its orders,
    /// and the resting orders of this book are exactly those in its chains.
    pub closed spec fn wf(&self, orders: &BumpAllocator<OrderChain>) -> bool {
        &&& orders.wf()
        &&& self.level_arena.wf()
        &&& self.side_ok(true)
        &&& self.side_ok(false)
        &&& self.level_arena.occupied() == self.sorted_yes@.len() + self.sorted_no@.len()
        &&& forall|p: i8| self.shadow@.dom().contains(p) ==> #[trigger] self.listed(p)
        &&& forall|p: i8| self.shadow@.dom().contains(p) ==> #[trigger] self.level_ok(orders@, p)
        &&& self.member_ok(orders@)
    }

    /// An empty book with room for `level_capacity` levels, whose orders will
    /// carry the tag `book_id`.
    pub fn with_capacities(book_id: u16, level_capacity: usize) -> (book: Self)
        ensures
            book.tag() == book_id,
            book.level_capacity() == level_capacity,
            book.level_count() == 0,
            book.price_index(true) == Seq::<PriceLevel>::empty(),
            book.price_index(false) == Seq::<PriceLevel>::empty(),
            forall|orders: BumpAllocator<OrderChain>|
                orders.wf() && orders@.len() == 0 ==> #[trigger] book.wf(&orders),
            forall|orders: BumpAllocator<OrderChain>|
                #[trigger] book.levels(&orders) == Map::<i8, Seq<RestingOrder>>::empty(),
    {
        let book = Orderbook {
            id: book_id,
            sorted_yes: Vec::new(),
            sorted_no: Vec::new(),
            level_arena: BasicArena::with_capacity(level_capacity),
            shadow: Ghost(Map::empty()),
        };
        proof {
            assert forall|orders: BumpAllocator<OrderChain>|
                #[trigger] book.levels(&orders) == Map::<i8, Seq<RestingOrder>>::empty() by {
                assert(book.levels(&orders) =~= Map::<i8, Seq<RestingOrder>>::empty());
            }
        }
        book
    }

    /// Looks for `price` in `side`, from the best price down. Gives the place
    /// of its entry, or the place where its entry belongs.
    fn find_level(side: &Vec<PriceLevel>, price: i8) -> (r: (usize, bool))
        requires
            ascending(side@),
        ensures
            r.1 ==> r.0 < side@.len() && side@[r.0 as int].price == price,
            !r.1 ==> r.0 <= side@.len(),
            !r.1 ==> forall|i: int| 0 <= i < r.0 ==> (#[trigger] side@[i]).price < price,
            !r.1 ==> forall|i: int| r.0 <= i < side@.len() ==> (#[trigger] side@[i]).price > price,
    {
        let mut i: usize = side.len();
        while i > 0
            invariant
                i <= side@.len(),
                ascending(side@),
                forall|j: int| i <= j < side@.len() ==> (#[trigger] side@[j]).price > price,
            decreases i,
        {
            let entry = side[i - 1];
            if entry.price == price {
                return (i - 1, true);
            }
            if entry.price < price {
                assert forall|j: int| 0 <= j < i implies (#[trigger] side@[j]).price < price by {
                    if j < i - 1 {
                        assert(side@[j].at() < side@[i - 1].at());
                    }
                }
                return (i, false);
            }
            i = i - 1;
        }
        (i, false)
    }

    /// Why `add` would refuse an order of `qty` at `price`, if it would.
    pub open spec fn add_refusal(&self, orders: &BumpAllocator<OrderChain>, qty: u64, price: i8) -> Option<BookError> {
        if qty == 0 {
            Some(BookError::ZeroQuantity)
        } else if qty > i64::MAX {
            Some(BookError::QuantityTooLarge)
        } else if orders@.len() >= orders.cap() {
            Some(BookError::OrderStoreFull)
        } else if self.levels(orders).dom().contains(price) {
            if self.level_qty(price) + qty > u64::MAX {
                Some(BookError::LevelOverflow)
            } else {
                None
            }
        } else if self.levels(orders).dom().len() >= self.level_capacity() {
            Some(BookError::LevelStoreFull)
        } else {
            None
        }
    }

    /// Rests a new order of `qty` at `price`: it joins the tail of the chain at
    /// that price, on the side that the sign of the price selects, and the
    /// level is created if the price had none. Returns the order's index in
    /// the order store.
    pub fn add(&mut self, orders: &mut BumpAllocator<OrderChain>, qty: u64, price: i8) -> (r: Result<usize, BookError>)
        requires
            old(self).wf(old(orders)),
        ensures
            final(self).wf(final(orders)),
            final(self).tag() == old(self).tag(),
            final(self).level_capacity() == old(self).level_capacity(),
            final(orders).cap() == old(orders).cap(),
            store_step(old(orders)@, final(orders)@, old(self).tag()),
            match old(self).add_refusal(old(orders), qty, price) {
                Some(e) => r == Err::<usize, BookError>(e) && *final(self) == *old(self) && *final(orders) == *old(orders),
                None => {
                    &&& r == Ok::<usize, BookError>(old(orders)@.len() as usize)
                    &&& final(orders)@.len() == old(orders)@.len() + 1
                    &&& final(self).level_count() == old(self).level_count() + (if old(self).levels(
                        old(orders),
                    ).dom().contains(price) {
                        0int
                    } else {
                        1int
                    })
                    &&& final(self).levels(final(orders)) == rest(
                        old(self).levels(old(orders)),
                        price,
                        RestingOrder { id: old(orders)@.len() as usize, qty },
                    )
                },
            },
    {
        if qty == 0 {
            return Err(BookError::ZeroQuantity);
        }
        if qty > i64::MAX as u64 {
            return Err(BookError::QuantityTooLarge);
        }
        if orders.is_full() {
            return Err(BookError::OrderStoreFull);
        }
        let (pos, found) = if price < 0 {
            Self::find_level(&self.sorted_yes, price)
        } else {
            Self::find_level(&self.sorted_no, price)
        };
        proof {
            if !found && self.shadow@.dom().contains(price) {
                assert(self.listed(price));
            }
            if found {
                assert(self.price_index(negative(price))[pos as int].price == price);
                assert(self.side_ok(negative(price)));
            }
            assert(self.levels(orders).dom().contains(price) == self.shadow@.dom().contains(price));
            self.lemma_level_count(orders);
        }
        if found {
            let slot = if price < 0 {
                self.sorted_yes[pos].level_id
            } else {
                self.sorted_no[pos].level_id
            };
            assert(self.level_ok(orders@, price));
            let level = *self.level_arena.index(slot);
            if level.qty > u64::MAX - qty {
                return Err(BookError::LevelOverflow);
            }
            Ok(self.add_to_order_chain(orders, qty, price, slot))
        } else {
            if self.level_arena.is_full() {
                return Err(BookError::LevelStoreFull);
            }
            Ok(self.insert_order(orders, qty, price, pos))
        }
    }

    /// Appends a new order of `qty` to the tail of the chain of the level at
    /// `price`, which lives in `slot`.
    fn add_to_order_chain(&mut self, orders: &mut BumpAllocator<OrderChain>, qty: u64, price: i8, slot: usize) -> (oid: usize)
        requires
            old(self).wf(old(orders)),
            0 < qty <= i64::MAX,
            old(orders)@.len() < old(orders).cap(),
            old(self).shadow@.dom().contains(price),
            old(self).shadow@[price].slot == slot,
            old(self).level_qty(price) + qty <= u64::MAX,
        ensures
            final(self).level_count() == old(self).level_count(),
            final(self).wf(final(orders)),
            final(self).tag() == old(self).tag(),
            final(self).level_capacity() == old(self).level_capacity(),
            final(orders).cap() == old(orders).cap(),
            store_step(old(orders)@, final(orders)@, old(self).tag()),
            oid == old(orders)@.len(),
            final(orders)@.len() == old(orders)@.len() + 1,
            final(self).levels(final(orders)) == rest(
                old(self).levels(old(orders)),
                price,
                RestingOrder { id: oid, qty },
            ),
    {
        let ghost s0 = orders@;
        let ghost c = self.shadow@[price].chain;
        assert(self.level_ok(s0, price));
        let level = *self.level_arena.index(slot);
        assert(link_ok(s0, self.id, slot, c, c.len() - 1));
        let tail = level.tail.unwrap();
        let oid = orders.len();
        let mut order = OrderChain::new(qty);
        order.book_id = self.id;
        order.level_id = Some(slot);
        order.prev = Some(tail);
        let w = orders.write(order);
        let mut t = *orders.peek(tail);
        t.next = Some(oid);
        orders.set(tail, t);
        self.level_arena.set(
            slot,
            Level { head: level.head, tail: Some(oid), price: level.price, qty: level.qty + qty },
        );
        self.shadow = Ghost(self.shadow@.insert(price, Shadow { slot, chain: c.push(oid) }));
        proof {
            let s1 = orders@;
            let c1 = c.push(oid);
            let order = RestingOrder { id: oid, qty };
            assert(self.shadow@.dom() =~= old(self).shadow@.dom());
            // The records of the chain are as before, but for the old tail's link.
            assert forall|k: int| 0 <= k < c.len() implies c[k] != oid && s1[(#[trigger] c[k]) as int].qty == s0[c[k] as int].qty
                && (k < c.len() - 1 ==> s1[c[k] as int] == s0[c[k] as int]) by {
                assert(link_ok(s0, self.id, slot, c, k));
            }
            assert(model_chain(s1, c1) =~= model_chain(s0, c).push(order));
            lemma_total_push(model_chain(s0, c), order);
            assert forall|k: int| 0 <= k < c1.len() implies #[trigger] link_ok(s1, self.id, slot, c1, k) by {
                if k < c.len() {
                    assert(link_ok(s0, self.id, slot, c, k));
                }
            }
            assert(c1.no_duplicates());
            assert(self.level_ok(s1, price));
            // The other levels did not change.
            assert forall|p: i8| self.shadow@.dom().contains(p) && p != price implies
                #[trigger] self.level_ok(s1, p) && model_chain(s1, self.shadow@[p].chain) == model_chain(s0, self.shadow@[p].chain) by {
                assert(old(self).level_ok(s0, p));
                let sh = self.shadow@[p];
                assert forall|k: int| 0 <= k < sh.chain.len() implies s1[(#[trigger] sh.chain[k]) as int] == s0[sh.chain[k] as int] by {
                    assert(link_ok(s0, self.id, sh.slot, sh.chain, k));
                }
                lemma_chain_frame(s0, s1, self.id, sh.slot, self.level_arena.content(sh.slot as int)->0, sh.chain);
            }
            assert forall|p: i8| self.shadow@.dom().contains(p) implies #[trigger] self.listed(p) by {
                assert(old(self).listed(p));
                let side = old(self).price_index(negative(p));
                let i = choose|i: int| 0 <= i < side.len() && (#[trigger] side[i]).price == p;
                assert(self.price_index(negative(p))[i].price == p);
            }
            assert forall|x: usize|
                x < s1.len() && (#[trigger] s1[x as int]).book_id == self.id && s1[x as int].qty > 0 implies self.linked(s1, x) by {
                if x == oid {
                    assert(c1[c.len() as int] == oid);
                } else if x == tail {
                    assert(c1[c.len() - 1] == tail);
                } else {
                    assert(s1[x as int] == s0[x as int]);
                    assert(old(self).linked(s0, x));
                    let sx = s0[x as int].level_id->0;
                    let px = old(self).level_arena.content(sx as int)->0.price;
                    if px == price {
                        let j = choose|j: int| 0 <= j < c.len() && c[j] == x;
                        assert(c1[j] == x);
                    }
                }
            }
            let expected = rest(old(self).levels(old(orders)), price, order);
            assert forall|p: i8| self.levels(orders).dom().contains(p) implies #[trigger] self.levels(orders)[p] == expected[p] by {
                if p != price {
                    assert(self.level_ok(s1, p));
                }
            }
            assert(self.levels(orders) =~= expected);
        }
        oid
    }

    /// Creates the level at `price` with a new order of `qty` as its only one,
    /// and enters it into its side's index at `pos`.
    fn insert_order(&mut self, orders: &mut BumpAllocator<OrderChain>, qty: u64, price: i8, pos: usize) -> (oid: usize)
        requires
            old(self).wf(old(orders)),
            0 < qty <= i64::MAX,
            old(orders)@.len() < old(orders).cap(),
            !old(self).shadow@.dom().contains(price),
            old(self).level_count() < old(self).level_capacity(),
            pos <= old(self).price_index(negative(price)).len(),
            forall|i: int| 0 <= i < pos ==> (#[trigger] old(self).price_index(negative(price))[i]).price < price,
            forall|i: int| pos <= i < old(self).price_index(negative(price)).len() ==> (#[trigger] old(self).price_index(negative(price))[i]).price > price,
        ensures
            final(self).level_count() == old(self).level_count() + 1,
            final(self).wf(final(orders)),
            final(self).tag() == old(self).tag(),
            final(self).level_capacity() == old(self).level_capacity(),
            final(orders).cap() == old(orders).cap(),
            store_step(old(orders)@, final(orders)@, old(self).tag()),
            oid == old(orders)@.len(),
            final(orders)@.len() == old(orders)@.len() + 1,
            final(self).levels(final(orders)) == rest(
                old(self).levels(old(orders)),
                price,
                RestingOrder { id: oid, qty },
            ),
    {
        let ghost s0 = orders@;
        let ghost side0 = self.price_index(negative(price));
        let oid = orders.len();
        let slot = self.level_arena.allocate().unwrap();
        let mut level = Level::new(price, qty);
        level.head = Some(oid);
        level.tail = Some(oid);
        self.level_arena.set(slot, level);
        let mut order = OrderChain::new(qty);
        order.book_id = self.id;
        order.level_id = Some(slot);
        let w = orders.write(order);
        let entry = PriceLevel { price, level_id: slot };
        if price < 0 {
            self.sorted_yes.insert(pos, entry);
        } else {
            self.sorted_no.insert(pos, entry);
        }
        self.shadow = Ghost(self.shadow@.insert(price, Shadow { slot, chain: seq![oid] }));
        proof {
            let s1 = orders@;
            let c1 = seq![oid];
            let order = RestingOrder { id: oid, qty };
            let side1 = self.price_index(negative(price));
            assert(side1 == side0.insert(pos as int, entry));
            assert(self.price_index(!negative(price)) == old(self).price_index(!negative(price)));
            // The changed side is still in order and names its levels.
            assert(self.side_ok(negative(price))) by {
                assert(old(self).side_ok(price < 0));
                assert forall|i: int, j: int| 0 <= i < j < side1.len() implies (#[trigger] side1[i]).at() < (#[trigger] side1[j]).at() by {
                    let a = if i < pos { i } else { i - 1 };
                    let b = if j < pos { j } else { j - 1 };
                    if i != pos && j != pos {
                        assert(side0[a].at() < side0[b].at());
                    } else if i == pos {
                        assert(side0[b].price > price);
                    } else {
                        assert(side0[a].price < price);
                    }
                }
                assert forall|i: int| 0 <= i < side1.len() implies {
                    &&& ((#[trigger] side1[i]).price < 0) == (price < 0)
                    &&& self.shadow@.dom().contains(side1[i].price)
                    &&& self.shadow@[side1[i].price].slot == side1[i].level_id
                } by {
                    if i != pos {
                        let a = if i < pos { i } else { i - 1 };
                        assert(side1[i] == side0[a]);
                    }
                }
            }
            assert(self.side_ok(!negative(price))) by {
                assert(old(self).side_ok(!(price < 0)));
            }
            assert forall|p: i8| self.shadow@.dom().contains(p) implies #[trigger] self.listed(p) by {
                if p == price {
                    assert(side1[pos as int].price == price);
                } else {
                    assert(old(self).listed(p));
                    if (p < 0) == (price < 0) {
                        let i = choose|i: int| 0 <= i < side0.len() && (#[trigger] side0[i]).price == p;
                        let b = if i < pos { i } else { i + 1 };
                        assert(side1[b] == side0[i]);
                    }
                }
            }
            // The new level is in order.
            assert(self.level_ok(s1, price)) by {
                assert(model_chain(s1, c1) =~= seq![order]);
                lemma_total_single(order);
                assert(link_ok(s1, self.id, slot, c1, 0));
            }
            // The other levels did not change.
            assert forall|p: i8| self.shadow@.dom().contains(p) && p != price implies
                #[trigger] self.level_ok(s1, p) && model_chain(s1, self.shadow@[p].chain) == model_chain(s0, self.shadow@[p].chain) by {
                assert(old(self).level_ok(s0, p));
                let sh = self.shadow@[p];
                assert forall|k: int| 0 <= k < sh.chain.len() implies s1[(#[trigger] sh.chain[k]) as int] == s0[sh.chain[k] as int] by {
                    assert(link_ok(s0, self.id, sh.slot, sh.chain, k));
                }
                lemma_chain_frame(s0, s1, self.id, sh.slot, old(self).level_arena.content(sh.slot as int)->0, sh.chain);
            }
            assert forall|x: usize|
                x < s1.len() && (#[trigger] s1[x as int]).book_id == self.id && s1[x as int].qty > 0 implies self.linked(s1, x) by {
                if x == oid {
                    assert(c1[0] == oid);
                } else {
                    assert(s1[x as int] == s0[x as int]);
                    assert(old(self).linked(s0, x));
                }
            }
            let expected = rest(old(self).levels(old(orders)), price, order);
            assert forall|p: i8| self.levels(orders).dom().contains(p) implies #[trigger] self.levels(orders)[p] == expected[p] by {
                if p != price {
                    assert(self.level_ok(s1, p));
                }
            }
            assert(self.levels(orders) =~= expected);
        }
        oid
    }

    /// Why `reduce` would refuse to take `qty` off order `oid`, if it would.
    pub open spec fn reduce_refusal(&self, orders: &BumpAllocator<OrderChain>, oid: usize, qty: u64) -> Option<BookError> {
        if !self.rests(orders, oid) {
            Some(BookError::UnknownOrder)
        } else if qty > orders@[oid as int].quantity() {
            Some(BookError::OverReduction)
        } else {
            None
        }
    }

    /// What holds after `qty` was taken off the resting order `oid`.
    pub open spec fn reduced(
        before: &Orderbook,
        orders_before: &BumpAllocator<OrderChain>,
        after: &Orderbook,
        orders_after: &BumpAllocator<OrderChain>,
        oid: usize,
        qty: u64,
    ) -> bool {
        &&& after.wf(orders_after)
        &&& after.tag() == before.tag()
        &&& after.level_capacity() == before.level_capacity()
        &&& orders_after.cap() == orders_before.cap()
        &&& orders_after@.len() == orders_before@.len()
        &&& store_step(orders_before@, orders_after@, before.tag())
        &&& after.level_count() + (if after.levels(orders_after).dom().contains(
            before.price_of(orders_before, oid),
        ) {
            0int
        } else {
            1int
        }) == before.level_count()
        &&& after.levels(orders_after) == take(
            before.levels(orders_before),
            before.price_of(orders_before, oid),
            oid,
            qty,
        )
    }

    /// Where a resting order stands in the book's own records.
    proof fn lemma_locate(&self, orders: &BumpAllocator<OrderChain>, oid: usize) -> (k: int)
        requires
            self.wf(orders),
            self.rests(orders, oid),
        ensures
            self.shadow@.dom().contains(self.price_of(orders, oid)),
            self.level_ok(orders@, self.price_of(orders, oid)),
            self.shadow@[self.price_of(orders, oid)].slot == orders@[oid as int].level_id->0,
            orders@[oid as int].level_id is Some,
            0 <= k < self.shadow@[self.price_of(orders, oid)].chain.len(),
            self.shadow@[self.price_of(orders, oid)].chain[k] == oid,
            link_ok(orders@, self.id, self.shadow@[self.price_of(orders, oid)].slot, self.shadow@[self.price_of(orders, oid)].chain, k),
            self.levels(orders).dom().contains(self.price_of(orders, oid)),
            position(self.levels(orders)[self.price_of(orders, oid)], oid) == k,
            self.levels(orders)[self.price_of(orders, oid)] == model_chain(orders@, self.shadow@[self.price_of(orders, oid)].chain),
            orders@[oid as int].qty <= self.level_arena.content(orders@[oid as int].level_id->0 as int)->0.qty,
    {
        let store = orders@;
        assert(self.linked(store, oid));
        let p = self.price_of(orders, oid);
        let c = self.shadow@[p].chain;
        let k = choose|k: int| 0 <= k < c.len() && c[k] == oid;
        assert(self.level_ok(store, p));
        let chain = self.levels(orders)[p];
        assert(chain[k].id == oid);
        let q = position(chain, oid);
        assert(c[q] == oid);
        lemma_total_bounds(model_chain(store, c), k);
        k
    }

    /// Takes `qty` off order `oid` and off its level. A level left with
    /// nothing leaves its side's index and gives its slot back; else an order
    /// left with nothing is unlinked from its chain. Returns the level's price
    /// and the change of its quantity.
    pub fn reduce_order(&mut self, orders: &mut BumpAllocator<OrderChain>, oid: usize, qty: u64) -> (r: Result<PriceLevelResponse, BookError>)
        requires
            old(self).wf(old(orders)),
        ensures
            final(self).wf(final(orders)),
            final(self).tag() == old(self).tag(),
            final(self).level_capacity() == old(self).level_capacity(),
            final(orders).cap() == old(orders).cap(),
            final(orders)@.len() == old(orders)@.len(),
            store_step(old(orders)@, final(orders)@, old(self).tag()),
            match old(self).reduce_refusal(old(orders), oid, qty) {
                Some(e) => r == Err::<PriceLevelResponse, BookError>(e) && *final(self) == *old(self) && *final(orders) == *old(orders),
                None => {
                    &&& r == Ok::<PriceLevelResponse, BookError>(
                        PriceLevelResponse { price: old(self).price_of(old(orders), oid), delta: -(qty as int) as i64 },
                    )
                    &&& Self::reduced(old(self), old(orders), final(self), final(orders), oid, qty)
                },
            },
    {
        if oid >= orders.len() {
            return Err(BookError::UnknownOrder);
        }
        let rec = *orders.peek(oid);
        if rec.book_id != self.id || rec.qty == 0 {
            return Err(BookError::UnknownOrder);
        }
        if qty > rec.qty {
            return Err(BookError::OverReduction);
        }
        let ghost k = self.lemma_locate(orders, oid);
        let slot = rec.level_id.unwrap();
        let level = *self.level_arena.index(slot);
        let ret = PriceLevelResponse { price: level.price, delta: -(qty as i64) };
        if level.qty == qty {
            self.drop_level(orders, oid, slot, Ghost(k));
        } else if rec.qty == qty {
            self.unlink_order(orders, oid, slot, Ghost(k));
        } else {
            self.shrink_order(orders, oid, qty, slot, Ghost(k));
        }
        Ok(ret)
    }

    /// Takes less than all off an order: only the two quantities change.
    fn shrink_order(&mut self, orders: &mut BumpAllocator<OrderChain>, oid: usize, qty: u64, slot: usize, Ghost(k): Ghost<int>)
        requires
            old(self).wf(old(orders)),
            old(self).rests(old(orders), oid),
            qty < old(orders)@[oid as int].qty,
            old(orders)@[oid as int].level_id == Some(slot),
            0 <= k < old(self).shadow@[old(self).price_of(old(orders), oid)].chain.len(),
            old(self).shadow@[old(self).price_of(old(orders), oid)].chain[k] == oid,
        ensures
            Self::reduced(old(self), old(orders), final(self), final(orders), oid, qty),
    {
        let ghost s0 = orders@;
        let ghost price = self.price_of(orders, oid);
        let ghost c = self.shadow@[price].chain;
        proof {
            let k0 = self.lemma_locate(orders, oid);
        }
        let mut rec = *orders.peek(oid);
        let mut level = *self.level_arena.index(slot);
        rec.qty = rec.qty - qty;
        level.qty = level.qty - qty;
        orders.set(oid, rec);
        self.level_arena.set(slot, level);
        proof {
            let s1 = orders@;
            let chain0 = model_chain(s0, c);
            let order = RestingOrder { id: oid, qty: rec.qty };
            assert(old(self).level_ok(s0, price));
            assert forall|j: int| 0 <= j < c.len() && j != k implies s1[(#[trigger] c[j]) as int] == s0[c[j] as int] by {
                assert(c[j] != c[k]);
                assert(link_ok(s0, self.id, slot, c, j));
            }
            assert(model_chain(s1, c) =~= chain0.update(k, order));
            lemma_total_update(chain0, k, order);
            assert forall|j: int| 0 <= j < c.len() implies #[trigger] link_ok(s1, self.id, slot, c, j) by {
                assert(link_ok(s0, self.id, slot, c, j));
            }
            assert(self.level_ok(s1, price));
            self.lemma_others_kept(old(self), s0, s1, price, slot);
            assert forall|p: i8| self.shadow@.dom().contains(p) implies #[trigger] self.listed(p) by {
                assert(old(self).listed(p));
                let side = old(self).price_index(negative(p));
                let i = choose|i: int| 0 <= i < side.len() && (#[trigger] side[i]).price == p;
                assert(self.price_index(negative(p))[i].price == p);
            }
            assert forall|x: usize|
                x < s1.len() && (#[trigger] s1[x as int]).book_id == self.id && s1[x as int].qty > 0 implies self.linked(s1, x) by {
                assert(old(self).linked(s0, x));
            }
            let expected = take(old(self).levels(old(orders)), price, oid, qty);
            assert forall|p: i8| self.levels(orders).dom().contains(p) implies #[trigger] self.levels(orders)[p] == expected[p] by {
                if p != price {
                    assert(self.level_ok(s1, p));
                }
            }
            assert(self.levels(orders) =~= expected);
        }
    }

    /// The levels at other prices than `price` are as they were, where the
    /// only records that changed belong to the level in `slot`, the level at
    /// `price`, and no other level's record or slot changed.
    proof fn lemma_others_kept(&self, before: &Orderbook, s0: Seq<OrderChain>, s1: Seq<OrderChain>, price: i8, slot: usize)
        requires
            s0.len() <= s1.len(),
            forall|p: i8| before.shadow@.dom().contains(p) ==> #[trigger] before.level_ok(s0, p),
            before.shadow@.dom().contains(price),
            before.shadow@[price].slot == slot,
            self.id == before.id,
            forall|x: int| 0 <= x < s0.len() && s0[x].level_id != Some(slot) ==> #[trigger] s1[x] == s0[x],
            forall|p: i8| p != price && #[trigger] before.shadow@.dom().contains(p) ==> self.shadow@.dom().contains(p) && self.shadow@[p] == before.shadow@[p],
            forall|i: int| i != slot && before.level_arena.is_allocated(i) ==> #[trigger] self.level_arena.is_allocated(i),
            forall|i: int| i != slot ==> #[trigger] self.level_arena.content(i) == before.level_arena.content(i),
        ensures
            forall|p: i8| before.shadow@.dom().contains(p) && p != price ==> #[trigger] self.level_ok(s1, p),
            forall|p: i8| #[trigger] before.shadow@.dom().contains(p) && p != price ==>
                model_chain(s1, self.shadow@[p].chain) == model_chain(s0, before.shadow@[p].chain),
    {
        assert forall|p: i8| before.shadow@.dom().contains(p) && p != price implies
            #[trigger] self.level_ok(s1, p) && model_chain(s1, self.shadow@[p].chain) == model_chain(s0, before.shadow@[p].chain) by {
            assert(before.level_ok(s0, p));
            assert(before.level_ok(s0, price));
            let sh = before.shadow@[p];
            assert(self.shadow@.dom().contains(p) && self.shadow@[p] == sh);
            assert(sh.slot != slot);
            assert(self.level_arena.is_allocated(sh.slot as int));
            assert(self.level_arena.content(sh.slot as int) == before.level_arena.content(sh.slot as int));
            assert forall|j: int| 0 <= j < sh.chain.len() implies s1[(#[trigger] sh.chain[j]) as int] == s0[sh.chain[j] as int] by {
                assert(link_ok(s0, before.id, sh.slot, sh.chain, j));
                let x = sh.chain[j] as int;
                assert(s0[x].level_id != Some(slot));
                assert(s1[x] == s0[x]);
            }
            lemma_chain_frame(s0, s1, before.id, sh.slot, before.level_arena.content(sh.slot as int)->0, sh.chain);
            assert(chain_linked(s1, self.id, sh.slot, self.level_arena.content(sh.slot as int)->0, sh.chain));
        }
        assert forall|p: i8| #[trigger] before.shadow@.dom().contains(p) && p != price implies
            model_chain(s1, self.shadow@[p].chain) == model_chain(s0, before.shadow@[p].chain) by {
            assert(self.level_ok(s1, p));
        }
    }

    /// Takes all that an order has left while others stay at its level: the
    /// order leaves the chain and its neighbours are linked to each other.
    fn unlink_order(&mut self, orders: &mut BumpAllocator<OrderChain>, oid: usize, slot: usize, Ghost(k): Ghost<int>)
        requires
            old(self).wf(old(orders)),
            old(self).rests(old(orders), oid),
            old(orders)@[oid as int].level_id == Some(slot),
            old(orders)@[oid as int].qty < old(self).level_arena.content(slot as int)->0.qty,
            0 <= k < old(self).shadow@[old(self).price_of(old(orders), oid)].chain.len(),
            old(self).shadow@[old(self).price_of(old(orders), oid)].chain[k] == oid,
        ensures
            Self::reduced(old(self), old(orders), final(self), final(orders), oid, old(orders)@[oid as int].qty),
    {
        let ghost s0 = orders@;
        let ghost price = self.price_of(orders, oid);
        let ghost c = self.shadow@[price].chain;
        proof {
            let k0 = self.lemma_locate(orders, oid);
            if c.len() == 1 {
                lemma_total_single(model_chain(s0, c)[0]);
                assert(model_chain(s0, c) =~= seq![model_chain(s0, c)[0]]);
            }
            if k > 0 {
                assert(link_ok(s0, self.id, slot, c, k - 1));
            }
            if k < c.len() - 1 {
                assert(link_ok(s0, self.id, slot, c, k + 1));
            }
        }
        let mut rec = *orders.peek(oid);
        let mut level = *self.level_arena.index(slot);
        let qty = rec.qty;
        rec.qty = 0;
        level.qty = level.qty - qty;
        orders.set(oid, rec);
        match rec.prev {
            None => {
                level.head = rec.next;
            },
            Some(prev) => {
                let mut before = *orders.peek(prev);
                before.next = rec.next;
                orders.set(prev, before);
            },
        }
        match rec.next {
            None => {
                level.tail = rec.prev;
            },
            Some(next) => {
                let mut after = *orders.peek(next);
                after.prev = rec.prev;
                orders.set(next, after);
            },
        }
        self.level_arena.set(slot, level);
        self.shadow = Ghost(self.shadow@.insert(price, Shadow { slot, chain: c.remove(k) }));
        proof {
            let s1 = orders@;
            let c1 = c.remove(k);
            let chain0 = model_chain(s0, c);
            assert(self.shadow@.dom() =~= old(self).shadow@.dom());
            assert forall|j: int| 0 <= j < c.len() && j != k implies
                (#[trigger] c[j]) != oid && s1[c[j] as int].qty == s0[c[j] as int].qty by {
                assert(link_ok(s0, self.id, slot, c, j));
            }
            assert(model_chain(s1, c1) =~= chain0.remove(k));
            lemma_total_remove(chain0, k);
            assert(c1.no_duplicates()) by {
                assert forall|i: int, j: int| 0 <= i < c1.len() && 0 <= j < c1.len() && i != j implies c1[i] != c1[j] by {
                    let a = if i < k { i } else { i + 1 };
                    let b = if j < k { j } else { j + 1 };
                    assert(c[a] != c[b]);
                }
            }
            assert forall|j: int| 0 <= j < c1.len() implies #[trigger] link_ok(s1, self.id, slot, c1, j) by {
                let a = if j < k { j } else { j + 1 };
                assert(link_ok(s0, self.id, slot, c, a));
                assert(c1[j] == c[a]);
                if a != k - 1 && a != k + 1 {
                    assert(s1[c[a] as int] == s0[c[a] as int]);
                }
            }
            assert(self.level_ok(s1, price));
            assert forall|x: int| 0 <= x < s0.len() && s0[x].level_id != Some(slot) implies #[trigger] s1[x] == s0[x] by {}
            self.lemma_others_kept(old(self), s0, s1, price, slot);
            assert forall|p: i8| self.shadow@.dom().contains(p) implies #[trigger] self.listed(p) by {
                assert(old(self).listed(p));
                let side = old(self).price_index(negative(p));
                let i = choose|i: int| 0 <= i < side.len() && (#[trigger] side[i]).price == p;
                assert(self.price_index(negative(p))[i].price == p);
            }
            assert forall|x: usize|
                x < s1.len() && (#[trigger] s1[x as int]).book_id == self.id && s1[x as int].qty > 0 implies self.linked(s1, x) by {
                assert(s1[x as int].level_id == s0[x as int].level_id && s0[x as int].book_id == self.id && s0[x as int].qty > 0);
                assert(old(self).linked(s0, x));
                let sx = s0[x as int].level_id->0;
                if sx == slot {
                    let j = choose|j: int| 0 <= j < c.len() && c[j] == x;
                    let b = if j < k { j } else { j - 1 };
                    assert(c1[b] == x);
                }
            }
            let expected = take(old(self).levels(old(orders)), price, oid, qty);
            assert forall|p: i8| self.levels(orders).dom().contains(p) implies #[trigger] self.levels(orders)[p] == expected[p] by {
                if p != price {
                    assert(self.level_ok(s1, p));
                }
            }
            assert(self.levels(orders) =~= expected);
        }
    }

    /// Takes all that the last order of a level has left: the level leaves
    /// its side's index and its slot goes back to the level store.
    fn drop_level(&mut self, orders: &mut BumpAllocator<OrderChain>, oid: usize, slot: usize, Ghost(k): Ghost<int>)
        requires
            old(self).wf(old(orders)),
            old(self).rests(old(orders), oid),
            old(orders)@[oid as int].level_id == Some(slot),
            old(orders)@[oid as int].qty == old(self).level_arena.content(slot as int)->0.qty,
            0 <= k < old(self).shadow@[old(self).price_of(old(orders), oid)].chain.len(),
            old(self).shadow@[old(self).price_of(old(orders), oid)].chain[k] == oid,
        ensures
            Self::reduced(old(self), old(orders), final(self), final(orders), oid, old(orders)@[oid as int].qty),
    {
        let ghost s0 = orders@;
        let ghost c = self.shadow@[self.price_of(orders, oid)].chain;
        proof {
            let k0 = self.lemma_locate(orders, oid);
            assert forall|j: int| 0 <= j < c.len() implies (#[trigger] model_chain(s0, c)[j]).qty > 0 by {
                assert(link_ok(s0, self.id, slot, c, j));
            }
            lemma_total_exhausted(model_chain(s0, c), k);
        }
        let mut rec = *orders.peek(oid);
        let level = *self.level_arena.index(slot);
        let price = level.price;
        let ghost qty = rec.qty;
        rec.qty = 0;
        orders.set(oid, rec);
        let ghost side0 = self.price_index(negative(price));
        let (pos, found) = if price < 0 {
            Self::find_level(&self.sorted_yes, price)
        } else {
            Self::find_level(&self.sorted_no, price)
        };
        proof {
            assert(self.listed(price));
            assert(self.side_ok(negative(price)));
        }
        if price < 0 {
            self.sorted_yes.remove(pos);
        } else {
            self.sorted_no.remove(pos);
        }
        self.level_arena.free(slot);
        self.shadow = Ghost(self.shadow@.remove(price));
        proof {
            let s1 = orders@;
            let side1 = self.price_index(negative(price));
            assert(side1 == side0.remove(pos as int));
            assert(self.price_index(!negative(price)) == old(self).price_index(!negative(price)));
            assert(old(self).side_ok(negative(price)));
            assert(old(self).side_ok(!negative(price)));
            assert(self.side_ok(negative(price))) by {
                assert forall|i: int, j: int| 0 <= i < j < side1.len() implies (#[trigger] side1[i]).at() < (#[trigger] side1[j]).at() by {
                    let a = if i < pos { i } else { i + 1 };
                    let b = if j < pos { j } else { j + 1 };
                    assert(side0[a].at() < side0[b].at());
                }
                assert forall|i: int| 0 <= i < side1.len() implies {
                    &&& ((#[trigger] side1[i]).price < 0) == negative(price)
                    &&& self.shadow@.dom().contains(side1[i].price)
                    &&& self.shadow@[side1[i].price].slot == side1[i].level_id
                } by {
                    let a = if i < pos { i } else { i + 1 };
                    assert(side1[i] == side0[a]);
                    if a < pos {
                        assert(side0[a].at() < side0[pos as int].at());
                    } else {
                        assert(side0[pos as int].at() < side0[a].at());
                    }
                }
            }
            assert(self.side_ok(!negative(price)));
            assert forall|p: i8| self.shadow@.dom().contains(p) implies #[trigger] self.listed(p) by {
                assert(old(self).listed(p));
                let side = old(self).price_index(negative(p));
                let i = choose|i: int| 0 <= i < side.len() && (#[trigger] side[i]).price == p;
                if negative(p) == negative(price) {
                    let b = if i < pos { i } else { i - 1 };
                    assert(side1[b] == side0[i]);
                } else {
                    assert(self.price_index(negative(p))[i].price == p);
                }
            }
            assert forall|x: int| 0 <= x < s0.len() && s0[x].level_id != Some(slot) implies #[trigger] s1[x] == s0[x] by {}
            self.lemma_others_kept(old(self), s0, s1, price, slot);
            assert forall|x: usize|
                x < s1.len() && (#[trigger] s1[x as int]).book_id == self.id && s1[x as int].qty > 0 implies self.linked(s1, x) by {
                assert(s1[x as int] == s0[x as int]);
                assert(old(self).linked(s0, x));
                let sx = s0[x as int].level_id->0;
                let px = old(self).level_arena.content(sx as int)->0.price;
                if px == price {
                    let j = choose|j: int| 0 <= j < c.len() && c[j] == x;
                    assert(false);
                }
                assert(old(self).level_ok(s0, px));
            }
            let expected = take(old(self).levels(old(orders)), price, oid, qty);
            assert forall|p: i8| self.levels(orders).dom().contains(p) implies #[trigger] self.levels(orders)[p] == expected[p] by {
                assert(self.level_ok(s1, p));
            }
            assert(self.levels(orders) =~= expected);
        }
    }

    /// Removes order `oid` with all it has left.
    pub fn delete(&mut self, orders: &mut BumpAllocator<OrderChain>, oid: usize) -> (r: Result<PriceLevelResponse, BookError>)
        requires
            old(self).wf(old(orders)),
        ensures
            final(self).wf(final(orders)),
            final(self).tag() == old(self).tag(),
            final(self).level_capacity() == old(self).level_capacity(),
            final(orders).cap() == old(orders).cap(),
            final(orders)@.len() == old(orders)@.len(),
            store_step(old(orders)@, final(orders)@, old(self).tag()),
            !old(self).rests(old(orders), oid) ==> r == Err::<PriceLevelResponse, BookError>(BookError::UnknownOrder)
                && *final(self) == *old(self) && *final(orders) == *old(orders),
            old(self).rests(old(orders), oid) ==> {
                let qty = old(orders)@[oid as int].quantity();
                &&& r == Ok::<PriceLevelResponse, BookError>(
                    PriceLevelResponse { price: old(self).price_of(old(orders), oid), delta: -(qty as int) as i64 },
                )
                &&& Self::reduced(old(self), old(orders), final(self), final(orders), oid, qty)
            },
    {
        if oid >= orders.len() {
            return Err(BookError::UnknownOrder);
        }
        let order_qty = orders.peek(oid).qty;
        self.reduce_order(orders, oid, order_qty)
    }

    /// Takes `qty` off order `oid`; see `reduce_order`.
    pub fn reduce(&mut self, orders: &mut BumpAllocator<OrderChain>, oid: usize, qty: u64) -> (r: Result<PriceLevelResponse, BookError>)
        requires
            old(self).wf(old(orders)),
        ensures
            final(self).wf(final(orders)),
            final(self).tag() == old(self).tag(),
            final(self).level_capacity() == old(self).level_capacity(),
            final(orders).cap() == old(orders).cap(),
            final(orders)@.len() == old(orders)@.len(),
            store_step(old(orders)@, final(orders)@, old(self).tag()),
            match old(self).reduce_refusal(old(orders), oid, qty) {
                Some(e) => r == Err::<PriceLevelResponse, BookError>(e) && *final(self) == *old(self) && *final(orders) == *old(orders),
                None => {
                    &&& r == Ok::<PriceLevelResponse, BookError>(
                        PriceLevelResponse { price: old(self).price_of(old(orders), oid), delta: -(qty as int) as i64 },
                    )
                    &&& Self::reduced(old(self), old(orders), final(self), final(orders), oid, qty)
                },
            },
    {
        self.reduce_order(orders, oid, qty)
    }

    /// The best price of a side is the price of the last entry of its index.
    proof fn lemma_best(&self, orders: &BumpAllocator<OrderChain>, neg: bool)
        requires
            self.wf(orders),
        ensures
            self.price_index(neg).len() == 0 ==> best_price(self.levels(orders), neg) is None,
            self.price_index(neg).len() > 0 ==> best_price(self.levels(orders), neg) == Some(
                self.price_index(neg).last().price,
            ),
    {
        let side = self.price_index(neg);
        let levels = self.levels(orders);
        assert(self.side_ok(neg));
        if side.len() == 0 {
            assert forall|q: i8| negative(q) == neg implies !#[trigger] levels.dom().contains(q) by {
                if levels.dom().contains(q) {
                    assert(self.listed(q));
                }
            }
            if neg {
                lemma_best_between_none(levels, -128, -1);
            } else {
                lemma_best_between_none(levels, 0, 127);
            }
        } else {
            let top = side.last().price;
            assert(side[side.len() - 1].price == top);
            assert forall|q: i8| negative(q) == neg && top < q implies !#[trigger] levels.dom().contains(q) by {
                if levels.dom().contains(q) {
                    assert(self.listed(q));
                    let i = choose|i: int| 0 <= i < side.len() && (#[trigger] side[i]).price == q;
                    if i < side.len() - 1 {
                        assert(side[i].at() < side[side.len() - 1].at());
                    }
                }
            }
            if neg {
                lemma_best_between_top(levels, -128, -1, top);
            } else {
                lemma_best_between_top(levels, 0, 127, top);
            }
        }
    }

    /// The oldest order of the best level on the side opposite to `price`,
    /// with that level's price. Whether the prices cross is not looked at.
    pub fn best_order(&self, orders: &BumpAllocator<OrderChain>, price: i8) -> (r: Option<(usize, i8)>)
        requires
            self.wf(orders),
        ensures
            match best_price(self.levels(orders), !negative(price)) {
                None => r is None,
                Some(lp) => {
                    let chain = self.levels(orders)[lp];
                    &&& self.levels(orders).dom().contains(lp)
                    &&& chain.len() > 0
                    &&& r == Some((chain[0].id, lp))
                    &&& self.rests(orders, chain[0].id)
                    &&& self.price_of(orders, chain[0].id) == lp
                    &&& orders@[chain[0].id as int].quantity() == chain[0].qty
                },
            },
    {
        proof {
            self.lemma_best(orders, !negative(price));
        }
        let side = if price < 0 {
            &self.sorted_no
        } else {
            &self.sorted_yes
        };
        if side.len() == 0 {
            None
        } else {
            let entry = side[side.len() - 1];
            proof {
                assert(self.side_ok(!negative(price)));
                assert(self.price_index(!negative(price))[side.len() - 1] == entry);
                assert(self.level_ok(orders@, entry.price));
                assert(link_ok(orders@, self.id, entry.level_id, self.shadow@[entry.price].chain, 0));
            }
            let level = *self.level_arena.index(entry.level_id);
            Some((level.head.unwrap(), level.price))
        }
    }

    /// Why `match_order` would refuse an order of `qty` at `price`, if it
    /// would: the order is refused where what its sweep leaves could not
    /// come to rest in the book that the sweep leaves.
    pub open spec fn match_refusal<P: CrossingPolicy>(
        &self,
        orders: &BumpAllocator<OrderChain>,
        policy: P,
        qty: u64,
        price: i8,
    ) -> Option<BookError> {
        let sw = sweep(policy, self.levels(orders), qty, price);
        if sw.remaining == 0 {
            None
        } else if sw.remaining > i64::MAX {
            Some(BookError::QuantityTooLarge)
        } else if orders@.len() >= orders.cap() {
            Some(BookError::OrderStoreFull)
        } else if self.levels(orders).dom().contains(price) {
            if self.level_qty(price) + sw.remaining > u64::MAX {
                Some(BookError::LevelOverflow)
            } else {
                None
            }
        } else if sw.levels.dom().len() >= self.level_capacity() {
            Some(BookError::LevelStoreFull)
        } else {
            None
        }
    }

    /// The best price of a side of which the levels from place `i` of the
    /// index on are left out.
    proof fn lemma_best_of_cut(&self, cut: Ladder, opp: bool, i: int)
        requires
            self.side_ok(opp),
            0 <= i <= self.price_index(opp).len(),
            forall|j: int| 0 <= j < i ==> cut.dom().contains((#[trigger] self.price_index(opp)[j]).price),
            forall|q: i8| #[trigger] cut.dom().contains(q) && negative(q) == opp ==> exists|j: int|
                0 <= j < i && (#[trigger] self.price_index(opp)[j]).price == q,
        ensures
            i == 0 ==> best_price(cut, opp) is None,
            i > 0 ==> best_price(cut, opp) == Some(self.price_index(opp)[i - 1].price),
    {
        let side = self.price_index(opp);
        if i == 0 {
            assert forall|q: i8| negative(q) == opp implies !#[trigger] cut.dom().contains(q) by {}
            if opp {
                lemma_best_between_none(cut, -128, -1);
            } else {
                lemma_best_between_none(cut, 0, 127);
            }
        } else {
            let top = side[i - 1].price;
            assert forall|q: i8| negative(q) == opp && top < q implies !#[trigger] cut.dom().contains(q) by {
                if cut.dom().contains(q) {
                    let j = choose|j: int| 0 <= j < i && (#[trigger] side[j]).price == q;
                    if j < i - 1 {
                        assert(side[j].at() < side[i - 1].at());
                    }
                }
            }
            if opp {
                lemma_best_between_top(cut, -128, -1, top);
            } else {
                lemma_best_between_top(cut, 0, 127, top);
            }
        }
    }

    /// What a sweep for `qty` at `price` would leave unfilled, and how many
    /// levels it would use up. Nothing is changed.
    fn plan<P: CrossingPolicy>(&self, orders: &BumpAllocator<OrderChain>, qty: u64, price: i8, policy: &P) -> (r: (
        u64,
        usize,
    ))
        requires
            self.wf(orders),
            qty > 0,
        ensures
            r.0 == sweep(*policy, self.levels(orders), qty, price).remaining,
            sweep(*policy, self.levels(orders), qty, price).levels.dom().finite(),
            sweep(*policy, self.levels(orders), qty, price).levels.dom().len() + r.1 == self.levels(
                orders,
            ).dom().len(),
    {
        let side = if price < 0 {
            &self.sorted_no
        } else {
            &self.sorted_yes
        };
        let ghost opp = !negative(price);
        let ghost levels0 = self.levels(orders);
        let ghost mut cut = levels0;
        let mut left: u64 = qty;
        let mut i: usize = side.len();
        let mut dropped: usize = 0;
        proof {
            self.lemma_level_count(orders);
            assert(self.side_ok(opp));
            assert forall|q: i8| #[trigger] cut.dom().contains(q) && negative(q) == opp implies exists|j: int|
                0 <= j < i && (#[trigger] side@[j]).price == q by {
                assert(self.listed(q));
            }
        }
        loop
            invariant
                self.wf(orders),
                self.side_ok(opp),
                side@ == self.price_index(opp),
                opp == !negative(price),
                levels0 == self.levels(orders),
                i <= side@.len(),
                side@.len() <= usize::MAX,
                left > 0,
                dropped == side@.len() - i,
                cut.dom().finite(),
                cut.dom().len() + dropped == levels0.dom().len(),
                forall|j: int| 0 <= j < i ==> cut.dom().contains((#[trigger] side@[j]).price) && cut[side@[j].price]
                    == levels0[side@[j].price],
                forall|q: i8| #[trigger] cut.dom().contains(q) && negative(q) == opp ==> exists|j: int|
                    0 <= j < i && (#[trigger] side@[j]).price == q,
                sweep(*policy, levels0, qty, price).remaining == sweep(*policy, cut, left, price).remaining,
                sweep(*policy, levels0, qty, price).levels.dom() == sweep(*policy, cut, left, price).levels.dom(),
            decreases i,
        {
            proof {
                self.lemma_best_of_cut(cut, opp, i as int);
            }
            if i == 0 {
                return (left, dropped);
            }
            let entry = side[i - 1];
            if !policy.crosses(entry.price, price) {
                return (left, dropped);
            }
            proof {
                assert(self.price_index(opp)[i - 1] == entry);
                assert(self.level_ok(orders@, entry.price));
                self.lemma_level_qty(orders, entry.price);
                self.lemma_chains_ok(orders, entry.price);
                lemma_sweep_level(*policy, cut, left, price, entry.price);
            }
            let level = *self.level_arena.index(entry.level_id);
            if left < level.qty {
                return (0, dropped);
            }
            if left == level.qty {
                return (0, dropped + 1);
            }
            left = left - level.qty;
            proof {
                let gone = cut.remove(entry.price);
                assert forall|j: int| 0 <= j < i - 1 implies gone.dom().contains((#[trigger] side@[j]).price) && gone[side@[j].price]
                    == levels0[side@[j].price] by {
                    assert(side@[j].at() < side@[i - 1].at());
                }
                assert forall|q: i8| #[trigger] gone.dom().contains(q) && negative(q) == opp implies exists|j: int|
                    0 <= j < i - 1 && (#[trigger] side@[j]).price == q by {
                    assert(cut.dom().contains(q));
                    let j = choose|j: int| 0 <= j < i && (#[trigger] side@[j]).price == q;
                    assert(j != i - 1);
                }
                cut = gone;
            }
            i = i - 1;
            dropped = dropped + 1;
        }
    }

    /// A sweep for nothing leaves nothing.
    proof fn lemma_sweep_nothing<P: CrossingPolicy>(policy: P, levels: Ladder, price: i8)
        ensures
            sweep(policy, levels, 0, price).remaining == 0,
    {
    }

    /// Matches an incoming order of `qty` at `price` against the opposite
    /// side, best level first and oldest order first, as long as `policy` lets
    /// the prices cross; what is left comes to rest. Returns the events in the
    /// order in which they happened: two for each fill, then two for the
    /// order that came to rest, if one did.
    pub fn match_order<P: CrossingPolicy>(
        &mut self,
        orders: &mut BumpAllocator<OrderChain>,
        qty: u64,
        price: i8,
        policy: &P,
    ) -> (r: Result<Vec<OBResponseWrapper>, BookError>)
        requires
            old(self).wf(old(orders)),
        ensures
            final(self).wf(final(orders)),
            final(self).tag() == old(self).tag(),
            final(self).level_capacity() == old(self).level_capacity(),
            final(orders).cap() == old(orders).cap(),
            store_step(old(orders)@, final(orders)@, old(self).tag()),
            match old(self).match_refusal(old(orders), *policy, qty, price) {
                Some(e) => r == Err::<Vec<OBResponseWrapper>, BookError>(e) && *final(self) == *old(self)
                    && *final(orders) == *old(orders),
                None => {
                    let sw = sweep(*policy, old(self).levels(old(orders)), qty, price);
                    let oid = old(orders)@.len() as usize;
                    &&& r is Ok
                    &&& filled(r->Ok_0@) + sw.remaining == qty
                    &&& sw.remaining == 0 ==> {
                        &&& r->Ok_0@ == sw.events
                        &&& final(self).levels(final(orders)) == sw.levels
                        &&& final(orders)@.len() == old(orders)@.len()
                    }
                    &&& sw.remaining > 0 ==> {
                        &&& r->Ok_0@ == sw.events + rest_events(oid, price, sw.remaining)
                        &&& final(self).levels(final(orders)) == rest(
                            sw.levels,
                            price,
                            RestingOrder { id: oid, qty: sw.remaining },
                        )
                        &&& final(orders)@.len() == old(orders)@.len() + 1
                    }
                },
            },
    {
        let mut dropped: usize = 0;
        if qty > 0 {
            // Refuse the order before anything changes, where what its
            // sweep leaves could not come to rest.
            let (remaining, used_up) = self.plan(orders, qty, price, policy);
            dropped = used_up;
            if remaining > 0 {
                if remaining > i64::MAX as u64 {
                    return Err(BookError::QuantityTooLarge);
                }
                if orders.is_full() {
                    return Err(BookError::OrderStoreFull);
                }
                let (pos, found) = if price < 0 {
                    Self::find_level(&self.sorted_yes, price)
                } else {
                    Self::find_level(&self.sorted_no, price)
                };
                proof {
                    if !found && self.shadow@.dom().contains(price) {
                        assert(self.listed(price));
                    }
                    if found {
                        assert(self.price_index(negative(price))[pos as int].price == price);
                        assert(self.side_ok(negative(price)));
                    }
                    assert(self.levels(orders).dom().contains(price) == self.shadow@.dom().contains(price));
                    self.lemma_level_count(orders);
                }
                if found {
                    let slot = if price < 0 {
                        self.sorted_yes[pos].level_id
                    } else {
                        self.sorted_no[pos].level_id
                    };
                    assert(self.level_ok(orders@, price));
                    let level = *self.level_arena.index(slot);
                    if level.qty > u64::MAX - remaining {
                        return Err(BookError::LevelOverflow);
                    }
                } else {
                    if self.level_arena.len() - dropped >= self.level_arena.limit() {
                        return Err(BookError::LevelStoreFull);
                    }
                }
            }
        } else {
            proof {
                Self::lemma_sweep_nothing(*policy, self.levels(orders), price);
            }
        }
        let ghost levels0 = self.levels(orders);
        let ghost s0 = orders@;
        let ghost sw0 = sweep(*policy, levels0, qty, price);
        let ghost count0 = self.level_count();
        let mut actions: Vec<OBResponseWrapper> = Vec::new();
        let mut left: u64 = qty;
        let mut done: bool = false;
        proof {
            assert(actions@ + sw0.events =~= sw0.events);
            self.lemma_level_qty(orders, price);
        }
        while !done
            invariant
                self.wf(orders),
                self.tag() == old(self).tag(),
                self.level_capacity() == old(self).level_capacity(),
                orders.cap() == old(orders).cap(),
                orders@.len() == s0.len(),
                store_step(s0, orders@, self.tag()),
                self.level_count() <= count0,
                left <= qty,
                chain_at(self.levels(orders), price) == chain_at(levels0, price),
                self.levels(orders).dom().contains(price) == levels0.dom().contains(price),
                sw0 == sweep(*policy, levels0, qty, price),
                done ==> {
                    &&& sw0.levels == self.levels(orders)
                    &&& sw0.events == actions@
                    &&& sw0.remaining == left
                },
                !done ==> {
                    let sw = sweep(*policy, self.levels(orders), left, price);
                    &&& sw0.levels == sw.levels
                    &&& sw0.events == actions@ + sw.events
                    &&& sw0.remaining == sw.remaining
                },
            decreases (if done { 0int } else { 1int }) + left,
        {
            let ghost levels1 = self.levels(orders);
            let ghost s1 = orders@;
            let ghost sw1 = sweep(*policy, levels1, left, price);
            let ghost done_before = actions@;
            match self.best_order(orders, price) {
                None => {
                    proof {
                        assert(actions@ + sw1.events =~= actions@);
                    }
                    done = true;
                },
                Some((lh, lp)) => {
                    if policy.crosses(lp, price) {
                        let head_qty = orders.peek(lh).qty;
                        let fill = if left <= head_qty { left } else { head_qty };
                        let r = self.reduce_order(orders, lh, fill);
                        let delta = r.unwrap();
                        left = left - fill;
                        actions.push(OBResponseWrapper::new(OBResponse::Execute(ExecuteResponse::new(lh, fill))));
                        actions.push(OBResponseWrapper::new(OBResponse::Price(delta)));
                        proof {
                            let events = fill_events(lh, lp, fill);
                            let after = take(levels1, lp, lh, fill);
                            assert(self.levels(orders) == after);
                            assert(actions@ =~= done_before + events) by {
                                assert(events.len() == 2);
                            }
                            lemma_store_step_trans(s0, s1, orders@, self.tag());
                            lemma_best_price_side(levels1, !negative(price));
                            assert(lp != price);
                            assert(chain_at(after, price) == chain_at(levels1, price));
                            if fill == 0 || fill == left + fill {
                            } else {
                                let more = sweep(*policy, after, left, price);
                                assert(done_before + (events + more.events) =~= (done_before + events) + more.events);
                            }
                        }
                        if left == 0 {
                            done = true;
                        }
                    } else {
                        proof {
                            assert(actions@ + sw1.events =~= actions@);
                        }
                        done = true;
                    }
                },
            }
        }
        proof {
            lemma_sweep_conserves(*policy, levels0, qty, price);
        }
        if left > 0 {
            proof {
                self.lemma_level_qty(orders, price);
                self.lemma_level_count(orders);
            }
            let ghost s1 = orders@;
            let ghost before = actions@;
            let added = self.add(orders, left, price);
            let oid = added.unwrap();
            actions.push(OBResponseWrapper::new(OBResponse::Add(AddResponse::new(oid))));
            actions.push(OBResponseWrapper::new(OBResponse::Price(PriceLevelResponse::new(price, left as i64))));
            proof {
                lemma_store_step_trans(s0, s1, orders@, self.tag());
                let events = rest_events(oid, price, left);
                assert(actions@ =~= before + events);
                lemma_filled_concat(before, events);
                lemma_filled_rest(oid, price, left);
            }
        }
        Ok(actions)
    }

    /// The level at `price`, if the book has one.
    pub fn level(&self, orders: &BumpAllocator<OrderChain>, price: i8) -> (r: Option<Level>)
        requires
            self.wf(orders),
        ensures
            r is Some <==> self.levels(orders).dom().contains(price),
            r matches Some(l) ==> {
                let chain = self.levels(orders)[price];
                &&& chain.len() > 0
                &&& l.at() == price
                &&& l.aggregate() == self.level_qty(price)
                &&& l.first() == Some(chain[0].id)
                &&& l.last() == Some(chain.last().id)
            },
    {
        let (pos, found) = if price < 0 {
            Self::find_level(&self.sorted_yes, price)
        } else {
            Self::find_level(&self.sorted_no, price)
        };
        proof {
            if !found && self.shadow@.dom().contains(price) {
                assert(self.listed(price));
            }
            if found {
                assert(self.price_index(negative(price))[pos as int].price == price);
                assert(self.side_ok(negative(price)));
                assert(self.level_ok(orders@, price));
            }
        }
        if found {
            let slot = if price < 0 {
                self.sorted_yes[pos].level_id
            } else {
                self.sorted_no[pos].level_id
            };
            Some(*self.level_arena.index(slot))
        } else {
            None
        }
    }

    /// The level that the resting order `oid` belongs to.
    pub fn level_of(&self, orders: &BumpAllocator<OrderChain>, oid: usize) -> (r: Option<Level>)
        requires
            self.wf(orders),
        ensures
            r is Some <==> self.rests(orders, oid),
            r matches Some(l) ==> {
                let price = self.price_of(orders, oid);
                let chain = self.levels(orders)[price];
                &&& self.levels(orders).dom().contains(price)
                &&& chain.len() > 0
                &&& l.at() == price
                &&& l.aggregate() == self.level_qty(price)
                &&& l.first() == Some(chain[0].id)
                &&& l.last() == Some(chain.last().id)
            },
    {
        if oid >= orders.len() {
            return None;
        }
        let rec = *orders.peek(oid);
        if rec.book_id != self.id || rec.qty == 0 {
            return None;
        }
        proof {
            let k = self.lemma_locate(orders, oid);
        }
        Some(*self.level_arena.index(rec.level_id.unwrap()))
    }

    /// The number of levels in the book.
    pub fn level_len(&self) -> (n: usize)
        ensures
            n == self.level_count(),
    {
        self.level_arena.len()
    }

    /// The prices of one side in the order of its index, best price last.
    pub fn prices(&self, negative_side: bool) -> (out: Vec<i8>)
        ensures
            out@.len() == self.price_index(negative_side).len(),
            forall|i: int| 0 <= i < out@.len() ==> out@[i] == (#[trigger] self.price_index(negative_side)[i]).at(),
    {
        let side = if negative_side {
            &self.sorted_yes
        } else {
            &self.sorted_no
        };
        let mut out: Vec<i8> = Vec::new();
        let mut i: usize = 0;
        while i < side.len()
            invariant
                i <= side@.len(),
                side@ == self.price_index(negative_side),
                out@.len() == i,
                forall|j: int| 0 <= j < i ==> out@[j] == (#[trigger] side@[j]).at(),
            decreases side@.len() - i,
        {
            out.push(side[i].price);
            i = i + 1;
        }
        out
    }

    /// Writes the aggregates of the levels of one side into `view`.
    fn view_side(&self, orders: &BumpAllocator<OrderChain>, negative_side: bool, view: &mut [u64; 256])
        requires
            self.wf(orders),
            forall|p: i8| (#[trigger] old(view)@[bucket(p)]) == 0 || old(view)@[bucket(p)] == self.level_qty(p),
        ensures
            forall|p: i8| (#[trigger] final(view)@[bucket(p)]) == 0 || final(view)@[bucket(p)] == self.level_qty(p),
            forall|p: i8| negative(p) != negative_side ==> (#[trigger] final(view)@[bucket(p)]) == old(view)@[bucket(p)],
            forall|p: i8| negative(p) == negative_side && self.levels(orders).dom().contains(p)
                ==> (#[trigger] final(view)@[bucket(p)]) == self.level_qty(p),
    {
        let side = if negative_side {
            &self.sorted_yes
        } else {
            &self.sorted_no
        };
        proof {
            assert(self.side_ok(negative_side));
        }
        let mut i: usize = 0;
        while i < side.len()
            invariant
                i <= side@.len(),
                self.wf(orders),
                side@ == self.price_index(negative_side),
                forall|p: i8| (#[trigger] view@[bucket(p)]) == 0 || view@[bucket(p)] == self.level_qty(p),
                forall|p: i8| negative(p) != negative_side ==> (#[trigger] view@[bucket(p)]) == old(view)@[bucket(p)],
                forall|j: int| 0 <= j < i ==> view@[bucket((#[trigger] side@[j]).price)] == self.level_qty(side@[j].price),
            decreases side@.len() - i,
        {
            let entry = side[i];
            proof {
                assert(self.side_ok(negative_side));
                assert(self.price_index(negative_side)[i as int] == entry);
                assert(self.level_ok(orders@, entry.price));
            }
            let level = self.level_arena.index(entry.level_id);
            let at: usize = (entry.price as i16 + 128) as usize;
            let ghost before = view@;
            view[at] = level.qty;
            proof {
                assert(view@ == before.update(bucket(entry.price), level.qty));
                assert forall|j: int| 0 <= j < i implies view@[bucket((#[trigger] side@[j]).price)] == self.level_qty(side@[j].price) by {
                    assert(side@[j].at() < side@[i as int].at());
                }
            }
            i = i + 1;
        }
        proof {
            assert forall|p: i8| negative(p) == negative_side && self.levels(orders).dom().contains(p)
                implies (#[trigger] view@[bucket(p)]) == self.level_qty(p) by {
                assert(self.listed(p));
                let j = choose|j: int| 0 <= j < side@.len() && (#[trigger] side@[j]).price == p;
                assert(view@[bucket(side@[j].price)] == self.level_qty(side@[j].price));
            }
        }
    }

    /// The resting quantity at every price: entry `price + 128` holds the
    /// aggregate of the level at `price`, or zero where there is no level.
    pub fn get_level_view(&self, orders: &BumpAllocator<OrderChain>) -> (view: [u64; 256])
        requires
            self.wf(orders),
        ensures
            forall|p: i8| (#[trigger] view@[bucket(p)]) == self.level_qty(p),
    {
        let mut ret: [u64; 256] = [0;256];
        self.view_side(orders, true, &mut ret);
        self.view_side(orders, false, &mut ret);
        ret
    }

    /// Empties the book and the order store: both indexes, the level store
    /// and every order record. Other books that keep orders in the same
    /// store must be cleared with it.
    pub fn clear(&mut self, orders: &mut BumpAllocator<OrderChain>)
        ensures
            final(self).wf(final(orders)),
            final(self).tag() == old(self).tag(),
            final(self).level_capacity() == old(self).level_capacity(),
            final(self).level_count() == 0,
            final(self).levels(final(orders)) == Map::<i8, Seq<RestingOrder>>::empty(),
            final(self).price_index(true) == Seq::<PriceLevel>::empty(),
            final(self).price_index(false) == Seq::<PriceLevel>::empty(),
            final(orders)@ == Seq::<OrderChain>::empty(),
            final(orders).cap() == old(orders).cap(),
    {
        self.sorted_yes.clear();
        self.sorted_no.clear();
        orders.clear();
        self.level_arena.clear();
        self.shadow = Ghost(Map::empty());
        proof {
            assert(self.levels(orders) =~= Map::<i8, Seq<RestingOrder>>::empty());
        }
    }
}

/// What holds of every book that fits its order store.
impl Orderbook {
    /// A store that a book fits is itself in order.
    pub proof fn lemma_wf_store(&self, orders: &BumpAllocator<OrderChain>)
        requires
            self.wf(orders),
        ensures
            orders.wf(),
    {
    }

    /// The aggregate that a level records is the sum of its chain.
    pub proof fn lemma_level_qty(&self, orders: &BumpAllocator<OrderChain>, price: i8)
        requires
            self.wf(orders),
        ensures
            self.level_qty(price) == total(chain_at(self.levels(orders), price)),
            self.levels(orders).dom().contains(price) ==> self.level_qty(price) > 0,
    {
        if self.shadow@.dom().contains(price) {
            assert(self.level_ok(orders@, price));
            let c = self.shadow@[price].chain;
            assert(link_ok(orders@, self.id, self.shadow@[price].slot, c, 0));
            lemma_total_bounds(model_chain(orders@, c), 0);
        }
    }

    /// The index of each side is strictly ascending by price, holds prices of
    /// its own side only, and the two indexes together name exactly the
    /// prices that have a level.
    pub proof fn lemma_index_sorted(&self, orders: &BumpAllocator<OrderChain>, neg: bool)
        requires
            self.wf(orders),
        ensures
            ascending(self.price_index(neg)),
            forall|i: int| 0 <= i < self.price_index(neg).len() ==> {
                &&& negative((#[trigger] self.price_index(neg)[i]).at()) == neg
                &&& self.levels(orders).dom().contains(self.price_index(neg)[i].at())
            },
            forall|p: i8| #[trigger] self.levels(orders).dom().contains(p) && negative(p) == neg ==> exists|i: int|
                0 <= i < self.price_index(neg).len() && (#[trigger] self.price_index(neg)[i]).at() == p,
            self.level_count() == self.price_index(true).len() + self.price_index(false).len(),
    {
        assert(self.side_ok(neg));
        assert forall|p: i8| #[trigger] self.levels(orders).dom().contains(p) && negative(p) == neg implies exists|i: int|
            0 <= i < self.price_index(neg).len() && (#[trigger] self.price_index(neg)[i]).at() == p by {
            assert(self.listed(p));
        }
    }

    /// The book holds one level for each price of the model, and no other.
    pub proof fn lemma_level_count(&self, orders: &BumpAllocator<OrderChain>)
        requires
            self.wf(orders),
        ensures
            self.levels(orders).dom().finite(),
            self.level_count() == self.levels(orders).dom().len(),
    {
        let yes = Seq::new(self.price_index(true).len(), |i: int| self.price_index(true)[i].price);
        let no = Seq::new(self.price_index(false).len(), |i: int| self.price_index(false)[i].price);
        assert(self.side_ok(true));
        assert(self.side_ok(false));
        assert(yes.no_duplicates()) by {
            assert forall|i: int, j: int| 0 <= i < yes.len() && 0 <= j < yes.len() && i != j implies yes[i] != yes[j] by {
                if i < j {
                    assert(self.price_index(true)[i].at() < self.price_index(true)[j].at());
                } else {
                    assert(self.price_index(true)[j].at() < self.price_index(true)[i].at());
                }
            }
        }
        assert(no.no_duplicates()) by {
            assert forall|i: int, j: int| 0 <= i < no.len() && 0 <= j < no.len() && i != j implies no[i] != no[j] by {
                if i < j {
                    assert(self.price_index(false)[i].at() < self.price_index(false)[j].at());
                } else {
                    assert(self.price_index(false)[j].at() < self.price_index(false)[i].at());
                }
            }
        }
        yes.unique_seq_to_set();
        no.unique_seq_to_set();
        vstd::seq_lib::seq_to_set_is_finite(yes);
        vstd::seq_lib::seq_to_set_is_finite(no);
        let ys = yes.to_set();
        let ns = no.to_set();
        assert(ys.disjoint(ns)) by {
            assert forall|p: i8| ys.contains(p) && ns.contains(p) implies false by {
                let i = choose|i: int| 0 <= i < yes.len() && yes[i] == p;
                let j = choose|j: int| 0 <= j < no.len() && no[j] == p;
                assert(self.price_index(true)[i].price < 0);
                assert(self.price_index(false)[j].price >= 0);
            }
        }
        let dom = self.levels(orders).dom();
        assert(dom =~= ys + ns) by {
            assert forall|p: i8| dom.contains(p) <==> (ys + ns).contains(p) by {
                if dom.contains(p) {
                    assert(self.listed(p));
                    let side = self.price_index(negative(p));
                    let i = choose|i: int| 0 <= i < side.len() && (#[trigger] side[i]).price == p;
                    if negative(p) {
                        assert(yes[i] == p);
                    } else {
                        assert(no[i] == p);
                    }
                }
                if ys.contains(p) {
                    let i = choose|i: int| 0 <= i < yes.len() && yes[i] == p;
                    assert(self.shadow@.dom().contains(self.price_index(true)[i].price));
                }
                if ns.contains(p) {
                    let j = choose|j: int| 0 <= j < no.len() && no[j] == p;
                    assert(self.shadow@.dom().contains(self.price_index(false)[j].price));
                }
            }
        }
        vstd::set_lib::lemma_set_disjoint_lens(ys, ns);
    }

    /// Every chain of the book holds at least one order, no order twice and
    /// no order without quantity.
    pub proof fn lemma_chains_ok(&self, orders: &BumpAllocator<OrderChain>, price: i8)
        requires
            self.wf(orders),
            self.levels(orders).dom().contains(price),
        ensures
            self.levels(orders)[price].len() > 0,
            chain_ok(self.levels(orders)[price]),
    {
        assert(self.level_ok(orders@, price));
        let c = self.shadow@[price].chain;
        let chain = self.levels(orders)[price];
        assert forall|i: int| 0 <= i < chain.len() implies (#[trigger] chain[i]).qty > 0 by {
            assert(link_ok(orders@, self.id, self.shadow@[price].slot, c, i));
        }
        assert forall|i: int, j: int| 0 <= i < j < chain.len() implies (#[trigger] chain[i]).id != (#[trigger] chain[j]).id by {
            assert(c[i] != c[j]);
        }
    }

    /// Each order of a chain is linked to its neighbours: the model's chain
    /// is the chain that the records of the order store spell out.
    pub proof fn lemma_chain_linked(&self, orders: &BumpAllocator<OrderChain>, price: i8, k: int)
        requires
            self.wf(orders),
            self.levels(orders).dom().contains(price),
            0 <= k < self.levels(orders)[price].len(),
        ensures
            ({
                let chain = self.levels(orders)[price];
                let rec = orders@[chain[k].id as int];
                &&& chain[k].id < orders@.len()
                &&& self.rests(orders, chain[k].id)
                &&& self.price_of(orders, chain[k].id) == price
                &&& rec.quantity() == chain[k].qty
                &&& rec.predecessor() == (if k == 0 {
                    None
                } else {
                    Some(chain[k - 1].id)
                })
                &&& rec.successor() == (if k == chain.len() - 1 {
                    None
                } else {
                    Some(chain[k + 1].id)
                })
            }),
    {
        assert(self.level_ok(orders@, price));
        assert(link_ok(orders@, self.id, self.shadow@[price].slot, self.shadow@[price].chain, k));
    }

    /// An order that rests in the book stands in the chain of its level.
    pub proof fn lemma_resting_is_chained(&self, orders: &BumpAllocator<OrderChain>, oid: usize)
        requires
            self.wf(orders),
            self.rests(orders, oid),
        ensures
            ({
                let price = self.price_of(orders, oid);
                let chain = self.levels(orders)[price];
                let k = position(chain, oid);
                &&& self.levels(orders).dom().contains(price)
                &&& 0 <= k < chain.len()
                &&& chain[k] == RestingOrder { id: oid, qty: orders@[oid as int].quantity() }
                &&& forall|j: int| 0 <= j < chain.len() && j != k ==> (#[trigger] chain[j]).id != oid
            }),
    {
        let k = self.lemma_locate(orders, oid);
        let c = self.shadow@[self.price_of(orders, oid)].chain;
        assert forall|j: int| 0 <= j < c.len() && j != k implies c[j] != oid by {
            assert(c[j] != c[k]);
        }
    }

    /// What another book does to the shared order store leaves this book as
    /// it is.
    pub proof fn lemma_foreign_step(&self, before: &BumpAllocator<OrderChain>, after: &BumpAllocator<OrderChain>, id: u16)
        requires
            self.wf(before),
            after.wf(),
            store_step(before@, after@, id),
            id != self.tag(),
        ensures
            self.wf(after),
            self.levels(after) == self.levels(before),
    {
        let s0 = before@;
        let s1 = after@;
        assert forall|p: i8| self.shadow@.dom().contains(p) implies #[trigger] self.level_ok(s1, p)
            && model_chain(s1, self.shadow@[p].chain) == model_chain(s0, self.shadow@[p].chain) by {
            assert(self.level_ok(s0, p));
            let sh = self.shadow@[p];
            assert forall|k: int| 0 <= k < sh.chain.len() implies s1[(#[trigger] sh.chain[k]) as int] == s0[sh.chain[k] as int] by {
                assert(link_ok(s0, self.id, sh.slot, sh.chain, k));
            }
            lemma_chain_frame(s0, s1, self.id, sh.slot, self.level_arena.content(sh.slot as int)->0, sh.chain);
        }
        assert forall|x: usize|
            x < s1.len() && (#[trigger] s1[x as int]).book_id == self.id && s1[x as int].qty > 0 implies self.linked(s1, x) by {
            if x < s0.len() {
                assert(s1[x as int].owner() == s0[x as int].owner());
                assert(s1[x as int] == s0[x as int]);
                assert(self.linked(s0, x));
            }
        }
        assert forall|p: i8| self.levels(after).dom().contains(p) implies #[trigger] self.levels(after)[p] == self.levels(before)[p] by {
            assert(self.level_ok(s1, p));
        }
        assert(self.levels(after) =~= self.levels(before));
    }
}

} // verus!
