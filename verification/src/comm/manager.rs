//! The book manager: a fixed number of order books over one shared order
//! store, addressed by a zero-based book id, and the engine's answer to each
//! request.

use vstd::prelude::*;
use crate::book::book::{bucket, BookError, OrderChain, Orderbook, store_step};
use crate::book::bump::BumpAllocator;
use crate::book::model::{
    filled, rest, rest_events, sweep, take, CrossingPolicy, Ladder, RestingOrder,
};
use crate::comm::urcp::{
    DelimResponse, OBRequest, OBRequestWrapper, OBResponse, OBResponseWrapper, PriceLevelResponse,
    PriceViewResponse,
};

verus! {

/// Why the engine could not serve a request.
#[derive(Clone, Copy, Debug, PartialEq, Eq)]
pub enum EngineError {
    /// The book id names no book of this manager.
    UnknownBook,
    /// The addressed book refused the operation.
    Book(BookError),
}

/// The engine's answer to one request.
#[derive(Clone, Debug, PartialEq, Eq)]
pub enum Reply {
    /// A sequence of events, to be followed on the wire by the end marker.
    Events(Vec<OBResponseWrapper>),
    /// Exactly one frame, with no end marker after it.
    Single(OBResponseWrapper),
}

/// A fixed number of order books that keep their orders in one store.
pub struct Manager {
    orders: BumpAllocator<OrderChain>,
    books: Vec<Orderbook>,
}

impl Manager {
    /// The books, in the order of their ids.
    pub closed spec fn books(&self) -> Seq<Orderbook> {
        self.books@
    }

    /// The order store that the books share.
    pub closed spec fn store(&self) -> BumpAllocator<OrderChain> {
        self.orders
    }

    /// The levels of book `id`.
    pub open spec fn levels(&self, id: int) -> Ladder {
        self.books()[id].levels(&self.store())
    }

    /// Every book carries its id as its tag and fits the shared store.
    pub open spec fn wf(&self) -> bool {
        &&& self.store().wf()
        &&& self.books().len() <= u16::MAX
        &&& forall|i: int| 0 <= i < self.books().len() ==> (#[trigger] self.books()[i]).tag() == i
        &&& forall|i: int| 0 <= i < self.books().len() ==> (#[trigger] self.books()[i]).wf(&self.store())
    }

    /// Nothing changed: the same books over the same store.
    pub open spec fn same_as(&self, before: &Manager) -> bool {
        &&& self.books() == before.books()
        &&& self.store() == before.store()
    }

    /// What an operation on book `id` leaves as it was: the number of books,
    /// the capacities, and the levels of every other book.
    pub open spec fn others_kept(&self, before: &Manager, id: int) -> bool {
        &&& self.books().len() == before.books().len()
        &&& self.store().cap() == before.store().cap()
        &&& forall|j: int| 0 <= j < self.books().len() ==> (#[trigger] self.books()[j]).level_capacity()
            == before.books()[j].level_capacity()
        &&& forall|j: int| 0 <= j < self.books().len() && j != id ==> #[trigger] self.levels(j) == before.levels(j)
    }

    /// `book_size` empty books with room for `level_capacity` levels each,
    /// over one order store with room for `order_capacity` orders.
    pub fn new(order_capacity: usize, level_capacity: usize, book_size: u16) -> (m: Self)
        ensures
            m.wf(),
            m.books().len() == book_size,
            m.store()@ == Seq::<OrderChain>::empty(),
            m.store().cap() == order_capacity,
            forall|i: int| 0 <= i < book_size ==> (#[trigger] m.books()[i]).level_capacity() == level_capacity,
            forall|i: int| 0 <= i < book_size ==> #[trigger] m.levels(i) == Map::<i8, Seq<RestingOrder>>::empty(),
    {
        let orders: BumpAllocator<OrderChain> = BumpAllocator::with_capacity(order_capacity);
        let mut books: Vec<Orderbook> = Vec::with_capacity(book_size as usize);
        let mut i: u16 = 0;
        while i < book_size
            invariant
                i <= book_size,
                books@.len() == i,
                orders.wf(),
                orders@.len() == 0,
                forall|j: int| 0 <= j < i ==> (#[trigger] books@[j]).tag() == j,
                forall|j: int| 0 <= j < i ==> (#[trigger] books@[j]).wf(&orders),
                forall|j: int| 0 <= j < i ==> (#[trigger] books@[j]).level_capacity() == level_capacity,
                forall|j: int| 0 <= j < i ==> (#[trigger] books@[j]).levels(&orders) == Map::<i8, Seq<RestingOrder>>::empty(),
            decreases book_size - i,
        {
            let book = Orderbook::with_capacities(i, level_capacity);
            assert(book.wf(&orders));
            assert(book.levels(&orders) == Map::<i8, Seq<RestingOrder>>::empty());
            books.push(book);
            i = i + 1;
        }
        Manager { orders, books }
    }

    /// The number of books.
    pub fn len(&self) -> (n: usize)
        ensures
            n == self.books().len(),
    {
        self.books.len()
    }

    /// Book `book_id`, if there is one.
    pub fn book(&self, book_id: u16) -> (b: Option<&Orderbook>)
        ensures
            b is Some <==> book_id < self.books().len(),
            b matches Some(book) ==> *book == self.books()[book_id as int],
    {
        if (book_id as usize) < self.books.len() {
            Some(&self.books[book_id as usize])
        } else {
            None
        }
    }

    /// The order store that the books share.
    pub fn orders(&self) -> (o: &BumpAllocator<OrderChain>)
        ensures
            *o == self.store(),
    {
        &self.orders
    }

    /// The other books are as they were after book `id` took a step.
    proof fn lemma_others_kept(&self, before: &Manager, id: int)
        requires
            before.wf(),
            0 <= id < before.books().len(),
            self.store().wf(),
            self.store().cap() == before.store().cap(),
            self.books().len() == before.books().len(),
            forall|j: int| 0 <= j < self.books().len() && j != id ==> (#[trigger] self.books()[j]) == before.books()[j],
            self.books()[id].tag() == id,
            self.books()[id].wf(&self.store()),
            self.books()[id].level_capacity() == before.books()[id].level_capacity(),
            store_step(before.store()@, self.store()@, id as u16),
        ensures
            self.wf(),
            self.others_kept(before, id),
    {
        assert forall|j: int| 0 <= j < self.books().len() && j != id implies (#[trigger] self.books()[j]).wf(&self.store())
            && self.levels(j) == before.levels(j) by {
            assert(before.books()[j].tag() == j);
            assert(before.books()[j].wf(&before.store()));
            before.books()[j].lemma_foreign_step(&before.store(), &self.store(), id as u16);
        }
        assert forall|j: int| 0 <= j < self.books().len() implies (#[trigger] self.books()[j]).tag() == j by {
            if j != id {
                assert(before.books()[j].tag() == j);
            }
        }
    }

    /// Whether `book_id` names a book of this manager.
    pub open spec fn known(&self, book_id: u16) -> bool {
        book_id < self.books().len()
    }

    /// What `add` leaves and returns.
    pub open spec fn add_outcome(
        before: Manager,
        after: Manager,
        book_id: u16,
        qty: u64,
        price: i8,
        r: Result<usize, EngineError>,
    ) -> bool {
        if !before.known(book_id) {
            r == Err::<usize, EngineError>(EngineError::UnknownBook) && after.same_as(&before)
        } else {
            match before.books()[book_id as int].add_refusal(&before.store(), qty, price) {
                Some(e) => r == Err::<usize, EngineError>(EngineError::Book(e)) && after.same_as(&before),
                None => {
                    &&& r == Ok::<usize, EngineError>(before.store()@.len() as usize)
                    &&& after.store()@.len() == before.store()@.len() + 1
                    &&& after.levels(book_id as int) == rest(
                        before.levels(book_id as int),
                        price,
                        RestingOrder { id: before.store()@.len() as usize, qty },
                    )
                },
            }
        }
    }

    /// What `reduce` leaves and returns.
    pub open spec fn reduce_outcome(
        before: Manager,
        after: Manager,
        book_id: u16,
        oid: usize,
        qty: u64,
        r: Result<PriceLevelResponse, EngineError>,
    ) -> bool {
        if !before.known(book_id) {
            r == Err::<PriceLevelResponse, EngineError>(EngineError::UnknownBook) && after.same_as(&before)
        } else {
            let book = before.books()[book_id as int];
            match book.reduce_refusal(&before.store(), oid, qty) {
                Some(e) => r == Err::<PriceLevelResponse, EngineError>(EngineError::Book(e)) && after.same_as(
                    &before,
                ),
                None => {
                    let price = book.price_of(&before.store(), oid);
                    &&& r == Ok::<PriceLevelResponse, EngineError>(
                        PriceLevelResponse { price, delta: -(qty as int) as i64 },
                    )
                    &&& after.store()@.len() == before.store()@.len()
                    &&& after.levels(book_id as int) == take(before.levels(book_id as int), price, oid, qty)
                },
            }
        }
    }

    /// What `delete` leaves and returns: what `reduce` does with all that
    /// the order has left.
    pub open spec fn delete_outcome(
        before: Manager,
        after: Manager,
        book_id: u16,
        oid: usize,
        r: Result<PriceLevelResponse, EngineError>,
    ) -> bool {
        if before.known(book_id) && before.books()[book_id as int].rests(&before.store(), oid) {
            Self::reduce_outcome(before, after, book_id, oid, before.store()@[oid as int].quantity(), r)
        } else {
            Self::reduce_outcome(before, after, book_id, oid, 0, r)
        }
    }

    /// What `match_order` leaves and returns.
    pub open spec fn match_outcome<P: CrossingPolicy>(
        before: Manager,
        after: Manager,
        policy: P,
        book_id: u16,
        qty: u64,
        price: i8,
        r: Result<Vec<OBResponseWrapper>, EngineError>,
    ) -> bool {
        if !before.known(book_id) {
            r == Err::<Vec<OBResponseWrapper>, EngineError>(EngineError::UnknownBook) && after.same_as(&before)
        } else {
            match before.books()[book_id as int].match_refusal(&before.store(), policy, qty, price) {
                Some(e) => r == Err::<Vec<OBResponseWrapper>, EngineError>(EngineError::Book(e))
                    && after.same_as(&before),
                None => {
                    let sw = sweep(policy, before.levels(book_id as int), qty, price);
                    let oid = before.store()@.len() as usize;
                    &&& r is Ok
                    &&& filled(r->Ok_0@) + sw.remaining == qty
                    &&& sw.remaining == 0 ==> {
                        &&& r->Ok_0@ == sw.events
                        &&& after.levels(book_id as int) == sw.levels
                        &&& after.store()@.len() == before.store()@.len()
                    }
                    &&& sw.remaining > 0 ==> {
                        &&& r->Ok_0@ == sw.events + rest_events(oid, price, sw.remaining)
                        &&& after.levels(book_id as int) == rest(
                            sw.levels,
                            price,
                            RestingOrder { id: oid, qty: sw.remaining },
                        )
                        &&& after.store()@.len() == before.store()@.len() + 1
                    }
                },
            }
        }
    }

    /// Every book is empty and so is the order store.
    pub open spec fn vacant(&self) -> bool {
        &&& self.store()@ == Seq::<OrderChain>::empty()
        &&& forall|i: int| 0 <= i < self.books().len() ==> #[trigger] self.levels(i) == Map::<i8, Seq<RestingOrder>>::empty()
    }

    /// The capacities and the number of books are those of `before`.
    pub open spec fn same_shape(&self, before: &Manager) -> bool {
        &&& self.books().len() == before.books().len()
        &&& self.store().cap() == before.store().cap()
        &&& forall|j: int| 0 <= j < self.books().len() ==> (#[trigger] self.books()[j]).level_capacity()
            == before.books()[j].level_capacity()
    }

    /// Rests a new order in book `book_id`; see `Orderbook::add`.
    pub fn add(&mut self, book_id: u16, qty: u64, price: i8) -> (r: Result<usize, EngineError>)
        requires
            old(self).wf(),
        ensures
            final(self).wf(),
            final(self).others_kept(old(self), book_id as int),
            Self::add_outcome(*old(self), *final(self), book_id, qty, price, r),
    {
        if (book_id as usize) >= self.books.len() {
            return Err(EngineError::UnknownBook);
        }
        let book = &mut self.books[book_id as usize];
        let r = book.add(&mut self.orders, qty, price);
        proof {
            self.books()[book_id as int].lemma_wf_store(&self.store());
            self.lemma_others_kept(old(self), book_id as int);
            if r is Err {
                assert(self.books() =~= old(self).books());
            }
        }
        match r {
            Ok(oid) => Ok(oid),
            Err(e) => Err(EngineError::Book(e)),
        }
    }

    /// Takes `qty` off order `oid` of book `book_id`; see `Orderbook::reduce`.
    pub fn reduce(&mut self, book_id: u16, oid: usize, qty: u64) -> (r: Result<PriceLevelResponse, EngineError>)
        requires
            old(self).wf(),
        ensures
            final(self).wf(),
            final(self).others_kept(old(self), book_id as int),
            Self::reduce_outcome(*old(self), *final(self), book_id, oid, qty, r),
    {
        if (book_id as usize) >= self.books.len() {
            return Err(EngineError::UnknownBook);
        }
        let book = &mut self.books[book_id as usize];
        let r = book.reduce(&mut self.orders, oid, qty);
        proof {
            self.books()[book_id as int].lemma_wf_store(&self.store());
            self.lemma_others_kept(old(self), book_id as int);
            if r is Err {
                assert(self.books() =~= old(self).books());
            }
        }
        match r {
            Ok(delta) => Ok(delta),
            Err(e) => Err(EngineError::Book(e)),
        }
    }

    /// Removes order `oid` of book `book_id` with all it has left.
    pub fn delete(&mut self, book_id: u16, oid: usize) -> (r: Result<PriceLevelResponse, EngineError>)
        requires
            old(self).wf(),
        ensures
            final(self).wf(),
            final(self).others_kept(old(self), book_id as int),
            Self::delete_outcome(*old(self), *final(self), book_id, oid, r),
    {
        if (book_id as usize) >= self.books.len() {
            return Err(EngineError::UnknownBook);
        }
        let book = &mut self.books[book_id as usize];
        let r = book.delete(&mut self.orders, oid);
        proof {
            self.books()[book_id as int].lemma_wf_store(&self.store());
            self.lemma_others_kept(old(self), book_id as int);
            if r is Err {
                assert(self.books() =~= old(self).books());
            }
        }
        match r {
            Ok(delta) => Ok(delta),
            Err(e) => Err(EngineError::Book(e)),
        }
    }

    /// Matches an incoming order against book `book_id` and rests what is
    /// left; see `Orderbook::match_order`.
    pub fn match_order<P: CrossingPolicy>(&mut self, book_id: u16, qty: u64, price: i8, policy: &P) -> (r: Result<
        Vec<OBResponseWrapper>,
        EngineError,
    >)
        requires
            old(self).wf(),
        ensures
            final(self).wf(),
            final(self).others_kept(old(self), book_id as int),
            Self::match_outcome(*old(self), *final(self), *policy, book_id, qty, price, r),
    {
        if (book_id as usize) >= self.books.len() {
            return Err(EngineError::UnknownBook);
        }
        let book = &mut self.books[book_id as usize];
        let r = book.match_order(&mut self.orders, qty, price, policy);
        proof {
            self.books()[book_id as int].lemma_wf_store(&self.store());
            self.lemma_others_kept(old(self), book_id as int);
            if r is Err {
                assert(self.books() =~= old(self).books());
            }
        }
        match r {
            Ok(events) => Ok(events),
            Err(e) => Err(EngineError::Book(e)),
        }
    }

    /// The resting quantity at every price of book `book_id`; see
    /// `Orderbook::get_level_view`.
    pub fn get_level_view(&self, book_id: u16) -> (r: Result<[u64; 256], EngineError>)
        requires
            self.wf(),
        ensures
            !self.known(book_id) ==> r == Err::<[u64; 256], EngineError>(EngineError::UnknownBook),
            self.known(book_id) ==> r is Ok && forall|p: i8| (#[trigger] r->Ok_0@[bucket(p)])
                == self.books()[book_id as int].level_qty(p),
    {
        if (book_id as usize) >= self.books.len() {
            return Err(EngineError::UnknownBook);
        }
        Ok(self.books[book_id as usize].get_level_view(&self.orders))
    }

    /// Resets the exchange: every book and the order store they share. All
    /// order indices handed out before are invalid afterwards.
    pub fn clear(&mut self)
        requires
            old(self).wf(),
        ensures
            final(self).wf(),
            final(self).same_shape(old(self)),
            final(self).vacant(),
    {
        let n = self.books.len();
        let mut i: usize = 0;
        while i < n
            invariant
                i <= n,
                n == self.books().len(),
                self.same_shape(old(self)),
                forall|j: int| 0 <= j < n ==> (#[trigger] self.books()[j]).tag() == j,
                i > 0 ==> self.store().wf() && self.store()@ == Seq::<OrderChain>::empty(),
                i == 0 ==> self.wf(),
                forall|j: int| 0 <= j < i ==> (#[trigger] self.books()[j]).wf(&self.store()),
                forall|j: int| 0 <= j < i ==> #[trigger] self.levels(j) == Map::<i8, Seq<RestingOrder>>::empty(),
            decreases n - i,
        {
            let ghost before = *self;
            let book = &mut self.books[i];
            book.clear(&mut self.orders);
            proof {
                self.books()[i as int].lemma_wf_store(&self.store());
                assert forall|j: int| 0 <= j < i implies (#[trigger] self.books()[j]).wf(&self.store())
                    && self.levels(j) == Map::<i8, Seq<RestingOrder>>::empty() by {
                    assert(self.books()[j] == before.books()[j]);
                    assert(before.books()[j].wf(&before.store()));
                    assert(before.levels(j) == Map::<i8, Seq<RestingOrder>>::empty());
                    let other: u16 = if j == 0 {
                        1
                    } else {
                        0
                    };
                    before.books()[j].lemma_foreign_step(&before.store(), &self.store(), other);
                }
                assert forall|j: int| 0 <= j < n implies (#[trigger] self.books()[j]).tag() == j by {
                    if j != i {
                        assert(self.books()[j] == before.books()[j]);
                    }
                }
                assert forall|j: int| 0 <= j < n implies (#[trigger] self.books()[j]).level_capacity() == old(
                    self,
                ).books()[j].level_capacity() by {
                    if j != i {
                        assert(self.books()[j] == before.books()[j]);
                    }
                    assert(before.books()[j].level_capacity() == old(self).books()[j].level_capacity());
                }
            }
            i = i + 1;
        }
        if n == 0 {
            self.orders.clear();
        }
    }

    /// What the engine answers to `request`, and what serving it leaves.
    pub open spec fn served<P: CrossingPolicy>(
        before: Manager,
        after: Manager,
        policy: P,
        request: OBRequest,
        r: Result<Reply, EngineError>,
    ) -> bool {
        match request {
            OBRequest::Add(a) => {
                &&& r matches Ok(reply) ==> reply is Events
                &&& Self::match_outcome(
                    before,
                    after,
                    policy,
                    a.ob_id,
                    a.qty,
                    a.price,
                    match r {
                        Ok(reply) => Ok(reply->Events_0),
                        Err(e) => Err(e),
                    },
                )
                &&& after.others_kept(&before, a.ob_id as int)
            },
            OBRequest::Cancel(c) => {
                &&& r matches Ok(reply) ==> reply matches Reply::Single(w) && w.wf() && w.resp is Price
                &&& Self::delete_outcome(
                    before,
                    after,
                    c.ob_id,
                    c.oid,
                    match r {
                        Ok(reply) => Ok(reply->Single_0.resp->Price_0),
                        Err(e) => Err(e),
                    },
                )
                &&& after.others_kept(&before, c.ob_id as int)
            },
            OBRequest::Reduce(c) => {
                &&& r matches Ok(reply) ==> reply matches Reply::Single(w) && w.wf() && w.resp is Price
                &&& Self::reduce_outcome(
                    before,
                    after,
                    c.ob_id,
                    c.oid,
                    c.qty,
                    match r {
                        Ok(reply) => Ok(reply->Single_0.resp->Price_0),
                        Err(e) => Err(e),
                    },
                )
                &&& after.others_kept(&before, c.ob_id as int)
            },
            OBRequest::Flush(f) => {
                if before.known(f.ob_id) {
                    &&& r == Ok::<Reply, EngineError>(
                        Reply::Single(OBResponseWrapper::of(OBResponse::End(DelimResponse {  }))),
                    )
                    &&& after.same_shape(&before)
                    &&& after.vacant()
                } else {
                    r == Err::<Reply, EngineError>(EngineError::UnknownBook) && after.same_as(&before)
                }
            },
            OBRequest::Start(f) => {
                &&& after.same_as(&before)
                &&& if before.known(f.ob_id) {
                    r == Ok::<Reply, EngineError>(
                        Reply::Single(OBResponseWrapper::of(OBResponse::End(DelimResponse {  }))),
                    )
                } else {
                    r == Err::<Reply, EngineError>(EngineError::UnknownBook)
                }
            },
            OBRequest::LevelView(v) => {
                &&& after.same_as(&before)
                &&& if before.known(v.ob_id) {
                    &&& r matches Ok(Reply::Single(w))
                    &&& w.wf()
                    &&& w.resp matches OBResponse::LevelView(view)
                    &&& forall|p: i8| (#[trigger] view.prices@[bucket(p)]) == before.books()[v.ob_id as int].level_qty(p)
                } else {
                    r == Err::<Reply, EngineError>(EngineError::UnknownBook)
                }
            },
        }
    }

    /// Serves one request: an add is matched and answered with its events;
    /// a cancel or a reduce with the change at the order's level; a flush
    /// resets the exchange and, like a start, is answered with the end
    /// marker; a level view with the snapshot of the addressed book.
    pub fn dispatch<P: CrossingPolicy>(&mut self, request: &OBRequestWrapper, policy: &P) -> (r: Result<
        Reply,
        EngineError,
    >)
        requires
            old(self).wf(),
        ensures
            final(self).wf(),
            final(self).same_shape(old(self)),
            Self::served(*old(self), *final(self), *policy, request.req, r),
    {
        match request.req {
            OBRequest::Add(a) => {
                match self.match_order(a.ob_id, a.qty, a.price, policy) {
                    Ok(events) => Ok(Reply::Events(events)),
                    Err(e) => Err(e),
                }
            },
            OBRequest::Cancel(c) => {
                match self.delete(c.ob_id, c.oid) {
                    Ok(delta) => Ok(Reply::Single(OBResponseWrapper::new(OBResponse::Price(delta)))),
                    Err(e) => Err(e),
                }
            },
            OBRequest::Reduce(c) => {
                match self.reduce(c.ob_id, c.oid, c.qty) {
                    Ok(delta) => Ok(Reply::Single(OBResponseWrapper::new(OBResponse::Price(delta)))),
                    Err(e) => Err(e),
                }
            },
            OBRequest::Flush(f) => {
                if (f.ob_id as usize) >= self.books.len() {
                    return Err(EngineError::UnknownBook);
                }
                self.clear();
                Ok(Reply::Single(OBResponseWrapper::new(OBResponse::End(DelimResponse::new()))))
            },
            OBRequest::Start(f) => {
                if (f.ob_id as usize) >= self.books.len() {
                    return Err(EngineError::UnknownBook);
                }
                Ok(Reply::Single(OBResponseWrapper::new(OBResponse::End(DelimResponse::new()))))
            },
            OBRequest::LevelView(v) => {
                match self.get_level_view(v.ob_id) {
                    Ok(prices) => Ok(
                        Reply::Single(OBResponseWrapper::new(OBResponse::LevelView(PriceViewResponse { prices }))),
                    ),
                    Err(e) => Err(e),
                }
            },
        }
    }
}

} // verus!
