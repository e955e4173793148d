//! The price board that a client keeps of each book: the resting quantity
//! at every price, followed from the price events of the engine's answers.

use vstd::prelude::*;
use std::collections::BTreeMap;
use crate::comm::urcp::{OBResponse, OBResponseWrapper, PriceLevelResponse};

verus! {

broadcast use vstd::std_specs::btree::group_btree_axioms;

/// Why a price event does not fit the board.
#[derive(Clone, Copy, Debug, PartialEq, Eq)]
pub enum BoardError {
    /// The board keeps no book of that id.
    UnknownBook,
    /// More would leave a price than the board has there.
    Underflow,
    /// The quantity at a price would pass what its counter can hold.
    Overflow,
}

/// The quantity that a board has at `price`; zero where it has no entry.
pub open spec fn quantity_at(levels: Map<i8, u64>, price: i8) -> int {
    if levels.contains_key(price) {
        levels[price] as int
    } else {
        0
    }
}

/// The board of one book after the change `event`, or why it does not fit.
pub open spec fn shifted(levels: Map<i8, u64>, event: PriceLevelResponse) -> Result<Map<i8, u64>, BoardError> {
    let next = quantity_at(levels, event.price) + event.delta;
    if next < 0 {
        Err(BoardError::Underflow)
    } else if next > u64::MAX {
        Err(BoardError::Overflow)
    } else {
        Ok(levels.insert(event.price, next as u64))
    }
}

/// The board of one book after the price events among `events`, in their
/// order, or why the first of them that does not fit does not.
pub open spec fn settled(levels: Map<i8, u64>, events: Seq<OBResponseWrapper>) -> Result<Map<i8, u64>, BoardError>
    decreases events.len(),
{
    if events.len() == 0 {
        Ok(levels)
    } else {
        match settled(levels, events.drop_last()) {
            Err(e) => Err(e),
            Ok(before) => match events.last().resp {
                OBResponse::Price(p) => shifted(before, p),
                _ => Ok(before),
            },
        }
    }
}

/// The events that are no price events, in their order.
pub open spec fn without_prices(events: Seq<OBResponseWrapper>) -> Seq<OBResponseWrapper>
    decreases events.len(),
{
    if events.len() == 0 {
        Seq::empty()
    } else if events.last().resp is Price {
        without_prices(events.drop_last())
    } else {
        without_prices(events.drop_last()).push(events.last())
    }
}

/// The resting quantity at every price of each book.
pub struct PriceBoard {
    prices: Vec<BTreeMap<i8, u64>>,
}

impl View for PriceBoard {
    type V = Seq<Map<i8, u64>>;

    closed spec fn view(&self) -> Seq<Map<i8, u64>> {
        Seq::new(self.prices@.len(), |i: int| self.prices@[i]@)
    }
}

/// Applies one change to the board of one book.
fn shift(levels: &mut BTreeMap<i8, u64>, event: PriceLevelResponse) -> (r: Result<(), BoardError>)
    ensures
        match shifted(old(levels)@, event) {
            Ok(next) => r is Ok && final(levels)@ == next,
            Err(e) => r == Err::<(), BoardError>(e) && final(levels)@ == old(levels)@,
        },
{
    let current: u64 = match levels.get(&event.price) {
        None => 0,
        Some(entry) => *entry,
    };
    if event.delta < 0 {
        let less: u64 = if event.delta == i64::MIN {
            0x8000_0000_0000_0000
        } else {
            (-event.delta) as u64
        };
        if less > current {
            return Err(BoardError::Underflow);
        }
        levels.insert(event.price, current - less);
    } else {
        let more: u64 = event.delta as u64;
        if more > u64::MAX - current {
            return Err(BoardError::Overflow);
        }
        levels.insert(event.price, current + more);
    }
    Ok(())
}

impl PriceBoard {
    /// An empty board for `books` books.
    pub fn new(books: u16) -> (board: Self)
        ensures
            board@.len() == books,
            forall|i: int| 0 <= i < books ==> (#[trigger] board@[i]) == Map::<i8, u64>::empty(),
    {
        let mut prices: Vec<BTreeMap<i8, u64>> = Vec::new();
        let mut i: u16 = 0;
        while i < books
            invariant
                i <= books,
                prices@.len() == i,
                forall|j: int| 0 <= j < i ==> (#[trigger] prices@[j])@ == Map::<i8, u64>::empty(),
            decreases books - i,
        {
            prices.push(BTreeMap::new());
            i = i + 1;
        }
        PriceBoard { prices }
    }

    /// Follows one price event of book `ob_id`.
    pub fn handle_price_level(&mut self, plu: PriceLevelResponse, ob_id: u16) -> (r: Result<(), BoardError>)
        ensures
            final(self)@.len() == old(self)@.len(),
            ob_id >= old(self)@.len() ==> r == Err::<(), BoardError>(BoardError::UnknownBook) && final(self)@
                == old(self)@,
            ob_id < old(self)@.len() ==> match shifted(old(self)@[ob_id as int], plu) {
                Ok(next) => r is Ok && final(self)@ == old(self)@.update(ob_id as int, next),
                Err(e) => r == Err::<(), BoardError>(e) && final(self)@ == old(self)@,
            },
    {
        if (ob_id as usize) >= self.prices.len() {
            return Err(BoardError::UnknownBook);
        }
        let levels = &mut self.prices[ob_id as usize];
        let r = shift(levels, plu);
        proof {
            match shifted(old(self)@[ob_id as int], plu) {
                Ok(next) => {
                    assert(self@ =~= old(self)@.update(ob_id as int, next));
                },
                Err(e) => {
                    assert(self@ =~= old(self)@);
                },
            }
        }
        r
    }

    /// Takes in the answer to an add on book `ob_id`: the price events
    /// are followed on the board, the other events are handed on in their
    /// order. If a price event does not fit, the board stays as it was.
    pub fn absorb(&mut self, responses: Vec<OBResponseWrapper>, ob_id: u16) -> (r: Result<
        Vec<OBResponseWrapper>,
        BoardError,
    >)
        ensures
            final(self)@.len() == old(self)@.len(),
            ob_id >= old(self)@.len() ==> r == Err::<Vec<OBResponseWrapper>, BoardError>(BoardError::UnknownBook)
                && final(self)@ == old(self)@,
            ob_id < old(self)@.len() ==> match settled(old(self)@[ob_id as int], responses@) {
                Ok(next) => {
                    &&& r matches Ok(kept)
                    &&& kept@ == without_prices(responses@)
                    &&& final(self)@ == old(self)@.update(ob_id as int, next)
                },
                Err(e) => r == Err::<Vec<OBResponseWrapper>, BoardError>(e) && final(self)@ == old(self)@,
            },
    {
        if (ob_id as usize) >= self.prices.len() {
            return Err(BoardError::UnknownBook);
        }
        let mut levels = self.prices[ob_id as usize].clone();
        let mut kept: Vec<OBResponseWrapper> = Vec::new();
        let mut i: usize = 0;
        assert(responses@.take(0) =~= Seq::<OBResponseWrapper>::empty());
        while i < responses.len()
            invariant
                i <= responses@.len(),
                *self == *old(self),
                ob_id < self@.len(),
                settled(self@[ob_id as int], responses@.take(i as int)) == Ok::<Map<i8, u64>, BoardError>(levels@),
                kept@ == without_prices(responses@.take(i as int)),
            decreases responses@.len() - i,
        {
            let event = responses[i];
            proof {
                assert(responses@.take(i + 1).drop_last() =~= responses@.take(i as int));
                assert(responses@.take(i + 1).last() == event);
            }
            match event.resp {
                OBResponse::Price(p) => {
                    match shift(&mut levels, p) {
                        Err(e) => {
                            proof {
                                Self::lemma_settled_breaks(self@[ob_id as int], responses@, i + 1);
                            }
                            return Err(e);
                        },
                        Ok(_) => {},
                    }
                },
                _ => {
                    kept.push(event);
                },
            }
            i = i + 1;
        }
        assert(responses@.take(responses@.len() as int) =~= responses@);
        self.prices.set(ob_id as usize, levels);
        assert(self@ =~= old(self)@.update(ob_id as int, levels@));
        Ok(kept)
    }

    /// Events that do not fit after `n` of them do not fit in full either.
    proof fn lemma_settled_breaks(levels: Map<i8, u64>, events: Seq<OBResponseWrapper>, n: int)
        requires
            0 <= n <= events.len(),
            settled(levels, events.take(n)) is Err,
        ensures
            settled(levels, events) == settled(levels, events.take(n)),
        decreases events.len() - n,
    {
        if n == events.len() {
            assert(events.take(n) =~= events);
        } else {
            assert(events.take(n + 1).drop_last() =~= events.take(n));
            Self::lemma_settled_breaks(levels, events, n + 1);
        }
    }

    /// The board of every book.
    pub fn get_price_levels(&self) -> (out: Vec<BTreeMap<i8, u64>>)
        ensures
            out@.len() == self@.len(),
            forall|i: int| 0 <= i < out@.len() ==> (#[trigger] out@[i])@ == self@[i],
    {
        let mut out: Vec<BTreeMap<i8, u64>> = Vec::new();
        let mut i: usize = 0;
        while i < self.prices.len()
            invariant
                i <= self.prices@.len(),
                out@.len() == i,
                forall|j: int| 0 <= j < i ==> (#[trigger] out@[j])@ == self.prices@[j]@,
            decreases self.prices@.len() - i,
        {
            out.push(self.prices[i].clone());
            i = i + 1;
        }
        out
    }

    /// Forgets the quantities of every book.
    pub fn clear(&mut self)
        ensures
            final(self)@.len() == old(self)@.len(),
            forall|i: int| 0 <= i < final(self)@.len() ==> (#[trigger] final(self)@[i]) == Map::<i8, u64>::empty(),
    {
        let n = self.prices.len();
        let mut i: usize = 0;
        while i < n
            invariant
                i <= n,
                n == self.prices@.len(),
                forall|j: int| 0 <= j < i ==> (#[trigger] self.prices@[j])@ == Map::<i8, u64>::empty(),
            decreases n - i,
        {
            let levels = &mut self.prices[i];
            levels.clear();
            i = i + 1;
        }
    }
}

} // verus!
