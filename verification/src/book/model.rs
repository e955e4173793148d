//! The mathematical model of one order book: for each price that has a level,
//! the orders resting there, oldest first. The functions here say what the
//! book's operations do to that model.

use vstd::prelude::*;
use crate::comm::urcp::{
    AddResponse, ExecuteResponse, OBResponse, OBResponseWrapper, PriceLevelResponse,
};

verus! {

/// An order as the model sees it: its index in the order store and what is
/// left of its quantity.
pub struct RestingOrder {
    pub id: usize,
    pub qty: u64,
}

/// The levels of a book: each price that has a level, with its chain.
pub type Ladder = Map<i8, Seq<RestingOrder>>;

/// The sum of the quantities of a chain.
pub open spec fn total(chain: Seq<RestingOrder>) -> nat
    decreases chain.len(),
{
    if chain.len() == 0 {
        0
    } else {
        total(chain.drop_last()) + chain.last().qty as nat
    }
}

/// The chain at `price`; empty where the book has no level.
pub open spec fn chain_at(levels: Ladder, price: i8) -> Seq<RestingOrder> {
    if levels.dom().contains(price) {
        levels[price]
    } else {
        Seq::empty()
    }
}

/// Whether order `id` stands in `chain`.
pub open spec fn in_chain(chain: Seq<RestingOrder>, id: usize) -> bool {
    exists|k: int| 0 <= k < chain.len() && (#[trigger] chain[k]).id == id
}

/// Where order `id` stands in `chain`.
pub open spec fn position(chain: Seq<RestingOrder>, id: usize) -> int {
    choose|k: int| 0 <= k < chain.len() && (#[trigger] chain[k]).id == id
}

/// The levels after `order` came to rest at `price`: it joins the tail of the
/// chain there, which is created if the price had none.
pub open spec fn rest(levels: Ladder, price: i8, order: RestingOrder) -> Ladder {
    levels.insert(price, chain_at(levels, price).push(order))
}

/// The levels after `qty` was taken off order `id`, which rests at `price`.
/// A level whose quantity is used up leaves the book; else an order whose
/// quantity is used up leaves its chain, the others keeping their order.
pub open spec fn take(levels: Ladder, price: i8, id: usize, qty: u64) -> Ladder {
    let chain = levels[price];
    let k = position(chain, id);
    if total(chain) == qty {
        levels.remove(price)
    } else if chain[k].qty == qty {
        levels.insert(price, chain.remove(k))
    } else {
        levels.insert(price, chain.update(k, RestingOrder { id, qty: (chain[k].qty - qty) as u64 }))
    }
}

/// The highest price between `lo` and `hi` that has a level.
pub open spec fn best_between(levels: Ladder, lo: int, hi: int) -> Option<i8>
    decreases hi - lo + 1,
{
    if hi < lo {
        None
    } else if levels.dom().contains(hi as i8) {
        Some(hi as i8)
    } else {
        best_between(levels, lo, hi - 1)
    }
}

/// The best resting price of one side: the highest of its prices. The one
/// side holds the negative prices, the other side the rest.
pub open spec fn best_price(levels: Ladder, negative_side: bool) -> Option<i8> {
    if negative_side {
        best_between(levels, -128, -1)
    } else {
        best_between(levels, 0, 127)
    }
}

/// A best price between `lo` and `hi` lies between them and has a level.
pub proof fn lemma_best_between_range(levels: Ladder, lo: int, hi: int)
    requires
        -128 <= lo,
        hi <= 127,
    ensures
        best_between(levels, lo, hi) matches Some(p) ==> lo <= p <= hi && levels.dom().contains(p),
    decreases hi - lo + 1,
{
    if hi >= lo && !levels.dom().contains(hi as i8) {
        lemma_best_between_range(levels, lo, hi - 1);
    }
}

/// The best price of a side is a price of that side and has a level.
pub proof fn lemma_best_price_side(levels: Ladder, negative_side: bool)
    ensures
        best_price(levels, negative_side) matches Some(p) ==> (p < 0) == negative_side
            && levels.dom().contains(p),
{
    if negative_side {
        lemma_best_between_range(levels, -128, -1);
    } else {
        lemma_best_between_range(levels, 0, 127);
    }
}

/// Without a level between `lo` and `hi` there is no best price there.
pub proof fn lemma_best_between_none(levels: Ladder, lo: int, hi: int)
    requires
        -128 <= lo,
        hi <= 127,
        forall|q: i8| lo <= q <= hi ==> !levels.dom().contains(q),
    ensures
        best_between(levels, lo, hi) is None,
    decreases hi - lo + 1,
{
    if hi >= lo {
        assert(!levels.dom().contains(hi as i8));
        lemma_best_between_none(levels, lo, hi - 1);
    }
}

/// The best price between `lo` and `hi` is the one with a level and none above it.
pub proof fn lemma_best_between_top(levels: Ladder, lo: int, hi: int, top: i8)
    requires
        -128 <= lo <= top <= hi <= 127,
        levels.dom().contains(top),
        forall|q: i8| top < q <= hi ==> !levels.dom().contains(q),
    ensures
        best_between(levels, lo, hi) == Some(top),
    decreases hi - top,
{
    if hi > top {
        assert(!levels.dom().contains(hi as i8));
        lemma_best_between_top(levels, lo, hi - 1, top);
    }
}

/// The rule that decides whether an incoming price may trade against a
/// resting level.
pub trait CrossingPolicy {
    /// Whether an order coming in at `incoming` trades against the level at `resting`.
    spec fn crosses_spec(&self, resting: i8, incoming: i8) -> bool;

    fn crosses(&self, resting: i8, incoming: i8) -> (b: bool)
        ensures
            b == self.crosses_spec(resting, incoming),
    ;
}

/// The distance of a price from zero.
pub open spec fn magnitude(price: i8) -> int {
    if price < 0 {
        -(price as int)
    } else {
        price as int
    }
}

/// Direct comparison: a level trades when its magnitude is at most that of
/// the incoming price.
pub struct MagnitudeCross;

impl CrossingPolicy for MagnitudeCross {
    open spec fn crosses_spec(&self, resting: i8, incoming: i8) -> bool {
        magnitude(resting) <= magnitude(incoming)
    }

    fn crosses(&self, resting: i8, incoming: i8) -> (b: bool) {
        let r: i16 = resting as i16;
        let i: i16 = incoming as i16;
        let rm: i16 = if r < 0 { -r } else { r };
        let im: i16 = if i < 0 { -i } else { i };
        rm <= im
    }
}

/// Complementary summation: a level trades when its magnitude and that of the
/// incoming price together reach `par`.
pub struct SummationCross {
    pub par: u16,
}

impl CrossingPolicy for SummationCross {
    open spec fn crosses_spec(&self, resting: i8, incoming: i8) -> bool {
        magnitude(resting) + magnitude(incoming) >= self.par
    }

    fn crosses(&self, resting: i8, incoming: i8) -> (b: bool) {
        let r: i32 = resting as i32;
        let i: i32 = incoming as i32;
        let rm: i32 = if r < 0 { -r } else { r };
        let im: i32 = if i < 0 { -i } else { i };
        rm + im >= self.par as i32
    }
}

/// Every level trades, whatever the prices.
pub struct AlwaysCross;

impl CrossingPolicy for AlwaysCross {
    open spec fn crosses_spec(&self, resting: i8, incoming: i8) -> bool {
        true
    }

    fn crosses(&self, resting: i8, incoming: i8) -> (b: bool) {
        true
    }
}

/// No level trades: every incoming order comes to rest in full.
pub struct NeverCross;

impl CrossingPolicy for NeverCross {
    open spec fn crosses_spec(&self, resting: i8, incoming: i8) -> bool {
        false
    }

    fn crosses(&self, resting: i8, incoming: i8) -> (b: bool) {
        false
    }
}

/// The two events of one fill: the order that was filled and by how much,
/// then the change at its level.
pub open spec fn fill_events(id: usize, price: i8, qty: u64) -> Seq<OBResponseWrapper> {
    seq![
        OBResponseWrapper::of(OBResponse::Execute(ExecuteResponse { executed_oid: id, qty })),
        OBResponseWrapper::of(
            OBResponse::Price(PriceLevelResponse { price, delta: (-(qty as int)) as i64 }),
        ),
    ]
}

/// The two events of an order that came to rest: its index, then the change
/// at its level.
pub open spec fn rest_events(id: usize, price: i8, qty: u64) -> Seq<OBResponseWrapper> {
    seq![
        OBResponseWrapper::of(OBResponse::Add(AddResponse { oid: id })),
        OBResponseWrapper::of(OBResponse::Price(PriceLevelResponse { price, delta: qty as i64 })),
    ]
}

/// What a sweep of the opposite side leaves: the levels, the events in the
/// order of the fills, and the quantity that found no match.
pub struct Sweep {
    pub levels: Ladder,
    pub events: Seq<OBResponseWrapper>,
    pub remaining: u64,
}

/// Fills an incoming order of `qty` at `price` against the opposite side.
/// Each step looks at the best opposite level. Without one, or if the policy
/// does not let the prices cross, the sweep ends. Else the oldest order of the
/// level is filled by as much as both sides have, and the sweep goes on with
/// what is left, if anything is.
pub open spec fn sweep<P: CrossingPolicy>(policy: P, levels: Ladder, qty: u64, price: i8) -> Sweep
    decreases qty,
{
    match best_price(levels, !(price < 0)) {
        None => Sweep { levels, events: Seq::empty(), remaining: qty },
        Some(lp) => {
            if !policy.crosses_spec(lp, price) {
                Sweep { levels, events: Seq::empty(), remaining: qty }
            } else {
                let head = levels[lp][0];
                let fill = if qty <= head.qty { qty } else { head.qty };
                let after = take(levels, lp, head.id, fill);
                let events = fill_events(head.id, lp, fill);
                if fill == 0 || fill == qty {
                    Sweep { levels: after, events, remaining: (qty - fill) as u64 }
                } else {
                    let more = sweep(policy, after, (qty - fill) as u64, price);
                    Sweep {
                        levels: more.levels,
                        events: events + more.events,
                        remaining: more.remaining,
                    }
                }
            }
        },
    }
}

/// The quantity that the fills among `events` add up to.
pub open spec fn filled(events: Seq<OBResponseWrapper>) -> nat
    decreases events.len(),
{
    if events.len() == 0 {
        0
    } else {
        filled(events.drop_last()) + match events.last().resp {
            OBResponse::Execute(e) => e.qty as nat,
            _ => 0,
        }
    }
}

/// The fills of two runs of events add up.
pub proof fn lemma_filled_concat(a: Seq<OBResponseWrapper>, b: Seq<OBResponseWrapper>)
    ensures
        filled(a + b) == filled(a) + filled(b),
    decreases b.len(),
{
    if b.len() == 0 {
        assert(a + b =~= a);
    } else {
        assert((a + b).drop_last() =~= a + b.drop_last());
        assert((a + b).last() == b.last());
        lemma_filled_concat(a, b.drop_last());
    }
}

/// One fill counts its own quantity.
pub proof fn lemma_filled_one(id: usize, price: i8, qty: u64)
    ensures
        filled(fill_events(id, price, qty)) == qty,
{
    let ev = fill_events(id, price, qty);
    assert(ev.drop_last() =~= seq![ev[0]]);
    assert(ev.drop_last().drop_last() =~= Seq::<OBResponseWrapper>::empty());
    assert(filled(ev.drop_last().drop_last()) == 0);
    assert(filled(ev.drop_last()) == qty);
}

/// The events of an order that came to rest count no fill.
pub proof fn lemma_filled_rest(id: usize, price: i8, qty: u64)
    ensures
        filled(rest_events(id, price, qty)) == 0,
{
    let ev = rest_events(id, price, qty);
    assert(ev.drop_last() =~= seq![ev[0]]);
    assert(ev.drop_last().drop_last() =~= Seq::<OBResponseWrapper>::empty());
    assert(filled(ev.drop_last().drop_last()) == 0);
    assert(filled(ev.drop_last()) == 0);
}

/// Conservation: whatever the crossing policy decides, the quantity that a
/// sweep fills and the quantity that it leaves add up to the incoming one.
pub proof fn lemma_sweep_conserves<P: CrossingPolicy>(policy: P, levels: Ladder, qty: u64, price: i8)
    ensures
        filled(sweep(policy, levels, qty, price).events) + sweep(policy, levels, qty, price).remaining
            == qty,
    decreases qty,
{
    match best_price(levels, !(price < 0)) {
        None => {},
        Some(lp) => {
            if policy.crosses_spec(lp, price) {
                let head = levels[lp][0];
                let fill = if qty <= head.qty { qty } else { head.qty };
                let after = take(levels, lp, head.id, fill);
                let events = fill_events(head.id, lp, fill);
                lemma_filled_one(head.id, lp, fill);
                if fill == 0 || fill == qty {
                } else {
                    let more = sweep(policy, after, (qty - fill) as u64, price);
                    lemma_sweep_conserves(policy, after, (qty - fill) as u64, price);
                    lemma_filled_concat(events, more.events);
                }
            }
        },
    }
}

/// Appending an order adds its quantity to the total.
pub proof fn lemma_total_push(chain: Seq<RestingOrder>, order: RestingOrder)
    ensures
        total(chain.push(order)) == total(chain) + order.qty,
{
    assert(chain.push(order).drop_last() =~= chain);
}

/// Changing one order's quantity changes the total by the difference.
pub proof fn lemma_total_update(chain: Seq<RestingOrder>, k: int, order: RestingOrder)
    requires
        0 <= k < chain.len(),
    ensures
        total(chain.update(k, order)) == total(chain) - chain[k].qty + order.qty,
    decreases chain.len(),
{
    let updated = chain.update(k, order);
    if k == chain.len() - 1 {
        assert(updated.drop_last() =~= chain.drop_last());
    } else {
        assert(updated.drop_last() =~= chain.drop_last().update(k, order));
        lemma_total_update(chain.drop_last(), k, order);
    }
}

/// Removing an order takes its quantity off the total.
pub proof fn lemma_total_remove(chain: Seq<RestingOrder>, k: int)
    requires
        0 <= k < chain.len(),
    ensures
        total(chain.remove(k)) == total(chain) - chain[k].qty,
    decreases chain.len(),
{
    let removed = chain.remove(k);
    if k == chain.len() - 1 {
        assert(removed =~= chain.drop_last());
    } else {
        assert(removed.drop_last() =~= chain.drop_last().remove(k));
        assert(removed.last() == chain.last());
        lemma_total_remove(chain.drop_last(), k);
    }
}

/// No order of a chain holds more than the chain's total.
pub proof fn lemma_total_bounds(chain: Seq<RestingOrder>, k: int)
    requires
        0 <= k < chain.len(),
    ensures
        chain[k].qty <= total(chain),
    decreases chain.len(),
{
    if k < chain.len() - 1 {
        lemma_total_bounds(chain.drop_last(), k);
    }
}

/// A chain of one order totals that order's quantity.
pub proof fn lemma_total_single(order: RestingOrder)
    ensures
        total(seq![order]) == order.qty,
{
    let chain = seq![order];
    assert(chain.drop_last() =~= Seq::<RestingOrder>::empty());
    assert(total(chain.drop_last()) == 0);
    assert(chain.last() == order);
}

/// A chain whose total equals one of its positive orders holds only that
/// order, if all its orders are positive.
pub proof fn lemma_total_exhausted(chain: Seq<RestingOrder>, k: int)
    requires
        0 <= k < chain.len(),
        forall|j: int| 0 <= j < chain.len() ==> (#[trigger] chain[j]).qty > 0,
        total(chain) == chain[k].qty,
    ensures
        chain.len() == 1,
    decreases chain.len(),
{
    if chain.len() > 1 {
        if k == chain.len() - 1 {
            lemma_total_bounds(chain.drop_last(), 0);
            assert(chain.drop_last()[0] == chain[0]);
        } else {
            lemma_total_bounds(chain.drop_last(), k);
        }
    }
}

/// Whether the orders of a chain are all different and none is empty.
pub open spec fn chain_ok(chain: Seq<RestingOrder>) -> bool {
    &&& forall|i: int, j: int| 0 <= i < j < chain.len() ==> (#[trigger] chain[i]).id != (#[trigger] chain[j]).id
    &&& forall|i: int| 0 <= i < chain.len() ==> (#[trigger] chain[i]).qty > 0
}

/// First in, first out: orders that come to rest at one price stand in its
/// chain in the order of their coming, behind those that were there before.
pub proof fn lemma_fifo(levels: Ladder, price: i8, first: RestingOrder, second: RestingOrder, third: RestingOrder)
    ensures
        chain_at(rest(rest(rest(levels, price, first), price, second), price, third), price) == chain_at(
            levels,
            price,
        ) + seq![first, second, third],
{
    let after = rest(rest(rest(levels, price, first), price, second), price, third);
    assert(chain_at(after, price) =~= chain_at(levels, price) + seq![first, second, third]);
}

/// Taking all of one order of a chain that holds others takes that order
/// out and leaves the others in their order.
pub proof fn lemma_take_unlinks(levels: Ladder, price: i8, k: int)
    requires
        levels.dom().contains(price),
        chain_ok(levels[price]),
        levels[price].len() >= 2,
        0 <= k < levels[price].len(),
    ensures
        take(levels, price, levels[price][k].id, levels[price][k].qty) == levels.insert(
            price,
            levels[price].remove(k),
        ),
{
    let chain = levels[price];
    let at = position(chain, chain[k].id);
    assert(at == k) by {
        if at < k {
            assert(chain[at].id != chain[k].id);
        } else if k < at {
            assert(chain[k].id != chain[at].id);
        }
    }
    let other = if k == 0 {
        1
    } else {
        0int
    };
    lemma_total_remove(chain, k);
    let rest_of = chain.remove(k);
    assert(rest_of[0] == chain[other]);
    lemma_total_bounds(rest_of, 0);
    assert(chain[other].qty > 0);
}

/// Taking all of the only order of a level takes the level out of the book.
pub proof fn lemma_take_drops_level(levels: Ladder, price: i8)
    requires
        levels.dom().contains(price),
        levels[price].len() == 1,
    ensures
        take(levels, price, levels[price][0].id, levels[price][0].qty) == levels.remove(price),
{
    let chain = levels[price];
    assert(chain =~= seq![chain[0]]);
    lemma_total_single(chain[0]);
}

/// The best price between two bounds depends only on which prices have a level.
pub proof fn lemma_best_between_same_prices(a: Ladder, b: Ladder, lo: int, hi: int)
    requires
        a.dom() == b.dom(),
    ensures
        best_between(a, lo, hi) == best_between(b, lo, hi),
    decreases hi - lo + 1,
{
    if hi >= lo && !a.dom().contains(hi as i8) {
        lemma_best_between_same_prices(a, b, lo, hi - 1);
    }
}

/// What a sweep makes of the best opposite level, where the prices cross: a
/// quantity below the level's total is filled in full and the level stays;
/// one that equals the total is filled in full and the level leaves; a
/// larger one uses the level up and goes on with the rest as if the level
/// had never been there.
pub proof fn lemma_sweep_level<P: CrossingPolicy>(policy: P, levels: Ladder, qty: u64, price: i8, lp: i8)
    requires
        best_price(levels, !(price < 0)) == Some(lp),
        policy.crosses_spec(lp, price),
        levels.dom().contains(lp),
        levels[lp].len() > 0,
        chain_ok(levels[lp]),
        qty > 0,
    ensures
        qty < total(levels[lp]) ==> sweep(policy, levels, qty, price).remaining == 0 && sweep(
            policy,
            levels,
            qty,
            price,
        ).levels.dom() == levels.dom(),
        qty == total(levels[lp]) ==> sweep(policy, levels, qty, price).remaining == 0 && sweep(
            policy,
            levels,
            qty,
            price,
        ).levels.dom() == levels.dom().remove(lp),
        qty > total(levels[lp]) ==> sweep(policy, levels, qty, price).remaining == sweep(
            policy,
            levels.remove(lp),
            (qty - total(levels[lp])) as u64,
            price,
        ).remaining && sweep(policy, levels, qty, price).levels.dom() == sweep(
            policy,
            levels.remove(lp),
            (qty - total(levels[lp])) as u64,
            price,
        ).levels.dom(),
    decreases levels[lp].len(),
{
    let chain = levels[lp];
    let head = chain[0];
    let fill = if qty <= head.qty {
        qty
    } else {
        head.qty
    };
    let after = take(levels, lp, head.id, fill);
    lemma_total_bounds(chain, 0);
    assert(position(chain, head.id) == 0) by {
        let at = position(chain, head.id);
        if at > 0 {
            assert(chain[0].id != chain[at].id);
        }
    }
    if chain.len() == 1 {
        assert(chain =~= seq![head]);
        lemma_total_single(head);
        if qty < head.qty {
            assert(after.dom() =~= levels.dom());
        } else {
            lemma_take_drops_level(levels, lp);
            assert(after.dom() =~= levels.dom().remove(lp));
        }
    } else {
        let rest_of = chain.remove(0);
        lemma_total_remove(chain, 0);
        assert(rest_of[0] == chain[1]);
        lemma_total_bounds(rest_of, 0);
        if qty < head.qty {
            assert(after.dom() =~= levels.dom());
        } else {
            lemma_take_unlinks(levels, lp, 0);
            assert(after.dom() =~= levels.dom());
            if qty > head.qty {
                let left = (qty - head.qty) as u64;
                if price < 0 {
                    lemma_best_between_same_prices(after, levels, 0, 127);
                } else {
                    lemma_best_between_same_prices(after, levels, -128, -1);
                }
                assert(after[lp] == rest_of);
                assert(chain_ok(rest_of)) by {
                    assert forall|i: int, j: int| 0 <= i < j < rest_of.len() implies (#[trigger] rest_of[i]).id != (
                    #[trigger] rest_of[j]).id by {
                        assert(chain[i + 1].id != chain[j + 1].id);
                    }
                    assert forall|i: int| 0 <= i < rest_of.len() implies (#[trigger] rest_of[i]).qty > 0 by {
                        assert(chain[i + 1].qty > 0);
                    }
                }
                lemma_sweep_level(policy, after, left, price, lp);
                assert(after.remove(lp) =~= levels.remove(lp));
            }
        }
    }
}

} // verus!
