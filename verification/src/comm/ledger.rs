//! The rules of the ledger that sits on top of the engine: how a client's
//! price becomes the engine's, what an order costs, who holds which side of
//! a contract, and what is paid out at settlement.

use vstd::prelude::*;
use crate::book::model::magnitude;
use crate::comm::domain::{ApiExecuteInner, Contract, CreateOrder, UserOrder};
use crate::comm::urcp::{ExecuteResponse, OBResponse, OBResponseWrapper};

verus! {

/// The number of books that the public interface trades.
pub const MARKETS: u16 = 2;

/// The price of a sure outcome, in cents.
pub const PAR: i8 = 100;

/// Why a client's order is not accepted.
#[derive(Clone, Copy, Debug, PartialEq, Eq)]
pub enum OrderError {
    /// The market names no book.
    UnknownMarket,
    /// The price is not strictly between nothing and a sure outcome.
    PriceOutOfRange,
    /// The order is for nothing.
    NoQuantity,
}

/// The engine's price of a client's order: a "yes" at `price` goes in as
/// the negative price, a "no" as what it leaves to a sure outcome.
pub open spec fn engine_price(yes: bool, price: i8) -> int {
    if yes {
        -(price as int)
    } else {
        100 - price
    }
}

/// Checks a client's order and gives the price at which it goes to the engine.
pub fn internal_price(order: &CreateOrder) -> (r: Result<i8, OrderError>)
    ensures
        order.market >= MARKETS ==> r == Err::<i8, OrderError>(OrderError::UnknownMarket),
        order.market < MARKETS && !(0 < order.price < PAR) ==> r == Err::<i8, OrderError>(
            OrderError::PriceOutOfRange,
        ),
        order.market < MARKETS && 0 < order.price < PAR && order.qty == 0 ==> r == Err::<i8, OrderError>(
            OrderError::NoQuantity,
        ),
        order.market < MARKETS && 0 < order.price < PAR && order.qty > 0 ==> r == Ok::<i8, OrderError>(
            engine_price(order.yes, order.price) as i8,
        ),
{
    if order.market >= MARKETS {
        return Err(OrderError::UnknownMarket);
    }
    if order.price <= 0 || order.price >= PAR {
        return Err(OrderError::PriceOutOfRange);
    }
    if order.qty == 0 {
        return Err(OrderError::NoQuantity);
    }
    if order.yes {
        Ok(-order.price)
    } else {
        Ok(PAR - order.price)
    }
}

/// What an order of `qty` at the engine's `price` costs: the magnitude of
/// the price for each unit. `None` where a balance cannot hold that much.
pub fn required_balance(price: i8, qty: u64) -> (r: Option<i32>)
    ensures
        magnitude(price) * qty <= i32::MAX ==> r == Some((magnitude(price) * qty) as i32),
        magnitude(price) * qty > i32::MAX ==> r is None,
{
    let unit: u64 = if price < 0 {
        (-(price as i16)) as u64
    } else {
        price as u64
    };
    if qty > 0x7fff_ffff {
        proof {
            if unit >= 1 {
                assert(unit * qty >= qty) by (nonlinear_arith)
                    requires
                        unit >= 1,
                        qty >= 0,
                ;
            }
        }
        if unit == 0 {
            return Some(0);
        }
        return None;
    }
    assert(unit * qty <= 128 * 0x7fff_ffff) by (nonlinear_arith)
        requires
            unit <= 128,
            qty <= 0x7fff_ffff,
    ;
    let cost = unit * qty;
    if cost > 0x7fff_ffff {
        None
    } else {
        Some(cost as i32)
    }
}

/// Whether a user with `balance` can pay for an order of `qty` at the
/// engine's `price`; the cost where they can.
pub fn affordable(balance: i32, price: i8, qty: u64) -> (r: Option<i32>)
    ensures
        r matches Some(cost) ==> cost == magnitude(price) * qty && cost <= balance,
        r is None <==> magnitude(price) * qty > i32::MAX || magnitude(price) * qty > balance,
{
    match required_balance(price, qty) {
        None => None,
        Some(cost) => if balance < cost {
            None
        } else {
            Some(cost)
        },
    }
}

/// Who holds which side of the contract that a fill creates: the resting
/// order's user holds "yes" where that order rests at a negative price,
/// and "no" otherwise; the incoming user holds the other side. Returns the
/// holder of "yes", then the holder of "no".
pub fn contract_holders(resting_price: i32, resting_user: i32, incoming_user: i32) -> (r: (i32, i32))
    ensures
        resting_price < 0 ==> r == (resting_user, incoming_user),
        resting_price >= 0 ==> r == (incoming_user, resting_user),
{
    if resting_price < 0 {
        (resting_user, incoming_user)
    } else {
        (incoming_user, resting_user)
    }
}

/// The two outcomes that a settlement request names: bit 1 for the one
/// book, bit 0 for the other.
pub fn result_bits(bit_repr: usize) -> (r: (bool, bool))
    ensures
        r.0 == (bit_repr & 2 > 0),
        r.1 == (bit_repr & 1 > 0),
{
    (bit_repr & 2 > 0, bit_repr & 1 > 0)
}

/// The body of the message that tells subscribers of a fill.
pub fn execute_packet(fill: &ExecuteResponse) -> (r: ApiExecuteInner)
    ensures
        r == (ApiExecuteInner { oid: fill.executed_oid, qty: fill.qty }),
{
    ApiExecuteInner { oid: fill.executed_oid, qty: fill.qty }
}

/// What the ledger does for one event of the answer to an add.
#[derive(Clone, Copy, Debug, PartialEq, Eq)]
pub enum LedgerAction {
    /// A contract of `qty` with the user of the resting order `oid`.
    Contract { oid: usize, qty: u64 },
    /// The order `oid` rests against the incoming user.
    Resting { oid: usize },
    /// Nothing.
    Nothing,
}

/// What the ledger does for `event`.
pub open spec fn action_for(event: OBResponseWrapper) -> LedgerAction {
    match event.resp {
        OBResponse::Execute(e) => LedgerAction::Contract { oid: e.executed_oid, qty: e.qty },
        OBResponse::Add(a) => LedgerAction::Resting { oid: a.oid },
        _ => LedgerAction::Nothing,
    }
}

/// What the ledger does for each event of the answer to an add, in the
/// order of the events.
pub fn ledger_actions(events: &Vec<OBResponseWrapper>) -> (actions: Vec<LedgerAction>)
    ensures
        actions@.len() == events@.len(),
        forall|i: int| 0 <= i < events@.len() ==> actions@[i] == action_for(#[trigger] events@[i]),
{
    let mut actions: Vec<LedgerAction> = Vec::new();
    let mut i: usize = 0;
    while i < events.len()
        invariant
            i <= events@.len(),
            actions@.len() == i,
            forall|j: int| 0 <= j < i ==> actions@[j] == action_for(#[trigger] events@[j]),
        decreases events@.len() - i,
    {
        let action = match events[i].resp {
            OBResponse::Execute(e) => LedgerAction::Contract { oid: e.executed_oid, qty: e.qty },
            OBResponse::Add(a) => LedgerAction::Resting { oid: a.oid },
            _ => LedgerAction::Nothing,
        };
        actions.push(action);
        i = i + 1;
    }
    actions
}

/// Why a settlement cannot be paid out.
#[derive(Clone, Copy, Debug, PartialEq, Eq)]
pub enum LedgerError {
    /// A user's credit does not fit a balance.
    Overflow,
}

/// One amount owed to one user.
pub struct Posting {
    pub user: i32,
    pub amount: int,
}

/// What one unit of a resting order gives back at settlement: the magnitude
/// of a "yes" price, and what a "no" price leaves to a sure outcome.
pub open spec fn refund_per_unit(price: i32) -> int {
    if price < 0 {
        -(price as int)
    } else {
        100 - price
    }
}

/// What a resting order gives back to its user.
pub open spec fn order_posting(order: UserOrder) -> Posting {
    Posting { user: order.user_fk, amount: refund_per_unit(order.price) * order.qty }
}

/// Whether a contract pays out: only those of the first book do.
pub open spec fn pays(contract: Contract) -> bool {
    contract.book_id == 0
}

/// What a contract pays to the holder of the side that came true: a sure
/// outcome for each unit.
pub open spec fn contract_posting(contract: Contract, right: bool) -> Posting {
    Posting {
        user: if right {
            contract.yes_holder
        } else {
            contract.no_holder
        },
        amount: contract.qty * 100,
    }
}

/// The postings of a settlement: one for each resting order, then one for
/// each contract that pays out.
pub open spec fn postings(orders: Seq<UserOrder>, contracts: Seq<Contract>, right: bool) -> Seq<Posting>
    decreases contracts.len(),
{
    if contracts.len() == 0 {
        Seq::new(orders.len(), |i: int| order_posting(orders[i]))
    } else if pays(contracts.last()) {
        postings(orders, contracts.drop_last(), right).push(contract_posting(contracts.last(), right))
    } else {
        postings(orders, contracts.drop_last(), right)
    }
}

/// What the postings owe to `user` in all.
pub open spec fn owed(log: Seq<Posting>, user: i32) -> int
    decreases log.len(),
{
    if log.len() == 0 {
        0
    } else if log.last().user == user {
        owed(log.drop_last(), user) + log.last().amount
    } else {
        owed(log.drop_last(), user)
    }
}

/// Whether a posting names `user`.
pub open spec fn named(log: Seq<Posting>, user: i32) -> bool {
    exists|j: int| 0 <= j < log.len() && (#[trigger] log[j]).user == user
}

/// Whether `credits` are what the postings of `log` come to: one credit for
/// each user that a posting names, no user twice, each with what the
/// postings owe them in all.
pub open spec fn credits_match(credits: Seq<(i32, i32)>, log: Seq<Posting>) -> bool {
    &&& forall|a: int, b: int| 0 <= a < b < credits.len() ==> (#[trigger] credits[a]).0 != (#[trigger] credits[b]).0
    &&& forall|k: int| 0 <= k < credits.len() ==> (#[trigger] credits[k]).1 == owed(log, credits[k].0) && named(
        log,
        credits[k].0,
    )
    &&& forall|j: int| 0 <= j < log.len() ==> paid(credits, (#[trigger] log[j]).user)
}

/// Whether `credits` hold a credit for `user`.
pub open spec fn paid(credits: Seq<(i32, i32)>, user: i32) -> bool {
    exists|k: int| 0 <= k < credits.len() && (#[trigger] credits[k]).0 == user
}

/// Whether the tally `acc` holds an entry for `user`.
spec fn tallied(acc: Seq<(i32, i128)>, user: i32) -> bool {
    exists|k: int| 0 <= k < acc.len() && (#[trigger] acc[k]).0 == user
}

/// Whether `acc` tallies the postings of `log`: one entry for each user
/// that a posting names, holding what the postings owe them.
spec fn tallies(acc: Seq<(i32, i128)>, log: Seq<Posting>, limit: int) -> bool {
    &&& forall|a: int, b: int| 0 <= a < b < acc.len() ==> (#[trigger] acc[a]).0 != (#[trigger] acc[b]).0
    &&& forall|k: int| 0 <= k < acc.len() ==> {
        &&& (#[trigger] acc[k]).1 == owed(log, acc[k].0)
        &&& -limit <= acc[k].1 <= limit
        &&& named(log, acc[k].0)
    }
    &&& forall|j: int| 0 <= j < log.len() ==> tallied(acc, (#[trigger] log[j]).user)
}

/// Adds one posting to the tally.
fn post(
    acc: &mut Vec<(i32, i128)>,
    user: i32,
    amount: i64,
    Ghost(log): Ghost<Seq<Posting>>,
    Ghost(limit): Ghost<int>,
    Ghost(step): Ghost<int>,
)
    requires
        tallies(old(acc)@, log, limit),
        0 <= limit,
        -step <= amount <= step,
        limit + step <= i128::MAX,
    ensures
        tallies(final(acc)@, log.push(Posting { user, amount: amount as int }), limit + step),
{
    let ghost entry = Posting { user, amount: amount as int };
    let ghost log1 = log.push(entry);
    let ghost acc0 = acc@;
    assert(log1.drop_last() =~= log);
    let mut k: usize = 0;
    let mut found: bool = false;
    while k < acc.len()
        invariant_except_break
            !found,
            forall|j: int| 0 <= j < k ==> (#[trigger] acc@[j]).0 != user,
        invariant
            k <= acc@.len(),
            acc@ == acc0,
        ensures
            k <= acc@.len(),
            acc@ == acc0,
            found ==> k < acc@.len() && acc@[k as int].0 == user,
            !found ==> forall|j: int| 0 <= j < acc@.len() ==> (#[trigger] acc@[j]).0 != user,
        decreases acc@.len() - k,
    {
        if acc[k].0 == user {
            found = true;
            break ;
        }
        k = k + 1;
    }
    if found {
        let sum: i128 = acc[k].1 + amount as i128;
        acc.set(k, (user, sum));
    } else {
        proof {
            // no posting names the user yet, so nothing is owed to them
            if named(log, user) {
                let j = choose|j: int| 0 <= j < log.len() && (#[trigger] log[j]).user == user;
                assert(tallied(acc0, log[j].user));
                let i = choose|i: int| 0 <= i < acc0.len() && (#[trigger] acc0[i]).0 == log[j].user;
                assert(acc0[i].0 != user);
            }
            lemma_unnamed_owed_nothing(log, user);
        }
        acc.push((user, amount as i128));
    }
    proof {
        let acc1 = acc@;
        let limit1 = limit + step;
        assert forall|i: int| 0 <= i < acc1.len() implies {
            &&& (#[trigger] acc1[i]).1 == owed(log1, acc1[i].0)
            &&& -limit1 <= acc1[i].1 <= limit1
            &&& named(log1, acc1[i].0)
        } by {
            if i < acc0.len() {
                assert(acc0[i].1 == owed(log, acc0[i].0));
                assert(named(log, acc0[i].0));
                let j = choose|j: int| 0 <= j < log.len() && (#[trigger] log[j]).user == acc0[i].0;
                assert(log1[j].user == acc0[i].0);
                if found && i != k {
                    assert(acc0[i].0 != acc0[k as int].0);
                }
            } else {
                assert(log1[log.len() as int].user == user);
            }
        }
        assert forall|j: int| 0 <= j < log1.len() implies tallied(acc1, (#[trigger] log1[j]).user) by {
            if j < log.len() {
                assert(tallied(acc0, log[j].user));
                let i = choose|i: int| 0 <= i < acc0.len() && (#[trigger] acc0[i]).0 == log[j].user;
                assert(acc1[i].0 == log1[j].user);
            } else if found {
                assert(acc1[k as int].0 == user);
            } else {
                assert(acc1[acc0.len() as int].0 == user);
            }
        }
        assert forall|a: int, b: int| 0 <= a < b < acc1.len() implies (#[trigger] acc1[a]).0 != (#[trigger] acc1[b]).0 by {
            if b < acc0.len() {
                assert(acc0[a].0 != acc0[b].0);
            } else {
                assert(acc0[a].0 != user);
            }
        }
    }
}

/// What the ledger pays out at settlement: every resting order gives back
/// what it cost, and every contract of the first book pays a sure outcome
/// for each unit to the holder of the side that came true (`right` for
/// "yes"). Returns one credit for each user that an order or a paying
/// contract names, in the order of their first mention.
pub fn settlement_credits(orders: &Vec<UserOrder>, contracts: &Vec<Contract>, right: bool) -> (r: Result<
    Vec<(i32, i32)>,
    LedgerError,
>)
    ensures
        r matches Ok(credits) ==> credits_match(credits@, postings(orders@, contracts@, right)),
        r is Err <==> exists|user: i32| named(postings(orders@, contracts@, right), user) && !(i32::MIN <= owed(
            postings(orders@, contracts@, right),
            user,
        ) <= i32::MAX),
{
    let mut acc: Vec<(i32, i128)> = Vec::new();
    let ghost mut log: Seq<Posting> = Seq::empty();
    let mut i: usize = 0;
    assert(orders@.take(0) =~= Seq::<UserOrder>::empty());
    assert(log =~= postings(orders@.take(0), Seq::<Contract>::empty(), right));
    while i < orders.len()
        invariant
            i <= orders@.len(),
            log == postings(orders@.take(i as int), Seq::<Contract>::empty(), right),
            tallies(acc@, log, i * 0x4000_0032_0000_0000),
        decreases orders@.len() - i,
    {
        let order = orders[i];
        let unit: i64 = if order.price < 0 {
            -(order.price as i64)
        } else {
            100 - order.price as i64
        };
        assert(-0x4000_0032_0000_0000 <= unit * (order.qty as i64) <= 0x4000_0032_0000_0000) by (nonlinear_arith)
            requires
                -0x8000_0064 <= unit <= 0x8000_0064,
                -0x8000_0000 <= order.qty as i64 <= 0x8000_0000,
        ;
        let amount: i64 = unit * (order.qty as i64);
        post(
            &mut acc,
            order.user_fk,
            amount,
            Ghost(log),
            Ghost(i * 0x4000_0032_0000_0000),
            Ghost(0x4000_0032_0000_0000),
        );
        proof {
            let next = postings(orders@.take(i + 1), Seq::<Contract>::empty(), right);
            assert(next =~= log.push(order_posting(order)));
            log = next;
        }
        i = i + 1;
    }
    assert(orders@.take(orders@.len() as int) =~= orders@);
    assert(orders@.len() <= usize::MAX);
    let ghost base: int = (orders@.len() * 0x4000_0032_0000_0000) as int;
    let mut c: usize = 0;
    assert(contracts@.take(0) =~= Seq::<Contract>::empty());
    while c < contracts.len()
        invariant
            c <= contracts@.len(),
            base == orders@.len() * 0x4000_0032_0000_0000,
            orders@.len() <= usize::MAX,
            log == postings(orders@, contracts@.take(c as int), right),
            tallies(acc@, log, base + c * 0x32_0000_0000),
        decreases contracts@.len() - c,
    {
        let contract = contracts[c];
        proof {
            assert(contracts@.take(c + 1).drop_last() =~= contracts@.take(c as int));
            assert(contracts@.take(c + 1).last() == contract);
        }
        if contract.book_id == 0 {
            let user = if right {
                contract.yes_holder
            } else {
                contract.no_holder
            };
            let amount: i64 = contract.qty as i64 * 100;
            post(&mut acc, user, amount, Ghost(log), Ghost(base + c * 0x32_0000_0000), Ghost(0x32_0000_0000));
            proof {
                log = log.push(contract_posting(contract, right));
            }
        } else {
            proof {
                lemma_tallies_widen(acc@, log, base + c * 0x32_0000_0000, base + (c + 1) * 0x32_0000_0000);
            }
        }
        c = c + 1;
    }
    assert(contracts@.take(contracts@.len() as int) =~= contracts@);
    let mut credits: Vec<(i32, i32)> = Vec::new();
    let mut k: usize = 0;
    while k < acc.len()
        invariant
            k <= acc@.len(),
            credits@.len() == k,
            log == postings(orders@, contracts@, right),
            tallies(acc@, log, base + contracts@.len() * 0x32_0000_0000),
            forall|j: int| 0 <= j < k ==> (#[trigger] credits@[j]).0 == acc@[j].0 && credits@[j].1 == acc@[j].1,
        decreases acc@.len() - k,
    {
        let (user, sum) = acc[k];
        if sum < i32::MIN as i128 || sum > i32::MAX as i128 {
            proof {
                assert(named(log, acc@[k as int].0));
                assert(owed(log, user) == sum);
            }
            return Err(LedgerError::Overflow);
        }
        credits.push((user, sum as i32));
        k = k + 1;
    }
    proof {
        assert forall|j: int| 0 <= j < log.len() implies paid(credits@, (#[trigger] log[j]).user) by {
            assert(tallied(acc@, log[j].user));
            let i = choose|i: int| 0 <= i < acc@.len() && (#[trigger] acc@[i]).0 == log[j].user;
            assert(credits@[i].0 == log[j].user);
        }
        assert forall|a: int, b: int| 0 <= a < b < credits@.len() implies (#[trigger] credits@[a]).0 != (
        #[trigger] credits@[b]).0 by {
            assert(acc@[a].0 != acc@[b].0);
        }
        assert forall|user: i32| named(log, user) implies i32::MIN <= owed(log, user) <= i32::MAX by {
            let j = choose|j: int| 0 <= j < log.len() && (#[trigger] log[j]).user == user;
            assert(tallied(acc@, log[j].user));
            let i = choose|i: int| 0 <= i < acc@.len() && (#[trigger] acc@[i]).0 == log[j].user;
            assert(credits@[i].1 == acc@[i].1);
            assert(acc@[i].1 == owed(log, acc@[i].0));
        }
        assert forall|k: int| 0 <= k < credits@.len() implies (#[trigger] credits@[k]).1 == owed(log, credits@[k].0)
            && named(log, credits@[k].0) by {
            assert(acc@[k].1 == owed(log, acc@[k].0));
        }
    }
    Ok(credits)
}

/// A tally within one limit is within every wider one.
proof fn lemma_tallies_widen(acc: Seq<(i32, i128)>, log: Seq<Posting>, limit: int, wider: int)
    requires
        tallies(acc, log, limit),
        limit <= wider,
    ensures
        tallies(acc, log, wider),
{
    assert forall|k: int| 0 <= k < acc.len() implies {
        &&& (#[trigger] acc[k]).1 == owed(log, acc[k].0)
        &&& -wider <= acc[k].1 <= wider
        &&& named(log, acc[k].0)
    } by {
        assert(acc[k].1 == owed(log, acc[k].0));
    }
    assert forall|j: int| 0 <= j < log.len() implies tallied(acc, (#[trigger] log[j]).user) by {}
}

/// Nothing is owed to a user that no posting names.
proof fn lemma_unnamed_owed_nothing(log: Seq<Posting>, user: i32)
    requires
        !named(log, user),
    ensures
        owed(log, user) == 0,
    decreases log.len(),
{
    if log.len() > 0 {
        assert(log[log.len() - 1].user != user);
        assert forall|j: int| 0 <= j < log.drop_last().len() implies (#[trigger] log.drop_last()[j]).user != user by {
            assert(log[j].user != user);
        }
        lemma_unnamed_owed_nothing(log.drop_last(), user);
    }
}

} // verus!
