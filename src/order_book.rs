use vstd::prelude::*;

use crate::error::CLOBError;
use crate::global_state::GlobalState;
use crate::market_maker::{credit, credit_spec, locked_balance, Identity, MarketMaker};
use crate::order_list::{entry_of, OrderEntry, OrderList};
use crate::side::{opposite, Side};
use crate::twap::{next_aggregate, next_observation, TWAPOracle};
use crate::{BOOK_DEPTH, MAX_BPS, NULL, NUM_MARKET_MAKERS, PRICE_PRECISION};

verus! {

/// Everything one base/quote pair keeps: its identities, both sides of the
/// book, the maker table, the TWAP oracle and the fees not yet swept.
pub struct OrderBook {
    pub base: Identity,
    pub quote: Identity,
    pub base_vault: Identity,
    pub quote_vault: Identity,
    pub buys: OrderList,
    pub sells: OrderList,
    pub market_makers: Vec<MarketMaker>,
    pub twap_oracle: TWAPOracle,
    pub base_fees_sweepable: u64,
    pub quote_fees_sweepable: u64,
    /// Derivation tag of the vaults' signing capability.
    pub pda_bump: u8,
}

/// A maker's two custodial balances.
#[derive(Debug, Clone, Copy, PartialEq, Eq, Structural)]
pub struct MarketMakerBalances {
    pub base_balance: u64,
    pub quote_balance: u64,
}

/// Amount and price of one resting order.
#[derive(Debug, Clone, Copy, PartialEq, Eq, Structural)]
pub struct AmountAndPrice {
    pub amount: u64,
    pub price: u64,
}

/// The mid price of the two best orders, when both sides have one.
pub open spec fn spot_of(book: &OrderBook) -> Option<int> {
    if book.buys.len() > 0 && book.sells.len() > 0 {
        Some((book.buys.at(0).price + book.sells.at(0).price) / 2)
    } else {
        None
    }
}

/// Would recording the current spot at `now` overflow the aggregator?
pub open spec fn twap_overflows(book: &OrderBook, now: u64) -> bool {
    &&& now > book.twap_oracle.last_updated_slot
    &&& spot_of(book) is Some
    &&& next_aggregate(
        book.twap_oracle,
        next_observation(book.twap_oracle, spot_of(book)->0 as u64),
        now,
    ) > u128::MAX
}

/// The oracle after an update at `now` that did not overflow.
pub open spec fn twap_after(book: &OrderBook, now: u64) -> TWAPOracle {
    if now > book.twap_oracle.last_updated_slot && spot_of(book) is Some {
        let obs = next_observation(book.twap_oracle, spot_of(book)->0 as u64);
        TWAPOracle {
            last_updated_slot: now,
            last_observation: obs as u64,
            observation_aggregator: next_aggregate(book.twap_oracle, obs, now) as u128,
            ..book.twap_oracle
        }
    } else {
        book.twap_oracle
    }
}

impl OrderBook {
    pub open spec fn wf(&self) -> bool {
        &&& self.buys.wf()
        &&& self.sells.wf()
        &&& self.buys.side == Side::Buy
        &&& self.sells.side == Side::Sell
        &&& self.market_makers.len() == NUM_MARKET_MAKERS
        &&& self.twap_oracle.wf()
    }

    /// The list that holds orders of `side`.
    pub open spec fn list(&self, side: Side) -> OrderList {
        match side {
            Side::Buy => self.buys,
            Side::Sell => self.sells,
        }
    }

    /// A book with empty sides of `depth` slots, a vacant maker table and an
    /// oracle that moves at most `max_change_per_update_bps` per update.
    pub fn new(
        base: Identity,
        quote: Identity,
        base_vault: Identity,
        quote_vault: Identity,
        pda_bump: u8,
        depth: usize,
        max_change_per_update_bps: u16,
        max_change_per_slot_bps: u16,
    ) -> (r: OrderBook)
        requires
            depth <= BOOK_DEPTH,
            max_change_per_update_bps <= crate::MAX_BPS,
        ensures
            r.wf(),
            r.buys.depth() == depth && r.buys.len() == 0,
            r.sells.depth() == depth && r.sells.len() == 0,
            forall|m: int| 0 <= m < NUM_MARKET_MAKERS ==> {
                &&& #[trigger] r.market_makers@[m].base_balance == 0
                &&& r.market_makers@[m].quote_balance == 0
                &&& r.market_makers@[m].authority.spec_is_zero()
            },
            r.twap_oracle == TWAPOracle::new_spec(max_change_per_update_bps, max_change_per_slot_bps),
            r.base_fees_sweepable == 0 && r.quote_fees_sweepable == 0,
            r.base == base && r.quote == quote,
            r.base_vault == base_vault && r.quote_vault == quote_vault,
            r.pda_bump == pda_bump,
    {
        let mut market_makers: Vec<MarketMaker> = Vec::new();
        while market_makers.len() < NUM_MARKET_MAKERS
            invariant
                market_makers.len() <= NUM_MARKET_MAKERS,
                forall|m: int| 0 <= m < market_makers.len() ==> {
                    &&& #[trigger] market_makers@[m].base_balance == 0
                    &&& market_makers@[m].quote_balance == 0
                    &&& market_makers@[m].authority.spec_is_zero()
                },
            decreases NUM_MARKET_MAKERS - market_makers.len(),
        {
            market_makers.push(MarketMaker::vacant());
        }
        OrderBook {
            base,
            quote,
            base_vault,
            quote_vault,
            buys: OrderList::with_depth(Side::Buy, depth),
            sells: OrderList::with_depth(Side::Sell, depth),
            market_makers,
            twap_oracle: TWAPOracle::new(max_change_per_update_bps, max_change_per_slot_bps),
            base_fees_sweepable: 0,
            quote_fees_sweepable: 0,
            pda_bump,
        }
    }

    /// The list that a taker on `side` trades against, and the maker table.
    pub fn get_opposite_side(&mut self, side: Side) -> (r: (&mut OrderList, &mut Vec<MarketMaker>))
        ensures
            *r.0 == old(self).list(opposite(side)),
            *r.1 == old(self).market_makers,
            side == Side::Buy ==> *final(self) == (OrderBook {
                sells: *final(r.0),
                market_makers: *final(r.1),
                ..*old(self)
            }),
            side == Side::Sell ==> *final(self) == (OrderBook {
                buys: *final(r.0),
                market_makers: *final(r.1),
                ..*old(self)
            }),
    {
        match side {
            Side::Buy => (&mut self.sells, &mut self.market_makers),
            Side::Sell => (&mut self.buys, &mut self.market_makers),
        }
    }

    /// The list that holds orders of `side`.
    pub fn order_list(&mut self, side: Side) -> (r: &mut OrderList)
        ensures
            *r == old(self).list(side),
            side == Side::Buy ==> *final(self) == (OrderBook { buys: *final(r), ..*old(self) }),
            side == Side::Sell ==> *final(self) == (OrderBook { sells: *final(r), ..*old(self) }),
    {
        match side {
            Side::Buy => &mut self.buys,
            Side::Sell => &mut self.sells,
        }
    }

    /// Records the mid of the best bid and the best ask at clock slot `now`.
    /// Nothing changes when `now` is not past the last update, when a side
    /// is empty, or (with an error) when the aggregator would overflow.
    pub fn update_twap_oracle(&mut self, now: u64) -> (r: Result<(), CLOBError>)
        requires
            old(self).wf(),
        ensures
            final(self).wf(),
            twap_overflows(old(self), now) ==> r == Err::<(), CLOBError>(CLOBError::ArithmeticOverflow)
                && *final(self) == *old(self),
            !twap_overflows(old(self), now) ==> r is Ok && *final(self) == (OrderBook {
                twap_oracle: twap_after(old(self), now),
                ..*old(self)
            }),
    {
        if now <= self.twap_oracle.last_updated_slot {
            return Ok(());
        }
        let best_bid = self.buys.iter().next();
        let best_offer = self.sells.iter().next();
        match (best_bid, best_offer) {
            (Some((bid, _)), Some((offer, _))) => {
                let spot: u64 = ((bid.price as u128 + offer.price as u128) / 2) as u64;
                self.twap_oracle.record(now, spot)
            },
            _ => Ok(()),
        }
    }
}

/// A fresh book for a pair: full-depth sides and an oracle clamped to
/// 250 bps per update.
pub fn initialize_order_book(
    base: Identity,
    quote: Identity,
    base_vault: Identity,
    quote_vault: Identity,
    pda_bump: u8,
) -> (r: OrderBook)
    ensures
        r.wf(),
        r.buys.depth() == BOOK_DEPTH && r.buys.len() == 0,
        r.sells.depth() == BOOK_DEPTH && r.sells.len() == 0,
        r.twap_oracle == TWAPOracle::new_spec(250, 100),
        r.base_fees_sweepable == 0 && r.quote_fees_sweepable == 0,
        r.base == base && r.quote == quote,
        r.base_vault == base_vault && r.quote_vault == quote_vault,
        r.pda_bump == pda_bump,
{
    OrderBook::new(base, quote, base_vault, quote_vault, pda_bump, BOOK_DEPTH, 250, 100)
}

/// `makers` with row `m` credited `base` and `quote`.
pub open spec fn topped_up(makers: Seq<MarketMaker>, m: int, base: u64, quote: u64) -> Seq<MarketMaker> {
    makers.update(
        m,
        MarketMaker {
            base_balance: (makers[m].base_balance + base) as u64,
            quote_balance: (makers[m].quote_balance + quote) as u64,
            ..makers[m]
        },
    )
}

/// `makers` with row `m` debited `base` and `quote`.
pub open spec fn withdrawn(makers: Seq<MarketMaker>, m: int, base: u64, quote: u64) -> Seq<MarketMaker> {
    makers.update(
        m,
        MarketMaker {
            base_balance: (makers[m].base_balance - base) as u64,
            quote_balance: (makers[m].quote_balance - quote) as u64,
            ..makers[m]
        },
    )
}

/// Credits maker `market_maker_index` with what was pulled into the vaults.
/// Fails, changing nothing, when a balance would overflow.
pub fn top_up_balance(
    book: &mut OrderBook,
    market_maker_index: u32,
    base_amount: u64,
    quote_amount: u64,
) -> (r: Result<(), CLOBError>)
    requires
        old(book).wf(),
        market_maker_index < NUM_MARKET_MAKERS,
    ensures
        final(book).wf(),
        ({
            let m = old(book).market_makers@[market_maker_index as int];
            if m.base_balance + base_amount > u64::MAX || m.quote_balance + quote_amount > u64::MAX {
                r == Err::<(), CLOBError>(CLOBError::ArithmeticOverflow) && *final(book) == *old(book)
            } else {
                &&& r is Ok
                &&& final(book).market_makers@ == topped_up(
                    old(book).market_makers@,
                    market_maker_index as int,
                    base_amount,
                    quote_amount,
                )
                &&& *final(book) == (OrderBook { market_makers: final(book).market_makers, ..*old(book) })
            }
        }),
{
    let i = market_maker_index as usize;
    let mut m = book.market_makers[i];
    match (m.base_balance.checked_add(base_amount), m.quote_balance.checked_add(quote_amount)) {
        (Some(b), Some(q)) => {
            m.base_balance = b;
            m.quote_balance = q;
            book.market_makers.set(i, m);
            Ok(())
        },
        _ => Err(CLOBError::ArithmeticOverflow),
    }
}

/// Debits the balances of the maker that `signer` controls, before the
/// vaults pay out. Fails, changing nothing, when `signer` is not the maker's
/// authority or a balance is short.
pub fn withdraw_balance(
    book: &mut OrderBook,
    signer: &Identity,
    market_maker_index: u32,
    base_amount: u64,
    quote_amount: u64,
) -> (r: Result<(), CLOBError>)
    requires
        old(book).wf(),
        market_maker_index < NUM_MARKET_MAKERS,
    ensures
        final(book).wf(),
        ({
            let m = old(book).market_makers@[market_maker_index as int];
            if m.authority@ != signer@ {
                r == Err::<(), CLOBError>(CLOBError::UnauthorizedMarketMaker) && *final(book) == *old(book)
            } else if m.base_balance < base_amount || m.quote_balance < quote_amount {
                r == Err::<(), CLOBError>(CLOBError::InsufficientBalance) && *final(book) == *old(book)
            } else {
                &&& r is Ok
                &&& final(book).market_makers@ == withdrawn(
                    old(book).market_makers@,
                    market_maker_index as int,
                    base_amount,
                    quote_amount,
                )
                &&& *final(book) == (OrderBook { market_makers: final(book).market_makers, ..*old(book) })
            }
        }),
{
    let i = market_maker_index as usize;
    let mut m = book.market_makers[i];
    if !m.authority.same_as(signer) {
        return Err(CLOBError::UnauthorizedMarketMaker);
    }
    match (m.base_balance.checked_sub(base_amount), m.quote_balance.checked_sub(quote_amount)) {
        (Some(b), Some(q)) => {
            m.base_balance = b;
            m.quote_balance = q;
            book.market_makers.set(i, m);
            Ok(())
        },
        _ => Err(CLOBError::InsufficientBalance),
    }
}

/// Empties both fee accumulators and returns what they held, base first.
pub fn sweep_fees(book: &mut OrderBook) -> (r: (u64, u64))
    requires
        old(book).wf(),
    ensures
        final(book).wf(),
        r == (old(book).base_fees_sweepable, old(book).quote_fees_sweepable),
        *final(book) == (OrderBook { base_fees_sweepable: 0, quote_fees_sweepable: 0, ..*old(book) }),
{
    let base_amount = book.base_fees_sweepable;
    let quote_amount = book.quote_fees_sweepable;
    book.base_fees_sweepable = 0;
    book.quote_fees_sweepable = 0;
    (base_amount, quote_amount)
}

/// Gives the vacant maker row `index` to `market_maker`. Fails, changing
/// nothing, when the row already has an authority.
pub fn add_market_maker(book: &mut OrderBook, market_maker: Identity, index: u32) -> (r: Result<
    (),
    CLOBError,
>)
    requires
        old(book).wf(),
        index < NUM_MARKET_MAKERS,
    ensures
        final(book).wf(),
        ({
            let m = old(book).market_makers@[index as int];
            if !m.authority.spec_is_zero() {
                r == Err::<(), CLOBError>(CLOBError::IndexAlreadyTaken) && *final(book) == *old(book)
            } else {
                &&& r is Ok
                &&& final(book).market_makers@ == old(book).market_makers@.update(
                    index as int,
                    MarketMaker { authority: market_maker, ..m },
                )
                &&& *final(book) == (OrderBook { market_makers: final(book).market_makers, ..*old(book) })
            }
        }),
{
    let i = index as usize;
    let mut m = book.market_makers[i];
    if !m.authority.is_zero() {
        return Err(CLOBError::IndexAlreadyTaken);
    }
    m.authority = market_maker;
    book.market_makers.set(i, m);
    Ok(())
}

/// The oracle's current state.
pub fn get_twap(book: &OrderBook) -> (r: TWAPOracle)
    ensures
        r == book.twap_oracle,
{
    book.twap_oracle
}

/// The balances of the first maker row whose authority is `maker`.
pub fn get_market_maker_balances(book: &OrderBook, maker: &Identity) -> (r: Result<
    MarketMakerBalances,
    CLOBError,
>)
    requires
        book.wf(),
    ensures
        match r {
            Ok(b) => exists|m: int|
                0 <= m < NUM_MARKET_MAKERS && (#[trigger] book.market_makers@[m]).authority@ == maker@
                    && b == (MarketMakerBalances {
                    base_balance: book.market_makers@[m].base_balance,
                    quote_balance: book.market_makers@[m].quote_balance,
                }) && forall|j: int| 0 <= j < m ==> (#[trigger] book.market_makers@[j]).authority@ != maker@,
            Err(e) => e == CLOBError::MakerNotFound && forall|j: int|
                0 <= j < NUM_MARKET_MAKERS ==> (#[trigger] book.market_makers@[j]).authority@ != maker@,
        },
{
    let mut i: usize = 0;
    while i < book.market_makers.len()
        invariant
            book.wf(),
            i <= NUM_MARKET_MAKERS,
            forall|j: int| 0 <= j < i ==> (#[trigger] book.market_makers@[j]).authority@ != maker@,
        decreases NUM_MARKET_MAKERS - i,
    {
        let m = &book.market_makers[i];
        if m.authority.same_as(maker) {
            return Ok(MarketMakerBalances { base_balance: m.base_balance, quote_balance: m.quote_balance });
        }
        i = i + 1;
    }
    Err(CLOBError::MakerNotFound)
}

/// The slot of the best resting order on `side` with this `ref_id` and maker.
pub fn get_order_index(book: &OrderBook, side: Side, ref_id: u32, market_maker_index: u8) -> (r: Option<u8>)
    requires
        book.wf(),
    ensures
        ({
            let l = book.list(side);
            match r {
                Some(s) => exists|k: int|
                    0 <= k < l.len() && l.chain@[k] == s && (#[trigger] l.at(k)).ref_id == ref_id
                        && l.at(k).market_maker_index == market_maker_index && forall|j: int|
                        0 <= j < k ==> !((#[trigger] l.at(j)).ref_id == ref_id
                            && l.at(j).market_maker_index == market_maker_index),
                None => forall|j: int|
                    0 <= j < l.len() ==> !((#[trigger] l.at(j)).ref_id == ref_id && l.at(j).market_maker_index
                        == market_maker_index),
            }
        }),
{
    let list = match side {
        Side::Buy => &book.buys,
        Side::Sell => &book.sells,
    };
    let mut it = list.iter();
    loop
        invariant
            it.wf(),
            it.list == list,
            *list == book.list(side),
            forall|j: int|
                0 <= j < it.pos@ ==> !((#[trigger] list.at(j)).ref_id == ref_id && list.at(j).market_maker_index
                    == market_maker_index),
        decreases list.len() - it.pos@,
    {
        let ghost k = it.pos@;
        match it.next() {
            Some((order, idx)) => {
                if order.ref_id == ref_id && order.market_maker_index == market_maker_index {
                    assert(list.at(k) == order);
                    return Some(idx);
                }
            },
            None => {
                return None;
            },
        }
    }
}

/// How many orders fit in a reply of `max_return_data` bytes: a 4-byte
/// length, then 16 bytes per order.
pub fn max_returnable_orders(max_return_data: usize) -> (r: usize)
    requires
        max_return_data >= 4,
    ensures
        r == (max_return_data - 4) / 16,
{
    (max_return_data - 4) / 16
}

/// Amount and price of the best orders on `side`, best first, as many as a
/// reply of `max_return_data` bytes holds.
pub fn get_best_orders(book: &OrderBook, side: Side, max_return_data: usize) -> (r: Vec<AmountAndPrice>)
    requires
        book.wf(),
        max_return_data >= 4,
    ensures
        ({
            let l = book.list(side);
            let n = if l.len() < (max_return_data - 4) / 16 { l.len() } else { (max_return_data - 4) / 16 };
            &&& r@.len() == n
            &&& forall|k: int| 0 <= k < n ==> #[trigger] r@[k] == (AmountAndPrice {
                amount: l.at(k).amount_in,
                price: l.at(k).price,
            })
        }),
{
    let list = match side {
        Side::Buy => &book.buys,
        Side::Sell => &book.sells,
    };
    let max_returnable = max_returnable_orders(max_return_data);
    let mut orders: Vec<AmountAndPrice> = Vec::new();
    let mut it = list.iter();
    while orders.len() < max_returnable
        invariant
            it.wf(),
            it.list == list,
            *list == book.list(side),
            orders.len() == it.pos@,
            orders.len() <= max_returnable,
            max_returnable == (max_return_data - 4) / 16,
            forall|k: int| 0 <= k < orders.len() ==> #[trigger] orders@[k] == (AmountAndPrice {
                amount: list.at(k).amount_in,
                price: list.at(k).price,
            }),
        ensures
            orders.len() == if list.len() < max_returnable { list.len() } else { max_returnable as int },
            forall|k: int| 0 <= k < orders.len() ==> #[trigger] orders@[k] == (AmountAndPrice {
                amount: list.at(k).amount_in,
                price: list.at(k).price,
            }),
        decreases max_returnable - orders.len(),
    {
        match it.next() {
            Some((order, _)) => {
                orders.push(AmountAndPrice { amount: order.amount_in, price: order.price });
            },
            None => {
                break;
            },
        }
    }
    orders
}

/// `makers` with `amount` taken from the balance of row `m` that backs orders on `side`.
pub open spec fn debited(makers: Seq<MarketMaker>, m: int, side: Side, amount: u64) -> Seq<MarketMaker> {
    makers.update(m, credit_spec(makers[m], side, -amount))
}

/// Why a limit order would be refused, if it would.
pub open spec fn limit_error(
    book: &OrderBook,
    signer: &Identity,
    now: u64,
    side: Side,
    amount_in: u64,
    price: u64,
    market_maker_index: u8,
) -> Option<CLOBError> {
    let m = book.market_makers@[market_maker_index as int];
    let l = book.list(side);
    if m.authority@ != signer@ {
        Some(CLOBError::UnauthorizedMarketMaker)
    } else if amount_in == 0 || price == 0 {
        Some(CLOBError::InvalidOrder)
    } else if locked_balance(m, side) < amount_in {
        Some(CLOBError::InsufficientBalance)
    } else if l.is_full() && l.insert_rank(price) == l.len() {
        Some(CLOBError::InferiorPrice)
    } else if l.is_full() && !l.worst_refund_fits(
        debited(book.market_makers@, market_maker_index as int, side, amount_in),
    ) {
        Some(CLOBError::ArithmeticOverflow)
    } else if twap_overflows(book, now) {
        Some(CLOBError::ArithmeticOverflow)
    } else {
        None
    }
}

/// The fields that no order operation touches are those of `old`.
pub open spec fn same_frame(old: &OrderBook, new: &OrderBook) -> bool {
    &&& new.base == old.base
    &&& new.quote == old.quote
    &&& new.base_vault == old.base_vault
    &&& new.quote_vault == old.quote_vault
    &&& new.pda_bump == old.pda_bump
}

/// Places a limit order for maker `market_maker_index`, whose authority
/// `signer` must be, at clock slot `now`. The oracle is updated first, the
/// maker's balance on the order's input side is debited by `amount_in`, and
/// the order is inserted; returns its slot. On any error nothing changes.
pub fn submit_limit_order(
    book: &mut OrderBook,
    signer: &Identity,
    now: u64,
    side: Side,
    amount_in: u64,
    price: u64,
    ref_id: u32,
    market_maker_index: u8,
) -> (r: Result<u8, CLOBError>)
    requires
        old(book).wf(),
        market_maker_index < NUM_MARKET_MAKERS,
    ensures
        final(book).wf(),
        match limit_error(old(book), signer, now, side, amount_in, price, market_maker_index) {
            Some(e) => r == Err::<u8, CLOBError>(e) && *final(book) == *old(book),
            None => match r {
                Ok(s) => {
                    &&& OrderList::inserted(
                        old(book).list(side),
                        final(book).list(side),
                        s,
                        OrderEntry { market_maker_index, ref_id, price, amount_in },
                        debited(old(book).market_makers@, market_maker_index as int, side, amount_in),
                        final(book).market_makers@,
                    )
                    &&& side == Side::Buy ==> final(book).sells == old(book).sells
                    &&& side == Side::Sell ==> final(book).buys == old(book).buys
                    &&& final(book).twap_oracle == twap_after(old(book), now)
                    &&& final(book).base_fees_sweepable == old(book).base_fees_sweepable
                    &&& final(book).quote_fees_sweepable == old(book).quote_fees_sweepable
                    &&& same_frame(old(book), final(book))
                },
                Err(_) => false,
            },
        },
{
    let mi = market_maker_index as usize;
    let m = book.market_makers[mi];
    if !m.authority.same_as(signer) {
        return Err(CLOBError::UnauthorizedMarketMaker);
    }
    if amount_in == 0 || price == 0 {
        return Err(CLOBError::InvalidOrder);
    }
    let balance = match side {
        Side::Buy => m.quote_balance,
        Side::Sell => m.base_balance,
    };
    if balance < amount_in {
        return Err(CLOBError::InsufficientBalance);
    }
    let ghost makers1 = debited(book.market_makers@, mi as int, side, amount_in);
    // Whether the order fits is decided before anything changes, so that a
    // refused order leaves the book, balances included, as it was.
    {
        let list = match side {
            Side::Buy => &book.buys,
            Side::Sell => &book.sells,
        };
        let full = list.free_bitmap.all_taken();
        proof {
            list.lemma_rank_last(price);
            assert(full == list.is_full()) by {
                if full {
                    assert forall|j: int| 0 <= j < list.depth() implies #[trigger] list.orders@[j].amount_in > 0 by {
                        assert(!list.free_bitmap.is_free(j));
                    }
                }
                if list.is_full() {
                    assert forall|j: int| 0 <= j < 128 implies !#[trigger] list.free_bitmap.is_free(j) by {
                        if j < list.depth() {
                            assert(list.orders@[j].amount_in > 0);
                        }
                    }
                }
            }
        }
        if full {
            if list.best_order_idx == NULL {
                return Err(CLOBError::InferiorPrice);
            }
            let w = list.worst_order_idx;
            proof {
                assert(list.chain@.contains(list.chain@[list.len() - 1]));
                assert(list.at(list.len() - 1) == list.orders@[w as int]);
            }
            let worst = list.orders[w as usize];
            if !list.is_price_better(price, worst.price) {
                return Err(CLOBError::InferiorPrice);
            }
            let wm = book.market_makers[worst.market_maker_index as usize];
            let refund_base: u64 = if worst.market_maker_index == market_maker_index {
                balance - amount_in
            } else {
                match side {
                    Side::Buy => wm.quote_balance,
                    Side::Sell => wm.base_balance,
                }
            };
            if refund_base as u128 + worst.amount_in as u128 > u64::MAX as u128 {
                return Err(CLOBError::ArithmeticOverflow);
            }
        }
    }
    let ghost b0 = *book;
    if book.update_twap_oracle(now).is_err() {
        return Err(CLOBError::ArithmeticOverflow);
    }
    let mut debited_row = m;
    match side {
        Side::Buy => debited_row.quote_balance = balance - amount_in,
        Side::Sell => debited_row.base_balance = balance - amount_in,
    }
    book.market_makers.set(mi, debited_row);
    proof {
        assert(book.market_makers@ =~= makers1);
        assert(book.list(side) == b0.list(side));
    }
    let placed = match side {
        Side::Buy => book.buys.insert_order(amount_in, price, ref_id, market_maker_index, &mut book.market_makers),
        Side::Sell => book.sells.insert_order(amount_in, price, ref_id, market_maker_index, &mut book.market_makers),
    };
    match placed {
        Some(s) => Ok(s),
        None => {
            // The checks above leave the insertion room or an order to evict.
            proof {
                assert(false);
            }
            Err(CLOBError::InferiorPrice)
        },
    }
}

/// Why a cancellation would be refused, if it would.
pub open spec fn cancel_error(
    book: &OrderBook,
    signer: &Identity,
    now: u64,
    side: Side,
    order_index: u8,
    market_maker_index: u8,
) -> Option<CLOBError> {
    let m = book.market_makers@[market_maker_index as int];
    let l = book.list(side);
    let o = l.orders@[order_index as int];
    if m.authority@ != signer@ {
        Some(CLOBError::UnauthorizedMarketMaker)
    } else if order_index >= l.depth() || o.amount_in == 0 || o.market_maker_index != market_maker_index {
        Some(CLOBError::UnauthorizedMarketMaker)
    } else if locked_balance(m, side) + o.amount_in > u64::MAX {
        Some(CLOBError::ArithmeticOverflow)
    } else if twap_overflows(book, now) {
        Some(CLOBError::ArithmeticOverflow)
    } else {
        None
    }
}

/// Cancels the order in slot `order_index` of `side`, which must belong to
/// maker `market_maker_index`, whose authority `signer` must be. The oracle
/// is updated first; the maker gets the order's remainder back. On any error
/// nothing changes.
pub fn cancel_limit_order(
    book: &mut OrderBook,
    signer: &Identity,
    now: u64,
    side: Side,
    order_index: u8,
    market_maker_index: u8,
) -> (r: Result<(), CLOBError>)
    requires
        old(book).wf(),
        market_maker_index < NUM_MARKET_MAKERS,
    ensures
        final(book).wf(),
        match cancel_error(old(book), signer, now, side, order_index, market_maker_index) {
            Some(e) => r == Err::<(), CLOBError>(e) && *final(book) == *old(book),
            None => {
                let l = old(book).list(side);
                let o = l.orders@[order_index as int];
                &&& r is Ok
                &&& final(book).list(side).wf()
                &&& final(book).list(side).side == side
                &&& final(book).list(side).chain@ == l.chain@.remove(l.pos_of(order_index))
                &&& final(book).list(side).entries() == l.entries().remove(l.pos_of(order_index))
                &&& final(book).market_makers@ == old(book).market_makers@.update(
                    market_maker_index as int,
                    credit_spec(old(book).market_makers@[market_maker_index as int], side, o.amount_in as int),
                )
                &&& side == Side::Buy ==> final(book).sells == old(book).sells
                &&& side == Side::Sell ==> final(book).buys == old(book).buys
                &&& final(book).twap_oracle == twap_after(old(book), now)
                &&& final(book).base_fees_sweepable == old(book).base_fees_sweepable
                &&& final(book).quote_fees_sweepable == old(book).quote_fees_sweepable
                &&& same_frame(old(book), final(book))
            },
        },
{
    let mi = market_maker_index as usize;
    let m = book.market_makers[mi];
    if !m.authority.same_as(signer) {
        return Err(CLOBError::UnauthorizedMarketMaker);
    }
    {
        let list = match side {
            Side::Buy => &book.buys,
            Side::Sell => &book.sells,
        };
        if order_index as usize >= list.orders.len() {
            return Err(CLOBError::UnauthorizedMarketMaker);
        }
        let order = list.orders[order_index as usize];
        if order.amount_in == 0 || order.market_maker_index != market_maker_index {
            return Err(CLOBError::UnauthorizedMarketMaker);
        }
        let balance = match side {
            Side::Buy => m.quote_balance,
            Side::Sell => m.base_balance,
        };
        if balance as u128 + order.amount_in as u128 > u64::MAX as u128 {
            return Err(CLOBError::ArithmeticOverflow);
        }
    }
    if book.update_twap_oracle(now).is_err() {
        return Err(CLOBError::ArithmeticOverflow);
    }
    match side {
        Side::Buy => book.buys.delete_order(order_index, &mut book.market_makers),
        Side::Sell => book.sells.delete_order(order_index, &mut book.market_makers),
    }
    Ok(())
}

/// How much of the taker's input asset the resting order `e` can take.
pub open spec fn absorb_of(taker: Side, e: OrderEntry) -> int {
    match taker {
        Side::Buy => (e.amount_in * PRICE_PRECISION) / (e.price as int),
        Side::Sell => (e.amount_in * e.price) / (PRICE_PRECISION as int),
    }
}

/// What the taker gets for `input` at `price`.
pub open spec fn payout_of(taker: Side, input: int, price: u64) -> int {
    match taker {
        Side::Buy => (input * PRICE_PRECISION) / (price as int),
        Side::Sell => (input * price) / (PRICE_PRECISION as int),
    }
}

/// The taker's input after the fee, rounded down.
pub open spec fn net_input(amount_in: u64, fee_bps: u16) -> int {
    (amount_in * (MAX_BPS - fee_bps)) / (MAX_BPS as int)
}

/// Matching `remaining` of a taker's input against the resting orders
/// `entries` (best first), with `out` already paid out. Each order the input
/// outlasts is consumed whole: its maker is credited what it absorbs and the
/// taker gets its whole remainder. The first order that can absorb the rest
/// takes all of it, pays out at its price and keeps what is left, if
/// anything. Returns whether no amount left its range, the resting orders and
/// the maker table after matching, the total paid out, and the input that
/// found no order.
pub open spec fn sweep(
    taker: Side,
    entries: Seq<OrderEntry>,
    makers: Seq<MarketMaker>,
    remaining: int,
    out: int,
) -> (bool, Seq<OrderEntry>, Seq<MarketMaker>, int, int)
    decreases entries.len(),
{
    if entries.len() == 0 {
        (true, entries, makers, out, remaining)
    } else {
        let e = entries[0];
        let m = e.market_maker_index as int;
        let a = absorb_of(taker, e);
        if a >= remaining {
            let paid = payout_of(taker, remaining, e.price);
            if paid > e.amount_in || out + paid > u64::MAX || locked_balance(makers[m], taker) + remaining
                > u64::MAX {
                (false, entries, makers, out, remaining)
            } else {
                let left = e.amount_in - paid;
                let rest = if left == 0 {
                    entries.drop_first()
                } else {
                    entries.update(0, OrderEntry { amount_in: left as u64, ..e })
                };
                (true, rest, makers.update(m, credit_spec(makers[m], taker, remaining)), out + paid, 0)
            }
        } else if out + e.amount_in > u64::MAX || locked_balance(makers[m], taker) + a > u64::MAX {
            (false, entries, makers, out, remaining)
        } else {
            sweep(
                taker,
                entries.drop_first(),
                makers.update(m, credit_spec(makers[m], taker, a)),
                remaining - a,
                out + e.amount_in,
            )
        }
    }
}

/// The fee accumulator that a taker on `side` pays into: the asset it delivers.
pub open spec fn fees_for(book: &OrderBook, side: Side) -> u64 {
    match side {
        Side::Buy => book.quote_fees_sweepable,
        Side::Sell => book.base_fees_sweepable,
    }
}

/// Why a take order would be refused, if it would.
pub open spec fn take_error(
    book: &OrderBook,
    fee_bps: u16,
    now: u64,
    side: Side,
    amount_in: u64,
    min_out: u64,
) -> Option<CLOBError> {
    let net = net_input(amount_in, fee_bps);
    let res = sweep(side, book.list(opposite(side)).entries(), book.market_makers@, net, 0);
    if fees_for(book, side) + (amount_in - net) > u64::MAX {
        Some(CLOBError::ArithmeticOverflow)
    } else if twap_overflows(book, now) {
        Some(CLOBError::ArithmeticOverflow)
    } else if !res.0 {
        Some(CLOBError::ArithmeticOverflow)
    } else if res.3 < min_out {
        Some(CLOBError::TakeNotFilled)
    } else {
        None
    }
}

/// Matches a taker's `amount_in` of the asset it delivers (quote when buying,
/// base when selling) against the opposite side, best price first, after the
/// taker fee of `global_state` and an oracle update at `now`. Returns what the
/// taker receives; fails, changing nothing, when that is below `min_out`.
pub fn submit_take_order(
    book: &mut OrderBook,
    global_state: &GlobalState,
    now: u64,
    side: Side,
    amount_in: u64,
    min_out: u64,
) -> (r: Result<u64, CLOBError>)
    requires
        old(book).wf(),
        global_state.wf(),
        amount_in > 0,
    ensures
        final(book).wf(),
        match take_error(old(book), global_state.taker_fee_in_bps, now, side, amount_in, min_out) {
            Some(e) => r == Err::<u64, CLOBError>(e) && *final(book) == *old(book),
            None => {
                let net = net_input(amount_in, global_state.taker_fee_in_bps);
                let res = sweep(
                    side,
                    old(book).list(opposite(side)).entries(),
                    old(book).market_makers@,
                    net,
                    0,
                );
                &&& r == Ok::<u64, CLOBError>(res.3 as u64)
                &&& final(book).list(opposite(side)).entries() == res.1
                &&& final(book).market_makers@ == res.2
                &&& final(book).list(side) == old(book).list(side)
                &&& fees_for(final(book), side) == fees_for(old(book), side) + (amount_in - net)
                &&& fees_for(final(book), opposite(side)) == fees_for(old(book), opposite(side))
                &&& final(book).twap_oracle == twap_after(old(book), now)
                &&& same_frame(old(book), final(book))
            },
        },
{
    let fee_bps = global_state.taker_fee_in_bps;
    proof {
        assert(amount_in * (MAX_BPS - fee_bps) <= amount_in * MAX_BPS) by (nonlinear_arith)
            requires
                fee_bps <= MAX_BPS,
        ;
        assert((amount_in * MAX_BPS) / (MAX_BPS as int) == amount_in) by (nonlinear_arith);
        vstd::arithmetic::div_mod::lemma_div_is_ordered(
            amount_in * (MAX_BPS - fee_bps),
            amount_in * MAX_BPS,
            MAX_BPS as int,
        );
        assert(0 <= amount_in * (MAX_BPS - fee_bps)) by (nonlinear_arith)
            requires
                fee_bps <= MAX_BPS,
        ;
        vstd::arithmetic::div_mod::lemma_div_pos_is_pos(amount_in * (MAX_BPS - fee_bps), MAX_BPS as int);
    }
    let net: u128 = (amount_in as u128) * ((MAX_BPS - fee_bps) as u128) / (MAX_BPS as u128);
    let fee: u64 = amount_in - net as u64;
    let fees_before = match side {
        Side::Buy => book.quote_fees_sweepable,
        Side::Sell => book.base_fees_sweepable,
    };
    if fees_before as u128 + fee as u128 > u64::MAX as u128 {
        return Err(CLOBError::ArithmeticOverflow);
    }
    let ghost b0 = *book;
    let oracle_before = book.twap_oracle;
    if book.update_twap_oracle(now).is_err() {
        return Err(CLOBError::ArithmeticOverflow);
    }
    // Matching runs on copies of the opposite side and of the maker table;
    // they replace the book's own only once the take has succeeded.
    let mut list = match side {
        Side::Buy => book.sells.duplicate(),
        Side::Sell => book.buys.duplicate(),
    };
    let mut makers = copy_makers(&book.market_makers);
    let ghost target = sweep(side, list.entries(), makers@, net as int, 0);
    let mut remaining: u128 = net;
    let mut amount_out: u64 = 0;
    let mut in_range = true;
    loop
        invariant_except_break
            in_range,
            sweep(side, list.entries(), makers@, remaining as int, amount_out as int) == target,
        invariant
            list.wf(),
            list.side == opposite(side),
            makers.len() == NUM_MARKET_MAKERS,
            remaining <= u64::MAX,
            target == sweep(side, b0.list(opposite(side)).entries(), b0.market_makers@, net as int, 0),
        ensures
            list.wf(),
            list.side == opposite(side),
            makers.len() == NUM_MARKET_MAKERS,
            in_range ==> target == (true, list.entries(), makers@, amount_out as int, remaining as int),
            !in_range ==> !target.0,
        decreases list.len(),
    {
        if list.best_order_idx == NULL {
            assert(list.entries() =~= Seq::<OrderEntry>::empty());
            break;
        }
        let h = list.best_order_idx;
        proof {
            assert(list.chain@.contains(list.chain@[0]));
            assert(list.at(0) == list.orders@[h as int]);
            assert(list.entries()[0] == entry_of(list.at(0)));
        }
        let o = list.orders[h as usize];
        let ghost e0 = list.entries();
        let ghost m0 = makers@;
        proof {
            assert(list.pos_of(h) == 0);
        }
        let a = o.amount_in as u128;
        let p = o.price as u128;
        proof {
            assert(a * PRICE_PRECISION <= u64::MAX * PRICE_PRECISION) by (nonlinear_arith)
                requires
                    a <= u64::MAX,
            ;
            assert(a * p <= u64::MAX * u64::MAX) by (nonlinear_arith)
                requires
                    a <= u64::MAX,
                    p <= u64::MAX,
            ;
        }
        let absorb: u128 = match side {
            Side::Buy => a * PRICE_PRECISION / p,
            Side::Sell => a * p / PRICE_PRECISION,
        };
        let mi = o.market_maker_index as usize;
        let mk = makers[mi];
        let balance = match side {
            Side::Buy => mk.quote_balance,
            Side::Sell => mk.base_balance,
        };
        if absorb >= remaining {
            proof {
                assert(remaining * PRICE_PRECISION <= u64::MAX * PRICE_PRECISION) by (nonlinear_arith)
                    requires
                        remaining <= u64::MAX,
                ;
                assert(remaining * p <= u64::MAX * u64::MAX) by (nonlinear_arith)
                    requires
                        remaining <= u64::MAX,
                        p <= u64::MAX,
                ;
            }
            let paid: u128 = match side {
                Side::Buy => remaining * PRICE_PRECISION / p,
                Side::Sell => remaining * p / PRICE_PRECISION,
            };
            if paid > a || amount_out as u128 + paid > u64::MAX as u128 || balance as u128 + remaining
                > u64::MAX as u128 {
                in_range = false;
                break;
            }
            let left = (a - paid) as u64;
            if left == 0 {
                list.remove_order(h);
                proof {
                    assert(list.entries() =~= e0.drop_first());
                }
            } else {
                list.reduce_order(h, left);
            }
            credit(&mut makers, mi, side, remaining as u64);
            amount_out = amount_out + paid as u64;
            remaining = 0;
            break;
        } else {
            if amount_out as u128 + a > u64::MAX as u128 || balance as u128 + absorb > u64::MAX as u128 {
                in_range = false;
                break;
            }
            list.remove_order(h);
            credit(&mut makers, mi, side, absorb as u64);
            proof {
                assert(list.entries() =~= e0.drop_first());
            }
            remaining = remaining - absorb;
            amount_out = amount_out + o.amount_in;
        }
    }
    if !in_range {
        book.twap_oracle = oracle_before;
        return Err(CLOBError::ArithmeticOverflow);
    }
    if amount_out < min_out {
        book.twap_oracle = oracle_before;
        return Err(CLOBError::TakeNotFilled);
    }
    match side {
        Side::Buy => book.quote_fees_sweepable = fees_before + fee,
        Side::Sell => book.base_fees_sweepable = fees_before + fee,
    }
    let (opposite_list, book_makers) = book.get_opposite_side(side);
    *opposite_list = list;
    *book_makers = makers;
    Ok(amount_out)
}

/// A copy of the maker table.
pub fn copy_makers(makers: &Vec<MarketMaker>) -> (r: Vec<MarketMaker>)
    ensures
        r@ == makers@,
{
    let mut r: Vec<MarketMaker> = Vec::new();
    let mut i: usize = 0;
    while i < makers.len()
        invariant
            i <= makers.len(),
            r@ == makers@.subrange(0, i as int),
        decreases makers.len() - i,
    {
        r.push(makers[i]);
        i = i + 1;
    }
    assert(r@ =~= makers@);
    r
}

} // verus!
