use vstd::arithmetic::div_mod::{lemma_div_by_multiple, lemma_fundamental_div_mod};
use vstd::prelude::*;

use crate::accounting::{
    amounts, balances_for, base_owed, lemma_credit_totals, lemma_total_insert, lemma_total_remove,
    lemma_total_update, quote_owed, total,
};
use crate::market_maker::{credit_spec, locked_balance, MarketMaker};
use crate::order_book::{debited, fees_for, net_input, sweep, topped_up, withdrawn, OrderBook};
use crate::order_list::{OrderEntry, OrderList};
use crate::side::{opposite, Side};
use crate::twap::{lower_band, next_observation, upper_band, TWAPOracle};
use crate::{BOOK_DEPTH, MAX_BPS, NUM_MARKET_MAKERS};

verus! {

/// In every well-formed list the chain runs through exactly the slots that
/// hold an order, each once, and a slot is marked free exactly when it is empty.
pub proof fn lemma_chain_is_occupied_slots(l: OrderList)
    requires
        l.wf(),
    ensures
        l.chain@.no_duplicates(),
        forall|i: int| 0 <= i < l.depth() ==> (#[trigger] l.orders@[i].amount_in > 0 <==> l.chain@.contains(i as u8)),
        forall|i: int| 0 <= i < l.depth() ==> (#[trigger] l.free_bitmap.is_free(i) <==> l.orders@[i].amount_in == 0),
        forall|i: int| l.depth() <= i < BOOK_DEPTH ==> !#[trigger] l.free_bitmap.is_free(i),
{
}

/// Walking a well-formed list from best to worst meets prices that never
/// rise on the buy side and never fall on the sell side.
pub proof fn lemma_iteration_is_sorted(l: OrderList)
    requires
        l.wf(),
    ensures
        forall|j: int, k: int|
            0 <= j < k < l.entries().len() ==> (match l.side {
                Side::Buy => #[trigger] l.entries()[j].price >= #[trigger] l.entries()[k].price,
                Side::Sell => l.entries()[j].price <= l.entries()[k].price,
            }),
{
    assert forall|j: int, k: int| 0 <= j < k < l.entries().len() implies (match l.side {
        Side::Buy => #[trigger] l.entries()[j].price >= #[trigger] l.entries()[k].price,
        Side::Sell => l.entries()[j].price <= l.entries()[k].price,
    }) by {
        assert(l.entries()[j].price == l.at(j).price);
        assert(l.entries()[k].price == l.at(k).price);
    }
}

/// Inserting into a list that has a free slot adds exactly the new order to
/// the orders it holds and keeps them sorted; inserting orders one after the
/// other while there is room therefore yields all of them, best to worst.
pub proof fn lemma_insert_with_room(
    l0: OrderList,
    l1: OrderList,
    s: u8,
    e: OrderEntry,
    makers0: Seq<MarketMaker>,
    makers1: Seq<MarketMaker>,
)
    requires
        l0.wf(),
        !l0.is_full(),
        OrderList::inserted(l0, l1, s, e, makers0, makers1),
    ensures
        l1.entries().to_multiset() == l0.entries().to_multiset().insert(e),
        forall|j: int, k: int|
            0 <= j < k < l1.entries().len() ==> (match l1.side {
                Side::Buy => #[trigger] l1.entries()[j].price >= #[trigger] l1.entries()[k].price,
                Side::Sell => l1.entries()[j].price <= l1.entries()[k].price,
            }),
{
    l0.lemma_rank_last(e.price);
    vstd::seq_lib::to_multiset_insert(l0.entries(), l0.insert_rank(e.price), e);
    lemma_iteration_is_sorted(l1);
}

/// Topping a maker up and then withdrawing the same amounts gives back the
/// maker table it started from; the withdrawal cannot come up short.
pub proof fn lemma_top_up_then_withdraw(makers: Seq<MarketMaker>, m: int, base: u64, quote: u64)
    requires
        0 <= m < makers.len(),
        makers[m].base_balance + base <= u64::MAX,
        makers[m].quote_balance + quote <= u64::MAX,
    ensures
        topped_up(makers, m, base, quote)[m].base_balance >= base,
        topped_up(makers, m, base, quote)[m].quote_balance >= quote,
        topped_up(makers, m, base, quote)[m].authority == makers[m].authority,
        withdrawn(topped_up(makers, m, base, quote), m, base, quote) == makers,
{
    assert(withdrawn(topped_up(makers, m, base, quote), m, base, quote) =~= makers);
}

/// A limit order placed on a list with a free slot and then cancelled leaves
/// the list's orders and the maker table as they were: the order takes one
/// slot and the cancellation frees exactly that one, crediting the maker
/// with what was debited.
pub proof fn lemma_limit_then_cancel(
    l0: OrderList,
    l1: OrderList,
    s: u8,
    e: OrderEntry,
    makers0: Seq<MarketMaker>,
    makers1: Seq<MarketMaker>,
)
    requires
        l0.wf(),
        !l0.is_full(),
        makers0.len() == NUM_MARKET_MAKERS,
        e.market_maker_index < NUM_MARKET_MAKERS,
        locked_balance(makers0[e.market_maker_index as int], l0.side) >= e.amount_in,
        OrderList::inserted(
            l0,
            l1,
            s,
            e,
            debited(makers0, e.market_maker_index as int, l0.side, e.amount_in),
            makers1,
        ),
    ensures
        l1.chain@.contains(s),
        l1.len() == l0.len() + 1,
        l1.orders@[s as int].amount_in == e.amount_in,
        l1.orders@[s as int].market_maker_index == e.market_maker_index,
        l1.chain@.remove(l1.pos_of(s)) == l0.chain@,
        l1.entries().remove(l1.pos_of(s)) == l0.entries(),
        makers1.update(
            e.market_maker_index as int,
            credit_spec(makers1[e.market_maker_index as int], l1.side, l1.orders@[s as int].amount_in as int),
        ) == makers0,
{
    let k = l0.insert_rank(e.price);
    l0.lemma_rank_last(e.price);
    let c0 = l0.chain@;
    let c1 = l1.chain@;
    c0.insert_ensures(k, s);
    assert(c1[k] == s);
    assert(c1.contains(s));
    l1.lemma_pos_of(s);
    assert(l1.pos_of(s) == k);
    assert(c1.remove(k) =~= c0);
    assert(l1.entries()[k] == e);
    assert(l1.entries().remove(k) =~= l0.entries());
    assert(l1.at(k) == l1.orders@[s as int]);
    let mm = e.market_maker_index as int;
    assert(makers1.update(mm, credit_spec(makers1[mm], l1.side, e.amount_in as int)) =~= makers0);
}

/// The clamp bounds each move: above the previous observation by at most
/// `last * bps / MAX_BPS` rounded down, below it by at most that rounded up.
pub proof fn lemma_observation_in_band(o: TWAPOracle, spot: u64)
    requires
        o.wf(),
        o.last_updated_slot != 0,
    ensures
        lower_band(o.last_observation, o.max_observation_change_per_update_bps) <= next_observation(o, spot),
        next_observation(o, spot) <= upper_band(o.last_observation, o.max_observation_change_per_update_bps),
{
    crate::twap::lemma_bands(o.last_observation, o.max_observation_change_per_update_bps);
}

/// Away from the first observation, each update moves the observation by at
/// most `last_observation * max_observation_change_per_update_bps / MAX_BPS`,
/// where that quotient is exact.
pub proof fn lemma_observation_change_bounded(o: TWAPOracle, spot: u64)
    requires
        o.wf(),
        o.last_updated_slot != 0,
        (o.last_observation * o.max_observation_change_per_update_bps) % (MAX_BPS as int) == 0,
    ensures
        ({
            let next = next_observation(o, spot);
            let last = o.last_observation as int;
            let step = last * o.max_observation_change_per_update_bps;
            &&& (next - last) * MAX_BPS <= step
            &&& (last - next) * MAX_BPS <= step
        }),
{
    let l = o.last_observation as int;
    let d = o.max_observation_change_per_update_bps as int;
    let m = MAX_BPS as int;
    lemma_fundamental_div_mod(l * d, m);
    let q = (l * d) / m;
    assert(l * d == m * q);
    assert(0 <= q <= l) by (nonlinear_arith)
        requires
            l * d == m * q,
            0 <= d <= m,
            0 <= l,
            m > 0,
    ;
    assert(l * (m + d) == (l + q) * m) by (nonlinear_arith)
        requires
            l * d == m * q,
    ;
    assert(l * (m - d) == (l - q) * m) by (nonlinear_arith)
        requires
            l * d == m * q,
    ;
    lemma_div_by_multiple(l + q, m);
    lemma_div_by_multiple(l - q, m);
    assert(upper_band(o.last_observation, o.max_observation_change_per_update_bps) == l + q);
    assert(lower_band(o.last_observation, o.max_observation_change_per_update_bps) == l - q);
    let next = next_observation(o, spot);
    assert(l - q <= next <= l + q);
    assert((next - l) * m <= q * m) by (nonlinear_arith)
        requires
            next - l <= q,
            m > 0,
    ;
    assert((l - next) * m <= q * m) by (nonlinear_arith)
        requires
            l - next <= q,
            m > 0,
    ;
}

/// What the book owes in each asset moves by exactly what a top-up brings
/// into the vaults.
pub proof fn lemma_top_up_conserves(b0: OrderBook, b1: OrderBook, m: int, base: u64, quote: u64)
    requires
        0 <= m < b0.market_makers@.len(),
        b0.market_makers@[m].base_balance + base <= u64::MAX,
        b0.market_makers@[m].quote_balance + quote <= u64::MAX,
        b1.market_makers@ == topped_up(b0.market_makers@, m, base, quote),
        b1 == (OrderBook { market_makers: b1.market_makers, ..b0 }),
    ensures
        base_owed(&b1) == base_owed(&b0) + base,
        quote_owed(&b1) == quote_owed(&b0) + quote,
{
    let m0 = b0.market_makers@;
    let m1 = b1.market_makers@;
    assert(balances_for(m1, Side::Sell) =~= balances_for(m0, Side::Sell).update(m, m0[m].base_balance + base));
    assert(balances_for(m1, Side::Buy) =~= balances_for(m0, Side::Buy).update(m, m0[m].quote_balance + quote));
    lemma_total_update(balances_for(m0, Side::Sell), m, m0[m].base_balance + base);
    lemma_total_update(balances_for(m0, Side::Buy), m, m0[m].quote_balance + quote);
}

/// What the book owes in each asset moves by exactly what a withdrawal
/// takes out of the vaults.
pub proof fn lemma_withdraw_conserves(b0: OrderBook, b1: OrderBook, m: int, base: u64, quote: u64)
    requires
        0 <= m < b0.market_makers@.len(),
        b0.market_makers@[m].base_balance >= base,
        b0.market_makers@[m].quote_balance >= quote,
        b1.market_makers@ == withdrawn(b0.market_makers@, m, base, quote),
        b1 == (OrderBook { market_makers: b1.market_makers, ..b0 }),
    ensures
        base_owed(&b1) == base_owed(&b0) - base,
        quote_owed(&b1) == quote_owed(&b0) - quote,
{
    let m0 = b0.market_makers@;
    let m1 = b1.market_makers@;
    assert(balances_for(m1, Side::Sell) =~= balances_for(m0, Side::Sell).update(m, m0[m].base_balance - base));
    assert(balances_for(m1, Side::Buy) =~= balances_for(m0, Side::Buy).update(m, m0[m].quote_balance - quote));
    lemma_total_update(balances_for(m0, Side::Sell), m, m0[m].base_balance - base);
    lemma_total_update(balances_for(m0, Side::Buy), m, m0[m].quote_balance - quote);
}

/// Sweeping the fees lowers what the book owes by exactly the fees paid out.
pub proof fn lemma_sweep_fees_conserves(b0: OrderBook, b1: OrderBook)
    requires
        b1 == (OrderBook { base_fees_sweepable: 0, quote_fees_sweepable: 0, ..b0 }),
    ensures
        base_owed(&b1) == base_owed(&b0) - b0.base_fees_sweepable,
        quote_owed(&b1) == quote_owed(&b0) - b0.quote_fees_sweepable,
{
}

/// Placing a limit order moves value between the maker's balance and the
/// book without changing what the book owes in either asset, eviction
/// refund included.
pub proof fn lemma_limit_conserves(
    l0: OrderList,
    l1: OrderList,
    s: u8,
    e: OrderEntry,
    makers0: Seq<MarketMaker>,
    makers1: Seq<MarketMaker>,
)
    requires
        l0.wf(),
        makers0.len() == NUM_MARKET_MAKERS,
        e.market_maker_index < NUM_MARKET_MAKERS,
        locked_balance(makers0[e.market_maker_index as int], l0.side) >= e.amount_in,
        l0.is_full() ==> l0.worst_refund_fits(debited(makers0, e.market_maker_index as int, l0.side, e.amount_in)),
        OrderList::inserted(
            l0,
            l1,
            s,
            e,
            debited(makers0, e.market_maker_index as int, l0.side, e.amount_in),
            makers1,
        ),
    ensures
        total(amounts(l1.entries())) + total(balances_for(makers1, l0.side)) == total(amounts(l0.entries()))
            + total(balances_for(makers0, l0.side)),
        total(balances_for(makers1, opposite(l0.side))) == total(balances_for(makers0, opposite(l0.side))),
{
    let side = l0.side;
    let mm = e.market_maker_index as int;
    let d = debited(makers0, mm, side, e.amount_in);
    let k = l0.insert_rank(e.price);
    l0.lemma_rank_last(e.price);
    lemma_credit_totals(makers0, mm, side, -e.amount_in);
    let a0 = amounts(l0.entries());
    if !l0.is_full() {
        assert(amounts(l1.entries()) =~= a0.insert(k, e.amount_in as int));
        lemma_total_insert(a0, k, e.amount_in as int);
    } else {
        let n = l0.len();
        let w = l0.at(n - 1);
        let wm = w.market_maker_index as int;
        assert(l0.entries()[n - 1] == crate::order_list::entry_of(w));
        assert(amounts(l1.entries()) =~= a0.remove(n - 1).insert(k, e.amount_in as int));
        lemma_total_remove(a0, n - 1);
        lemma_total_insert(a0.remove(n - 1), k, e.amount_in as int);
        assert(w.market_maker_index < NUM_MARKET_MAKERS);
        lemma_credit_totals(d, wm, side, w.amount_in as int);
    }
}

/// Cancelling an order hands its remainder back to its maker without
/// changing what the book owes in either asset.
pub proof fn lemma_cancel_conserves(
    l0: OrderList,
    l1: OrderList,
    i: u8,
    makers0: Seq<MarketMaker>,
    makers1: Seq<MarketMaker>,
)
    requires
        l0.wf(),
        l0.chain@.contains(i),
        makers0.len() == NUM_MARKET_MAKERS,
        locked_balance(makers0[l0.orders@[i as int].market_maker_index as int], l0.side)
            + l0.orders@[i as int].amount_in <= u64::MAX,
        l1.entries() == l0.entries().remove(l0.pos_of(i)),
        makers1 == makers0.update(
            l0.orders@[i as int].market_maker_index as int,
            credit_spec(
                makers0[l0.orders@[i as int].market_maker_index as int],
                l0.side,
                l0.orders@[i as int].amount_in as int,
            ),
        ),
    ensures
        total(amounts(l1.entries())) + total(balances_for(makers1, l0.side)) == total(amounts(l0.entries()))
            + total(balances_for(makers0, l0.side)),
        total(balances_for(makers1, opposite(l0.side))) == total(balances_for(makers0, opposite(l0.side))),
{
    l0.lemma_pos_of(i);
    let p = l0.pos_of(i);
    assert(l0.at(p) == l0.orders@[i as int]);
    let o = l0.orders@[i as int];
    assert(o.market_maker_index < NUM_MARKET_MAKERS);
    assert(amounts(l1.entries()) =~= amounts(l0.entries()).remove(p));
    lemma_total_remove(amounts(l0.entries()), p);
    lemma_credit_totals(makers0, o.market_maker_index as int, l0.side, o.amount_in as int);
}

/// Matching moves value from resting orders to the taker and from the
/// taker's input to makers: the orders lose exactly what is paid out, and
/// the makers gain, in the taker's asset, exactly the input that was matched.
pub proof fn lemma_sweep_conserves(
    taker: Side,
    entries: Seq<OrderEntry>,
    makers: Seq<MarketMaker>,
    remaining: int,
    out: int,
)
    requires
        forall|k: int|
            0 <= k < entries.len() ==> (#[trigger] entries[k].market_maker_index as int) < makers.len()
                && entries[k].price > 0,
        remaining >= 0,
        sweep(taker, entries, makers, remaining, out).0,
    ensures
        ({
            let r = sweep(taker, entries, makers, remaining, out);
            &&& total(amounts(entries)) - total(amounts(r.1)) == r.3 - out
            &&& total(balances_for(r.2, taker)) - total(balances_for(makers, taker)) == remaining - r.4
            &&& total(balances_for(r.2, opposite(taker))) == total(balances_for(makers, opposite(taker)))
        }),
    decreases entries.len(),
{
    if entries.len() > 0 {
        let e = entries[0];
        let m = e.market_maker_index as int;
        let a = crate::order_book::absorb_of(taker, e);
        assert(amounts(entries).drop_first() =~= amounts(entries.drop_first()));
        assert(e.price > 0);
        assert(a >= 0) by {
            let p = crate::PRICE_PRECISION as int;
            assert(e.amount_in * p >= 0 && e.amount_in * e.price >= 0) by (nonlinear_arith)
                requires
                    e.amount_in >= 0,
                    e.price >= 0,
                    p >= 0,
            ;
            vstd::arithmetic::div_mod::lemma_div_pos_is_pos(e.amount_in * p, e.price as int);
            vstd::arithmetic::div_mod::lemma_div_pos_is_pos(e.amount_in * e.price, p);
        }
        if a >= remaining {
            let paid = crate::order_book::payout_of(taker, remaining, e.price);
            assert(paid >= 0) by {
                let p = crate::PRICE_PRECISION as int;
                assert(remaining * p >= 0 && remaining * e.price >= 0) by (nonlinear_arith)
                    requires
                        remaining >= 0,
                        e.price >= 0,
                        p >= 0,
                ;
                vstd::arithmetic::div_mod::lemma_div_pos_is_pos(remaining * p, e.price as int);
                vstd::arithmetic::div_mod::lemma_div_pos_is_pos(remaining * e.price, p);
            }
            let left = e.amount_in - paid;
            if left == 0 {
                assert(amounts(entries.drop_first()) =~= amounts(entries).drop_first());
            } else {
                assert(amounts(entries.update(0, OrderEntry { amount_in: left as u64, ..e })) =~= amounts(
                    entries,
                ).update(0, left));
                lemma_total_update(amounts(entries), 0, left);
            }
            lemma_credit_totals(makers, m, taker, remaining);
        } else {
            let next = makers.update(m, credit_spec(makers[m], taker, a));
            lemma_credit_totals(makers, m, taker, a);
            assert forall|k: int| 0 <= k < entries.drop_first().len() implies (
            #[trigger] entries.drop_first()[k].market_maker_index as int) < next.len()
                && entries.drop_first()[k].price > 0 by {
                assert(entries.drop_first()[k] == entries[k + 1]);
            }
            lemma_sweep_conserves(taker, entries.drop_first(), next, remaining - a, out + e.amount_in);
        }
    }
}

/// A take order whose whole input, after the fee, found resting orders
/// changes what the book owes by exactly what moves through the vaults: up
/// by the taker's input in the asset it delivers, down by its payout in the
/// other.
pub proof fn lemma_take_conserves(
    b0: OrderBook,
    b1: OrderBook,
    side: Side,
    amount_in: u64,
    fee_bps: u16,
)
    requires
        b0.wf(),
        fee_bps <= MAX_BPS,
        ({
            let net = net_input(amount_in, fee_bps);
            let res = sweep(side, b0.list(opposite(side)).entries(), b0.market_makers@, net, 0);
            &&& res.0
            &&& res.4 == 0
            &&& b1.list(opposite(side)).entries() == res.1
            &&& b1.market_makers@ == res.2
            &&& b1.list(side) == b0.list(side)
            &&& fees_for(&b1, side) == fees_for(&b0, side) + (amount_in - net)
            &&& fees_for(&b1, opposite(side)) == fees_for(&b0, opposite(side))
        }),
    ensures
        ({
            let net = net_input(amount_in, fee_bps);
            let paid = sweep(side, b0.list(opposite(side)).entries(), b0.market_makers@, net, 0).3;
            match side {
                Side::Buy => quote_owed(&b1) == quote_owed(&b0) + amount_in && base_owed(&b1) == base_owed(&b0)
                    - paid,
                Side::Sell => base_owed(&b1) == base_owed(&b0) + amount_in && quote_owed(&b1) == quote_owed(
                    &b0,
                ) - paid,
            }
        }),
{
    let net = net_input(amount_in, fee_bps);
    let l = b0.list(opposite(side));
    assert forall|k: int| 0 <= k < l.entries().len() implies (#[trigger] l.entries()[k].market_maker_index as int)
        < b0.market_makers@.len() && l.entries()[k].price > 0 by {
        assert(l.entries()[k].market_maker_index == l.at(k).market_maker_index);
        assert(l.entries()[k].price == l.at(k).price);
    }
    assert(net >= 0) by {
        assert(amount_in * (MAX_BPS - fee_bps) >= 0) by (nonlinear_arith)
            requires
                fee_bps <= MAX_BPS,
        ;
        vstd::arithmetic::div_mod::lemma_div_pos_is_pos(amount_in * (MAX_BPS - fee_bps), MAX_BPS as int);
    }
    lemma_sweep_conserves(side, l.entries(), b0.market_makers@, net, 0);
}

} // verus!
