use vstd::prelude::*;

use crate::market_maker::{credit_spec, MarketMaker};
use crate::order_book::OrderBook;
use crate::order_list::OrderEntry;
use crate::side::Side;

verus! {

/// Sum of a sequence of integers.
pub open spec fn total(s: Seq<int>) -> int
    decreases s.len(),
{
    if s.len() == 0 {
        0
    } else {
        s[0] + total(s.drop_first())
    }
}

/// What is left of each resting order.
pub open spec fn amounts(entries: Seq<OrderEntry>) -> Seq<int> {
    entries.map_values(|e: OrderEntry| e.amount_in as int)
}

/// Each maker's balance of the asset that backs orders on `side`: quote for
/// buys, base for sells.
pub open spec fn balances_for(makers: Seq<MarketMaker>, side: Side) -> Seq<int> {
    makers.map_values(
        |m: MarketMaker|
            match side {
                Side::Buy => m.quote_balance as int,
                Side::Sell => m.base_balance as int,
            },
    )
}

/// All the base the book owes: maker balances, resting sells and base fees.
pub open spec fn base_owed(book: &OrderBook) -> int {
    total(balances_for(book.market_makers@, Side::Sell)) + total(amounts(book.sells.entries()))
        + book.base_fees_sweepable
}

/// All the quote the book owes: maker balances, resting buys and quote fees.
pub open spec fn quote_owed(book: &OrderBook) -> int {
    total(balances_for(book.market_makers@, Side::Buy)) + total(amounts(book.buys.entries()))
        + book.quote_fees_sweepable
}

pub proof fn lemma_total_update(s: Seq<int>, i: int, v: int)
    requires
        0 <= i < s.len(),
    ensures
        total(s.update(i, v)) == total(s) - s[i] + v,
    decreases s.len(),
{
    if i == 0 {
        assert(s.update(i, v).drop_first() =~= s.drop_first());
    } else {
        assert(s.update(i, v).drop_first() =~= s.drop_first().update(i - 1, v));
        lemma_total_update(s.drop_first(), i - 1, v);
    }
}

pub proof fn lemma_total_insert(s: Seq<int>, k: int, x: int)
    requires
        0 <= k <= s.len(),
    ensures
        total(s.insert(k, x)) == total(s) + x,
    decreases s.len(),
{
    if k == 0 {
        assert(s.insert(k, x).drop_first() =~= s);
    } else {
        assert(s.insert(k, x).drop_first() =~= s.drop_first().insert(k - 1, x));
        lemma_total_insert(s.drop_first(), k - 1, x);
    }
}

pub proof fn lemma_total_remove(s: Seq<int>, i: int)
    requires
        0 <= i < s.len(),
    ensures
        total(s.remove(i)) == total(s) - s[i],
{
    assert(s.remove(i).insert(i, s[i]) =~= s);
    lemma_total_insert(s.remove(i), i, s[i]);
}

/// Crediting a maker on `side` moves that side's balance total by the amount
/// and leaves the other side's alone.
pub proof fn lemma_credit_totals(makers: Seq<MarketMaker>, m: int, side: Side, x: int)
    requires
        0 <= m < makers.len(),
        match side {
            Side::Buy => 0 <= makers[m].quote_balance + x <= u64::MAX,
            Side::Sell => 0 <= makers[m].base_balance + x <= u64::MAX,
        },
    ensures
        total(balances_for(makers.update(m, credit_spec(makers[m], side, x)), side)) == total(
            balances_for(makers, side),
        ) + x,
        total(balances_for(makers.update(m, credit_spec(makers[m], side, x)), crate::side::opposite(side)))
            == total(balances_for(makers, crate::side::opposite(side))),
{
    let n = makers.update(m, credit_spec(makers[m], side, x));
    let o = crate::side::opposite(side);
    assert(balances_for(n, side) =~= balances_for(makers, side).update(m, balances_for(makers, side)[m] + x));
    lemma_total_update(balances_for(makers, side), m, balances_for(makers, side)[m] + x);
    assert(balances_for(n, o) =~= balances_for(makers, o));
}

} // verus!
