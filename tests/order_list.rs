use clob::free_bitmap::FreeBitmap;
use clob::market_maker::{Identity, MarketMaker};
use clob::order_list::OrderList;
use clob::side::Side;
use clob::{BOOK_DEPTH, NULL, NUM_MARKET_MAKERS};

fn makers() -> Vec<MarketMaker> {
    let mut v = Vec::new();
    for _ in 0..NUM_MARKET_MAKERS {
        v.push(MarketMaker::vacant());
    }
    v
}

fn prices(list: &OrderList) -> Vec<u64> {
    let mut out = Vec::new();
    let mut it = list.iter();
    while let Some((order, _)) = it.next() {
        out.push(order.price);
    }
    out
}

#[test]
fn bitmap_first_free_is_lowest() {
    let mut b = FreeBitmap::with_free_prefix(BOOK_DEPTH);
    assert_eq!(b.get_first_free_chunk(), Some(0));
    b.mark_reserved(0);
    b.mark_reserved(1);
    assert_eq!(b.get_first_free_chunk(), Some(2));
    for i in 2..100u8 {
        b.mark_reserved(i);
    }
    assert_eq!(b.get_first_free_chunk(), Some(100));
    b.mark_free(70);
    assert_eq!(b.get_first_free_chunk(), Some(70));
    assert!(!b.all_taken());
}

#[test]
fn bitmap_prefix_and_all_taken() {
    let mut b = FreeBitmap::with_free_prefix(3);
    assert_eq!(b.get_first_free_chunk(), Some(0));
    b.mark_reserved(0);
    b.mark_reserved(1);
    b.mark_reserved(2);
    assert!(b.all_taken());
    assert_eq!(b.get_first_free_chunk(), None);
    let empty = FreeBitmap::with_free_prefix(0);
    assert!(empty.all_taken());
    let mut full = FreeBitmap::with_free_prefix(128);
    for i in 0..127u8 {
        full.mark_reserved(i);
    }
    assert_eq!(full.get_first_free_chunk(), Some(127));
}

#[test]
fn empty_list_has_null_ends() {
    let list = OrderList::new(Side::Buy);
    assert_eq!(list.best_order_idx, NULL);
    assert_eq!(list.worst_order_idx, NULL);
    assert_eq!(list.orders.len(), BOOK_DEPTH);
    assert!(list.iter().next().is_none());
}

#[test]
fn insert_into_empty_sets_both_ends() {
    let mut list = OrderList::new(Side::Sell);
    let mut mk = makers();
    let s = list.insert_order(5, 100, 7, 3, &mut mk);
    assert_eq!(s, Some(0));
    assert_eq!(list.best_order_idx, 0);
    assert_eq!(list.worst_order_idx, 0);
    let o = list.orders[0];
    assert_eq!((o.amount_in, o.price, o.ref_id, o.market_maker_index), (5, 100, 7, 3));
    assert_eq!((o.prev_idx, o.next_idx), (NULL, NULL));
}

#[test]
fn insert_distinct_prices_iterates_sorted_buy() {
    let mut list = OrderList::new(Side::Buy);
    let mut mk = makers();
    for p in [30u64, 10, 50, 20, 40] {
        assert!(list.insert_order(1, p, p as u32, 0, &mut mk).is_some());
    }
    assert_eq!(prices(&list), vec![50, 40, 30, 20, 10]);
}

#[test]
fn insert_distinct_prices_iterates_sorted_sell() {
    let mut list = OrderList::new(Side::Sell);
    let mut mk = makers();
    for p in [30u64, 10, 50, 20, 40] {
        assert!(list.insert_order(1, p, p as u32, 0, &mut mk).is_some());
    }
    assert_eq!(prices(&list), vec![10, 20, 30, 40, 50]);
}

#[test]
fn equal_prices_keep_insertion_order() {
    let mut list = OrderList::new(Side::Buy);
    let mut mk = makers();
    list.insert_order(1, 10, 1, 0, &mut mk);
    list.insert_order(1, 10, 2, 0, &mut mk);
    list.insert_order(1, 20, 3, 0, &mut mk);
    list.insert_order(1, 10, 4, 0, &mut mk);
    let mut refs = Vec::new();
    let mut it = list.iter();
    while let Some((order, _)) = it.next() {
        refs.push(order.ref_id);
    }
    assert_eq!(refs, vec![3, 1, 2, 4]);
}

#[test]
fn delete_only_order_empties_list_and_credits() {
    let mut list = OrderList::new(Side::Buy);
    let mut mk = makers();
    let s = list.insert_order(9, 10, 1, 2, &mut mk).unwrap();
    list.delete_order(s, &mut mk);
    assert_eq!(list.best_order_idx, NULL);
    assert_eq!(list.worst_order_idx, NULL);
    assert_eq!(list.free_bitmap.get_first_free_chunk(), Some(0));
    assert_eq!(list.orders[s as usize].amount_in, 0);
    assert_eq!(mk[2].quote_balance, 9);
    assert_eq!(mk[2].base_balance, 0);
}

#[test]
fn delete_middle_relinks_neighbours() {
    let mut list = OrderList::new(Side::Sell);
    let mut mk = makers();
    let a = list.insert_order(1, 10, 1, 0, &mut mk).unwrap();
    let b = list.insert_order(4, 20, 2, 1, &mut mk).unwrap();
    let c = list.insert_order(1, 30, 3, 0, &mut mk).unwrap();
    list.delete_order(b, &mut mk);
    assert_eq!(list.orders[a as usize].next_idx, c);
    assert_eq!(list.orders[c as usize].prev_idx, a);
    assert_eq!(prices(&list), vec![10, 30]);
    assert_eq!(mk[1].base_balance, 4);
    let d = list.insert_order(1, 15, 4, 0, &mut mk).unwrap();
    assert_eq!(d, b);
    assert_eq!(prices(&list), vec![10, 15, 30]);
}

#[test]
fn full_list_evicts_worst_for_better_order() {
    let mut list = OrderList::with_depth(Side::Buy, 2);
    let mut mk = makers();
    list.insert_order(3, 10, 1, 5, &mut mk).unwrap();
    list.insert_order(1, 20, 2, 6, &mut mk).unwrap();
    assert_eq!(list.insert_order(1, 5, 3, 7, &mut mk), None);
    let s = list.insert_order(1, 15, 4, 7, &mut mk).unwrap();
    assert_eq!(s, 0);
    assert_eq!(prices(&list), vec![20, 15]);
    assert_eq!(mk[5].quote_balance, 3);
}

#[test]
fn eviction_of_the_order_just_beaten_appends() {
    let mut list = OrderList::with_depth(Side::Sell, 2);
    let mut mk = makers();
    list.insert_order(1, 10, 1, 0, &mut mk).unwrap();
    list.insert_order(1, 20, 2, 1, &mut mk).unwrap();
    let s = list.insert_order(1, 15, 3, 2, &mut mk).unwrap();
    assert_eq!(s, 1);
    assert_eq!(prices(&list), vec![10, 15]);
    assert_eq!(list.worst_order_idx, 1);
    assert_eq!(list.orders[1].next_idx, NULL);
    assert_eq!(mk[1].base_balance, 1);
}

#[test]
fn iterator_yields_orders_and_slots() {
    let mut list = OrderList::new(Side::Buy);
    let mut mk = makers();
    let a = list.insert_order(1, 10, 1, 0, &mut mk).unwrap();
    let b = list.insert_order(2, 30, 2, 0, &mut mk).unwrap();
    let mut it = list.iter();
    let (first, first_slot) = it.next().unwrap();
    assert_eq!((first.price, first_slot), (30, b));
    let (second, second_slot) = it.next().unwrap();
    assert_eq!((second.price, second_slot), (10, a));
    assert!(it.next().is_none());
    assert!(it.next().is_none());
}

#[test]
fn price_comparison_follows_side() {
    let buys = OrderList::new(Side::Buy);
    let sells = OrderList::new(Side::Sell);
    assert!(buys.is_price_better(2, 1));
    assert!(!buys.is_price_better(1, 1));
    assert!(sells.is_price_better(1, 2));
    assert!(!sells.is_price_better(2, 2));
}

#[test]
fn identities_compare_by_bytes() {
    let a = Identity::new([1; 32]);
    let mut bytes = [1u8; 32];
    bytes[31] = 2;
    let b = Identity::new(bytes);
    assert!(a.same_as(&a));
    assert!(!a.same_as(&b));
    assert!(Identity::zero().is_zero());
    assert!(!a.is_zero());
}

#[test]
fn stored_fields_rebuild_the_list() {
    let mut list = OrderList::new(Side::Buy);
    let mut mk = makers();
    for p in [30u64, 10, 20] {
        list.insert_order(2, p, p as u32, 1, &mut mk).unwrap();
    }
    let rebuilt = OrderList::from_parts(
        list.side,
        list.best_order_idx,
        list.worst_order_idx,
        list.free_bitmap,
        list.orders.clone(),
    )
    .unwrap();
    assert_eq!(prices(&rebuilt), vec![30, 20, 10]);
    let empty = OrderList::new(Side::Sell);
    assert!(OrderList::from_parts(Side::Sell, NULL, NULL, empty.free_bitmap, empty.orders.clone()).is_some());
}

#[test]
fn stored_fields_with_broken_links_are_refused() {
    let mut list = OrderList::new(Side::Sell);
    let mut mk = makers();
    for p in [10u64, 20, 30] {
        list.insert_order(2, p, p as u32, 1, &mut mk).unwrap();
    }
    let rebuild = |orders: Vec<clob::order_list::Order>, best: u8, worst: u8, bitmap: FreeBitmap| {
        OrderList::from_parts(Side::Sell, best, worst, bitmap, orders)
    };
    // Wrong worst end.
    assert!(rebuild(list.orders.clone(), list.best_order_idx, 0, list.free_bitmap).is_none());
    // A cycle.
    let mut cyclic = list.orders.clone();
    cyclic[2].next_idx = 0;
    assert!(rebuild(cyclic, list.best_order_idx, list.worst_order_idx, list.free_bitmap).is_none());
    // Out of price order.
    let mut unsorted = list.orders.clone();
    unsorted[1].price = 5;
    assert!(rebuild(unsorted, list.best_order_idx, list.worst_order_idx, list.free_bitmap).is_none());
    // An occupied slot off the chain.
    let mut stray = list.orders.clone();
    stray[7].amount_in = 1;
    assert!(rebuild(stray, list.best_order_idx, list.worst_order_idx, list.free_bitmap).is_none());
    // A free bit on an occupied slot.
    let mut bitmap = list.free_bitmap;
    bitmap.mark_free(1);
    assert!(rebuild(list.orders.clone(), list.best_order_idx, list.worst_order_idx, bitmap).is_none());
    // The same list as it was is accepted, buy side is not.
    assert!(rebuild(list.orders.clone(), list.best_order_idx, list.worst_order_idx, list.free_bitmap).is_some());
    assert!(OrderList::from_parts(Side::Buy, 0, 2, list.free_bitmap, list.orders.clone()).is_none());
}
