use vstd::prelude::*;

use crate::free_bitmap::FreeBitmap;
use crate::market_maker::{credit, credit_spec, locked_balance, MarketMaker};
use crate::side::{better_price, Side};
use crate::{BOOK_DEPTH, NULL, NUM_MARKET_MAKERS};

verus! {

/// A sequence of distinct slot indices below `n` has at most `n` entries.
pub proof fn lemma_distinct_slots_fit(s: Seq<u8>, n: int)
    requires
        s.no_duplicates(),
        forall|k: int| 0 <= k < s.len() ==> (#[trigger] s[k] as int) < n,
    ensures
        s.len() <= if n < 0 { 0 } else { n },
    decreases n,
{
    if s.len() > 0 {
        assert((s[0] as int) < n);
        if s.contains((n - 1) as u8) {
            let i = choose|i: int| 0 <= i < s.len() && s[i] == (n - 1) as u8;
            let t = s.remove(i);
            assert forall|k: int| 0 <= k < t.len() implies (#[trigger] t[k] as int) < n - 1 by {
                let j = if k < i { k } else { k + 1 };
                assert(t[k] == s[j]);
                assert(s[j] != s[i]);
            }
            assert(t.no_duplicates()) by {
                assert forall|a: int, b: int| 0 <= a < b < t.len() implies t[a] != t[b] by {
                    let a0 = if a < i { a } else { a + 1 };
                    let b0 = if b < i { b } else { b + 1 };
                    assert(s[a0] != s[b0]);
                }
            }
            lemma_distinct_slots_fit(t, n - 1);
        } else {
            assert forall|k: int| 0 <= k < s.len() implies (#[trigger] s[k] as int) < n - 1 by {
                assert(s.contains(s[k]));
                if s[k] as int == n - 1 {
                    assert(s[k] == (n - 1) as u8);
                }
            }
            lemma_distinct_slots_fit(s, n - 1);
        }
    }
}

/// One slot of an order list. A slot with `amount_in == 0` is free.
#[derive(Debug, Clone, Copy, PartialEq, Eq, Structural)]
pub struct Order {
    pub next_idx: u8,
    pub prev_idx: u8,
    pub market_maker_index: u8,
    pub ref_id: u32,
    pub price: u64,
    /// What is left of the maker's input asset: quote for a buy, base for a sell.
    pub amount_in: u64,
}

/// A resting order without its links.
#[derive(Debug, Clone, Copy, PartialEq, Eq, Structural)]
pub struct OrderEntry {
    pub market_maker_index: u8,
    pub ref_id: u32,
    pub price: u64,
    pub amount_in: u64,
}

pub open spec fn entry_of(o: Order) -> OrderEntry {
    OrderEntry {
        market_maker_index: o.market_maker_index,
        ref_id: o.ref_id,
        price: o.price,
        amount_in: o.amount_in,
    }
}

impl Order {
    /// The all-zero slot record.
    pub fn empty() -> (r: Order)
        ensures
            r.next_idx == 0 && r.prev_idx == 0 && r.market_maker_index == 0,
            r.ref_id == 0 && r.price == 0 && r.amount_in == 0,
    {
        Order { next_idx: 0, prev_idx: 0, market_maker_index: 0, ref_id: 0, price: 0, amount_in: 0 }
    }
}

impl Default for Order {
    fn default() -> (r: Order)
        ensures
            r.next_idx == 0 && r.prev_idx == 0 && r.market_maker_index == 0,
            r.ref_id == 0 && r.price == 0 && r.amount_in == 0,
    {
        Order::empty()
    }
}

/// One side of the book: a doubly linked list, threaded through a fixed array
/// of slots, that runs from the best price to the worst.
pub struct OrderList {
    pub side: Side,
    pub best_order_idx: u8,
    pub worst_order_idx: u8,
    pub free_bitmap: FreeBitmap,
    pub orders: Vec<Order>,
    /// The occupied slots, best first.
    pub chain: Ghost<Seq<u8>>,
}

impl OrderList {
    /// Number of slots.
    pub open spec fn depth(&self) -> int {
        self.orders@.len() as int
    }

    /// Number of resting orders.
    pub open spec fn len(&self) -> int {
        self.chain@.len() as int
    }

    /// The slot record of the `k`-th best resting order.
    pub open spec fn at(&self, k: int) -> Order {
        self.orders@[self.chain@[k] as int]
    }

    /// The resting orders, best first, without their links.
    pub open spec fn entries(&self) -> Seq<OrderEntry> {
        Seq::new(self.chain@.len(), |k: int| entry_of(self.at(k)))
    }

    /// Position of slot `s` in the chain, or -1 for the sentinel.
    pub open spec fn pos_of(&self, s: u8) -> int {
        if s == NULL {
            -1
        } else {
            self.chain@.index_of(s)
        }
    }

    /// Where an order at `price` goes, searching from position `k`: before
    /// the first resting order that it strictly beats.
    pub open spec fn rank_from(&self, price: u64, k: int) -> int
        decreases self.len() - k,
    {
        if k < 0 || k >= self.len() {
            self.len()
        } else if better_price(self.side, price, self.at(k).price) {
            k
        } else {
            self.rank_from(price, k + 1)
        }
    }

    /// Where an order at `price` goes: after every resting order that it does
    /// not strictly beat.
    pub open spec fn insert_rank(&self, price: u64) -> int {
        self.rank_from(price, 0)
    }

    /// Every slot holds an order.
    pub open spec fn is_full(&self) -> bool {
        forall|j: int| 0 <= j < self.depth() ==> #[trigger] self.orders@[j].amount_in > 0
    }

    /// Handing the worst order's remainder back to its maker stays in range.
    pub open spec fn worst_refund_fits(&self, makers: Seq<MarketMaker>) -> bool {
        self.len() > 0 ==> locked_balance(
            makers[self.at(self.len() - 1).market_maker_index as int],
            self.side,
        ) + self.at(self.len() - 1).amount_in <= u64::MAX
    }

    /// `self` is `old` after a successful insertion of `e` into slot `s`,
    /// with the maker table going from `makers0` to `makers1`.
    pub open spec fn inserted(
        old: OrderList,
        new: OrderList,
        s: u8,
        e: OrderEntry,
        makers0: Seq<MarketMaker>,
        makers1: Seq<MarketMaker>,
    ) -> bool {
        let n = old.len();
        let k = old.insert_rank(e.price);
        let w = old.at(n - 1);
        &&& new.wf()
        &&& new.side == old.side
        &&& new.depth() == old.depth()
        &&& !old.is_full() ==> {
            &&& (s as int) < old.depth()
            &&& old.orders@[s as int].amount_in == 0
            &&& forall|j: int| 0 <= j < s ==> #[trigger] old.orders@[j].amount_in > 0
            &&& new.chain@ == old.chain@.insert(k, s)
            &&& new.entries() == old.entries().insert(k, e)
            &&& makers1 == makers0
        }
        &&& old.is_full() ==> {
            &&& k < n
            &&& s == old.worst_order_idx
            &&& new.chain@ == old.chain@.drop_last().insert(k, s)
            &&& new.entries() == old.entries().drop_last().insert(k, e)
            &&& makers1 == makers0.update(
                w.market_maker_index as int,
                credit_spec(makers0[w.market_maker_index as int], old.side, w.amount_in as int),
            )
        }
    }

    /// Some chain of slots makes these stored fields a well-formed list.
    pub open spec fn parts_form_list(
        side: Side,
        best_order_idx: u8,
        worst_order_idx: u8,
        free_bitmap: FreeBitmap,
        orders: Vec<Order>,
    ) -> bool {
        exists|c: Seq<u8>|
            (OrderList { side, best_order_idx, worst_order_idx, free_bitmap, orders, chain: Ghost(c) }).wf()
    }

    /// The chain visits exactly the occupied slots, each once.
    pub open spec fn chain_covers_occupied(&self) -> bool {
        &&& self.chain@.no_duplicates()
        &&& forall|k: int| 0 <= k < self.len() ==> (#[trigger] self.chain@[k] as int) < self.depth()
        &&& forall|i: int|
            0 <= i < self.depth() ==> (#[trigger] self.orders@[i].amount_in > 0 <==> self.chain@.contains(i as u8))
    }

    /// `next` and `prev` follow the chain, the endpoints match its ends.
    pub open spec fn links_follow_chain(&self) -> bool {
        &&& self.len() == 0 ==> self.best_order_idx == NULL && self.worst_order_idx == NULL
        &&& self.len() > 0 ==> {
            &&& self.best_order_idx == self.chain@[0]
            &&& self.worst_order_idx == self.chain@[self.len() - 1]
            &&& self.at(0).prev_idx == NULL
            &&& self.at(self.len() - 1).next_idx == NULL
        }
        &&& forall|k: int| 0 <= k < self.len() - 1 ==> #[trigger] self.at(k).next_idx == self.chain@[k + 1]
        &&& forall|k: int| 0 < k < self.len() ==> #[trigger] self.at(k).prev_idx == self.chain@[k - 1]
    }

    /// No resting order has a better price than one ahead of it.
    pub open spec fn chain_sorted(&self) -> bool {
        forall|j: int, k: int|
            0 <= j < k < self.len() ==> !better_price(self.side, #[trigger] self.at(k).price, #[trigger] self.at(j).price)
    }

    /// A slot's free bit is set exactly when the slot is empty.
    pub open spec fn bitmap_matches(&self) -> bool {
        forall|i: int|
            0 <= i < BOOK_DEPTH ==> (#[trigger] self.free_bitmap.is_free(i) <==> (i < self.depth()
                && self.orders@[i].amount_in == 0))
    }

    /// Every resting order has a positive price and names a row of the maker table.
    pub open spec fn entries_valid(&self) -> bool {
        forall|k: int|
            #![trigger self.at(k)]
            0 <= k < self.len() ==> self.at(k).price > 0 && self.at(k).market_maker_index
                < NUM_MARKET_MAKERS
    }

    pub open spec fn wf(&self) -> bool {
        &&& self.depth() <= BOOK_DEPTH
        &&& self.chain_covers_occupied()
        &&& self.links_follow_chain()
        &&& self.chain_sorted()
        &&& self.bitmap_matches()
        &&& self.entries_valid()
    }

    /// An empty list with `depth` slots.
    pub fn with_depth(side: Side, depth: usize) -> (r: OrderList)
        requires
            depth <= BOOK_DEPTH,
        ensures
            r.wf(),
            r.side == side,
            r.depth() == depth,
            r.len() == 0,
    {
        let mut orders: Vec<Order> = Vec::new();
        while orders.len() < depth
            invariant
                orders.len() <= depth,
                forall|i: int| 0 <= i < orders.len() ==> #[trigger] orders@[i].amount_in == 0,
            decreases depth - orders.len(),
        {
            orders.push(Order::empty());
        }
        let r = OrderList {
            side,
            best_order_idx: NULL,
            worst_order_idx: NULL,
            free_bitmap: FreeBitmap::with_free_prefix(depth),
            orders,
            chain: Ghost(Seq::empty()),
        };
        assert forall|i: int| 0 <= i < r.depth() implies (#[trigger] r.orders@[i].amount_in > 0
            <==> r.chain@.contains(i as u8)) by {}
        r
    }

    /// An empty list with the full number of slots.
    pub fn new(side: Side) -> (r: OrderList)
        ensures
            r.wf(),
            r.side == side,
            r.depth() == BOOK_DEPTH,
            r.len() == 0,
    {
        OrderList::with_depth(side, BOOK_DEPTH)
    }

    /// The resting orders, best first.
    pub fn iter(&self) -> (r: OrderListIterator<'_>)
        requires
            self.wf(),
        ensures
            r.wf(),
            r.list == self,
            r.pos@ == 0,
    {
        OrderListIterator::new(self)
    }

    /// Facts about the position of an occupied slot.
    pub proof fn lemma_pos_of(&self, s: u8)
        requires
            self.wf(),
            self.chain@.contains(s),
        ensures
            0 <= self.pos_of(s) < self.len(),
            self.chain@[self.pos_of(s)] == s,
            s != NULL,
            (s as int) < self.depth(),
            forall|k: int| 0 <= k < self.len() && self.chain@[k] == s ==> k == self.pos_of(s),
    {
        let k = choose|k: int| 0 <= k < self.len() && self.chain@[k] == s;
        assert((self.chain@[k] as int) < self.depth());
    }

    /// Links `order` into free slot `i`, between `order.prev_idx` and
    /// `order.next_idx`, which must be neighbours in the chain.
    #[verifier::spinoff_prover]
    #[verifier::rlimit(60)]
    pub fn place_order(&mut self, order: Order, i: u8)
        requires
            old(self).wf(),
            (i as int) < old(self).depth(),
            old(self).orders@[i as int].amount_in == 0,
            order.amount_in > 0,
            order.price > 0,
            order.market_maker_index < NUM_MARKET_MAKERS,
            order.prev_idx == NULL || old(self).chain@.contains(order.prev_idx),
            order.next_idx == (if order.prev_idx == NULL {
                old(self).best_order_idx
            } else {
                old(self).orders@[order.prev_idx as int].next_idx
            }),
            forall|j: int|
                0 <= j <= old(self).pos_of(order.prev_idx) ==> !better_price(
                    old(self).side,
                    order.price,
                    #[trigger] old(self).at(j).price,
                ),
            forall|j: int|
                old(self).pos_of(order.prev_idx) < j < old(self).len() ==> !better_price(
                    old(self).side,
                    #[trigger] old(self).at(j).price,
                    order.price,
                ),
        ensures
            final(self).wf(),
            final(self).side == old(self).side,
            final(self).depth() == old(self).depth(),
            final(self).chain@ == old(self).chain@.insert(old(self).pos_of(order.prev_idx) + 1, i),
            final(self).entries() == old(self).entries().insert(
                old(self).pos_of(order.prev_idx) + 1,
                entry_of(order),
            ),
    {
        let ghost s0 = *self;
        let ghost c = self.chain@;
        let ghost n = self.len();
        let ghost p = self.pos_of(order.prev_idx);
        let ghost q = p + 1;
        proof {
            if order.prev_idx != NULL {
                self.lemma_pos_of(order.prev_idx);
                assert(self.at(p) == self.orders@[order.prev_idx as int]);
                if p < n - 1 {
                    assert(self.at(p).next_idx == c[p + 1]);
                }
            }
            assert(!c.contains(i));
            if q < n {
                assert(order.next_idx == c[q]);
                assert((c[q] as int) < self.depth());
            } else {
                assert(order.next_idx == NULL);
            }
            assert forall|k: int| 0 <= k < n implies #[trigger] c[k] != i && (k != p ==> c[k]
                != order.prev_idx) && (k != q ==> c[k] != order.next_idx) by {
                assert(c.contains(c[k]));
                if k != q && q < n {
                    assert(c[k] != c[q]);
                }
                if k != p && p >= 0 {
                    assert(c[k] != c[p]);
                }
            }
        }
        if order.prev_idx == NULL {
            self.best_order_idx = i;
        } else {
            let mut prev = self.orders[order.prev_idx as usize];
            prev.next_idx = i;
            self.orders.set(order.prev_idx as usize, prev);
        }
        if order.next_idx == NULL {
            self.worst_order_idx = i;
        } else {
            let mut next = self.orders[order.next_idx as usize];
            next.prev_idx = i;
            self.orders.set(order.next_idx as usize, next);
        }
        self.orders.set(i as usize, order);
        self.free_bitmap.mark_reserved(i);
        self.chain = Ghost(c.insert(q, i));
        proof {
            let c2 = self.chain@;
            c.insert_ensures(q, i);
            assert forall|k: int| 0 <= k < c2.len() implies #[trigger] entry_of(self.at(k)) == (
            if k < q {
                entry_of(s0.at(k))
            } else if k == q {
                entry_of(order)
            } else {
                entry_of(s0.at(k - 1))
            }) by {
                if k < q {
                    assert(c2[k] == c[k]);
                } else if k > q {
                    assert(c2[k] == c[k - 1]);
                }
            }
            assert(self.entries() =~= s0.entries().insert(q, entry_of(order)));
            assert(c2.no_duplicates()) by {
                assert forall|a: int, b: int| 0 <= a < b < c2.len() implies c2[a] != c2[b] by {
                    if a != q && b != q {
                        let a0 = if a < q { a } else { a - 1 };
                        let b0 = if b < q { b } else { b - 1 };
                        assert(c[a0] != c[b0]);
                    } else if a == q {
                        assert(c.contains(c[b - 1]));
                    } else {
                        assert(c.contains(c[a]));
                    }
                }
            }
            assert forall|k: int| 0 <= k < c2.len() implies (#[trigger] c2[k] as int) < self.depth() by {
                if k < q {
                    assert(c2[k] == c[k]);
                } else if k > q {
                    assert(c2[k] == c[k - 1]);
                }
            }
            assert forall|x: int| 0 <= x < self.depth() implies (#[trigger] self.orders@[x].amount_in > 0
                <==> c2.contains(x as u8)) by {
                if x == i as int {
                    assert(c2[q] == i);
                } else {
                    if s0.orders@[x].amount_in > 0 {
                        let k = choose|k: int| 0 <= k < n && c[k] == x as u8;
                        if k < q {
                            assert(c2[k] == c[k]);
                        } else {
                            assert(c2[k + 1] == c[k]);
                        }
                    }
                    if c2.contains(x as u8) {
                        let k = choose|k: int| 0 <= k < c2.len() && c2[k] == x as u8;
                        if k < q {
                            assert(c2[k] == c[k]);
                            assert(c.contains(x as u8));
                        } else if k > q {
                            assert(c2[k] == c[k - 1]);
                            assert(c.contains(x as u8));
                        }
                    }
                }
            }
            let ghost o = s0.orders@;
            assert forall|x: int| 0 <= x < self.depth() implies #[trigger] self.orders@[x] == (if x == i as int {
                order
            } else if order.next_idx != NULL && x == order.next_idx as int {
                Order { prev_idx: i, ..o[x] }
            } else if order.prev_idx != NULL && x == order.prev_idx as int {
                Order { next_idx: i, ..o[x] }
            } else {
                o[x]
            }) by {}
            assert forall|k: int| 0 <= k < c2.len() - 1 implies #[trigger] self.at(k).next_idx == c2[k + 1] by {
                if k < p {
                    assert(c2[k] == c[k]);
                    assert(c2[k + 1] == c[k + 1]);
                    assert(self.at(k) == o[c[k] as int]);
                    assert(o[c[k] as int] == s0.at(k));
                } else if k == p {
                    assert(c2[k] == c[k]);
                    assert(self.at(k) == Order { next_idx: i, ..o[c[k] as int] });
                } else if k == q {
                    assert(c2[k + 1] == c[q]);
                    assert(self.at(k) == order);
                } else {
                    assert(c2[k] == c[k - 1]);
                    assert(c2[k + 1] == c[k]);
                    if k - 1 == q {
                        assert(self.at(k) == Order { prev_idx: i, ..o[c[k - 1] as int] });
                    } else {
                        assert(self.at(k) == o[c[k - 1] as int]);
                    }
                    assert(s0.at(k - 1).next_idx == c[k]);
                }
            }
            assert forall|k: int| 0 < k < c2.len() implies #[trigger] self.at(k).prev_idx == c2[k - 1] by {
                if k < q {
                    assert(c2[k] == c[k]);
                    assert(c2[k - 1] == c[k - 1]);
                    if k == p {
                        assert(self.at(k) == Order { next_idx: i, ..o[c[k] as int] });
                    } else {
                        assert(self.at(k) == o[c[k] as int]);
                    }
                    assert(s0.at(k).prev_idx == c[k - 1]);
                } else if k == q {
                    assert(c2[k - 1] == c[p]);
                    assert(self.at(k) == order);
                } else if k == q + 1 {
                    assert(c2[k] == c[q]);
                    assert(self.at(k) == Order { prev_idx: i, ..o[c[q] as int] });
                } else {
                    assert(c2[k] == c[k - 1]);
                    assert(c2[k - 1] == c[k - 2]);
                    assert(self.at(k) == o[c[k - 1] as int]);
                    assert(s0.at(k - 1).prev_idx == c[k - 2]);
                }
            }
            if n == 0 {
                assert(c2[0] == i);
            } else {
                assert(c2[0] == if q == 0 { i } else { c[0] });
                assert(c2[c2.len() - 1] == if q == n { i } else { c[n - 1] });
                if q != 0 {
                    assert(self.at(0).prev_idx == NULL);
                }
                if q != n {
                    assert(c.contains(c[n - 1]));
                    assert(self.at(c2.len() - 1).next_idx == NULL);
                }
            }
            assert forall|a: int, b: int| 0 <= a < b < c2.len() implies !better_price(
                self.side,
                #[trigger] self.at(b).price,
                #[trigger] self.at(a).price,
            ) by {
                assert(entry_of(self.at(a)).price == self.at(a).price);
                assert(entry_of(self.at(b)).price == self.at(b).price);
                if a < q && b < q {
                } else if a < q && b == q {
                } else if a < q {
                    assert(!better_price(s0.side, s0.at(b - 1).price, s0.at(a).price));
                } else if a == q {
                } else {
                    assert(!better_price(s0.side, s0.at(b - 1).price, s0.at(a - 1).price));
                }
            }
            assert forall|x: int| 0 <= x < BOOK_DEPTH implies (#[trigger] self.free_bitmap.is_free(x) <==> (x
                < self.depth() && self.orders@[x].amount_in == 0)) by {
                assert(s0.free_bitmap.is_free(x) <==> (x < s0.depth() && s0.orders@[x].amount_in == 0));
            }
            assert forall|k: int| 0 <= k < c2.len() implies #[trigger] self.at(k).price > 0
                && self.at(k).market_maker_index < NUM_MARKET_MAKERS by {
                assert(entry_of(self.at(k)).price == self.at(k).price);
                assert(entry_of(self.at(k)).market_maker_index == self.at(k).market_maker_index);
                if k < q {
                    assert(s0.at(k).price > 0);
                } else if k > q {
                    assert(s0.at(k - 1).price > 0);
                }
            }
        }
    }

    /// Unlinks the order in slot `i`, clears the slot and marks it free.
    /// Returns the record the slot held.
    #[verifier::spinoff_prover]
    #[verifier::rlimit(60)]
    pub fn remove_order(&mut self, i: u8) -> (r: Order)
        requires
            old(self).wf(),
            old(self).chain@.contains(i),
        ensures
            final(self).wf(),
            final(self).side == old(self).side,
            final(self).depth() == old(self).depth(),
            r == old(self).orders@[i as int],
            final(self).chain@ == old(self).chain@.remove(old(self).pos_of(i)),
            final(self).entries() == old(self).entries().remove(old(self).pos_of(i)),
    {
        let ghost s0 = *self;
        let ghost c = self.chain@;
        let ghost o = self.orders@;
        let ghost n = self.len();
        let ghost p = self.pos_of(i);
        proof {
            self.lemma_pos_of(i);
            assert(self.at(p) == o[i as int]);
            if p > 0 {
                assert(self.at(p).prev_idx == c[p - 1]);
                assert((c[p - 1] as int) < self.depth());
            }
            if p < n - 1 {
                assert(self.at(p).next_idx == c[p + 1]);
                assert((c[p + 1] as int) < self.depth());
            }
            assert forall|k: int| 0 <= k < n && k != p implies #[trigger] c[k] != i by {
                assert(c[k] != c[p]);
            }
            assert(p == 0 <==> i == self.best_order_idx);
            assert(p == n - 1 <==> i == self.worst_order_idx);
            if p > 0 && p < n - 1 {
                assert(c[p - 1] != c[p + 1]);
            }
        }
        let order = self.orders[i as usize];
        if i == self.best_order_idx {
            self.best_order_idx = order.next_idx;
        } else {
            let mut prev = self.orders[order.prev_idx as usize];
            prev.next_idx = order.next_idx;
            self.orders.set(order.prev_idx as usize, prev);
        }
        if i == self.worst_order_idx {
            self.worst_order_idx = order.prev_idx;
        } else {
            let mut next = self.orders[order.next_idx as usize];
            next.prev_idx = order.prev_idx;
            self.orders.set(order.next_idx as usize, next);
        }
        self.orders.set(i as usize, Order::empty());
        self.free_bitmap.mark_free(i);
        self.chain = Ghost(c.remove(p));
        proof {
            let c2 = self.chain@;
            c.remove_ensures(p);
            let ghost blank = Order {
                next_idx: 0,
                prev_idx: 0,
                market_maker_index: 0,
                ref_id: 0,
                price: 0,
                amount_in: 0,
            };
            assert forall|x: int| 0 <= x < self.depth() implies #[trigger] self.orders@[x] == (if x == i as int {
                blank
            } else if p < n - 1 && x == c[p + 1] as int {
                Order { prev_idx: order.prev_idx, ..o[x] }
            } else if p > 0 && x == c[p - 1] as int {
                Order { next_idx: order.next_idx, ..o[x] }
            } else {
                o[x]
            }) by {}
            assert forall|k: int| 0 <= k < c2.len() implies #[trigger] self.at(k) == (if k == p - 1 {
                Order { next_idx: order.next_idx, ..s0.at(k) }
            } else if k == p {
                Order { prev_idx: order.prev_idx, ..s0.at(k + 1) }
            } else if k < p {
                s0.at(k)
            } else {
                s0.at(k + 1)
            }) by {
                if k < p {
                    assert(c2[k] == c[k]);
                    assert(c[k] != c[p]);
                    if k < p - 1 {
                        assert(c[k] != c[p - 1]);
                    }
                    if p < n - 1 {
                        assert(c[k] != c[p + 1]);
                    }
                } else {
                    assert(c2[k] == c[k + 1]);
                    assert(c[k + 1] != c[p]);
                    if k > p {
                        assert(c[k + 1] != c[p + 1]);
                    }
                    if p > 0 {
                        assert(c[k + 1] != c[p - 1]);
                    }
                }
            }
            assert(self.entries() =~= s0.entries().remove(p));
            assert(c2.no_duplicates()) by {
                assert forall|a: int, b: int| 0 <= a < b < c2.len() implies c2[a] != c2[b] by {
                    let a0 = if a < p { a } else { a + 1 };
                    let b0 = if b < p { b } else { b + 1 };
                    assert(c[a0] != c[b0]);
                }
            }
            assert forall|k: int| 0 <= k < c2.len() implies (#[trigger] c2[k] as int) < self.depth() by {
                if k < p {
                    assert(c2[k] == c[k]);
                } else {
                    assert(c2[k] == c[k + 1]);
                }
            }
            assert forall|x: int| 0 <= x < self.depth() implies (#[trigger] self.orders@[x].amount_in > 0
                <==> c2.contains(x as u8)) by {
                if x != i as int {
                    if o[x].amount_in > 0 {
                        let k = choose|k: int| 0 <= k < n && c[k] == x as u8;
                        if k < p {
                            assert(c2[k] == c[k]);
                        } else {
                            assert(k != p);
                            assert(c2[k - 1] == c[k]);
                        }
                    }
                    if c2.contains(x as u8) {
                        let k = choose|k: int| 0 <= k < c2.len() && c2[k] == x as u8;
                        if k < p {
                            assert(c2[k] == c[k]);
                        } else {
                            assert(c2[k] == c[k + 1]);
                        }
                        assert(c.contains(x as u8));
                    }
                } else {
                    if c2.contains(x as u8) {
                        let k = choose|k: int| 0 <= k < c2.len() && c2[k] == x as u8;
                        if k < p {
                            assert(c2[k] == c[k]);
                        } else {
                            assert(c2[k] == c[k + 1]);
                        }
                    }
                }
            }
            assert forall|k: int| 0 <= k < c2.len() - 1 implies #[trigger] self.at(k).next_idx == c2[k + 1] by {
                if k < p - 1 {
                    assert(s0.at(k).next_idx == c[k + 1]);
                } else if k == p - 1 {
                    assert(c2[k + 1] == c[p + 1]);
                } else {
                    assert(s0.at(k + 1).next_idx == c[k + 2]);
                }
            }
            assert forall|k: int| 0 < k < c2.len() implies #[trigger] self.at(k).prev_idx == c2[k - 1] by {
                if k < p {
                    assert(s0.at(k).prev_idx == c[k - 1]);
                } else if k == p {
                    assert(c2[k - 1] == c[p - 1]);
                } else {
                    assert(s0.at(k + 1).prev_idx == c[k]);
                }
            }
            if c2.len() > 0 {
                assert(self.at(0).prev_idx == NULL) by {
                    if p > 0 {
                        assert(s0.at(0).prev_idx == NULL);
                    }
                }
                assert(self.at(c2.len() - 1).next_idx == NULL) by {
                    if p < n - 1 {
                        assert(s0.at(n - 1).next_idx == NULL);
                    }
                }
            }
            assert forall|a: int, b: int| 0 <= a < b < c2.len() implies !better_price(
                self.side,
                #[trigger] self.at(b).price,
                #[trigger] self.at(a).price,
            ) by {
                let a0 = if a < p { a } else { a + 1 };
                let b0 = if b < p { b } else { b + 1 };
                assert(!better_price(s0.side, s0.at(b0).price, s0.at(a0).price));
            }
            assert forall|x: int| 0 <= x < BOOK_DEPTH implies (#[trigger] self.free_bitmap.is_free(x) <==> (x
                < self.depth() && self.orders@[x].amount_in == 0)) by {
                assert(s0.free_bitmap.is_free(x) <==> (x < s0.depth() && s0.orders@[x].amount_in == 0));
            }
            assert forall|k: int| 0 <= k < c2.len() implies #[trigger] self.at(k).price > 0
                && self.at(k).market_maker_index < NUM_MARKET_MAKERS by {
                if k < p {
                    assert(s0.at(k).price > 0);
                } else {
                    assert(s0.at(k + 1).price > 0);
                }
            }
        }
        order
    }

    /// Removes the order in slot `i` and credits its maker with what is left
    /// of it: quote for a buy, base for a sell.
    pub fn delete_order(&mut self, i: u8, makers: &mut Vec<MarketMaker>)
        requires
            old(self).wf(),
            old(self).chain@.contains(i),
            old(makers).len() == NUM_MARKET_MAKERS,
            locked_balance(
                old(makers)@[old(self).orders@[i as int].market_maker_index as int],
                old(self).side,
            ) + old(self).orders@[i as int].amount_in <= u64::MAX,
        ensures
            final(self).wf(),
            final(self).side == old(self).side,
            final(self).depth() == old(self).depth(),
            final(self).chain@ == old(self).chain@.remove(old(self).pos_of(i)),
            final(self).entries() == old(self).entries().remove(old(self).pos_of(i)),
            final(makers)@ == old(makers)@.update(
                old(self).orders@[i as int].market_maker_index as int,
                credit_spec(
                    old(makers)@[old(self).orders@[i as int].market_maker_index as int],
                    old(self).side,
                    old(self).orders@[i as int].amount_in as int,
                ),
            ),
    {
        proof {
            self.lemma_pos_of(i);
            assert(self.at(self.pos_of(i)) == self.orders@[i as int]);
            assert(self.at(self.pos_of(i)).market_maker_index < NUM_MARKET_MAKERS);
        }
        let order = self.remove_order(i);
        credit(makers, order.market_maker_index as usize, self.side, order.amount_in);
    }

    proof fn lemma_rank(&self, price: u64, k: int, r: int)
        requires
            0 <= k <= r <= self.len(),
            forall|j: int| k <= j < r ==> !better_price(self.side, price, #[trigger] self.at(j).price),
            r == self.len() || better_price(self.side, price, self.at(r).price),
        ensures
            self.rank_from(price, k) == r,
        decreases r - k,
    {
        if k < r {
            self.lemma_rank(price, k + 1, r);
        }
    }

    /// With the list sorted, a new order goes last exactly when it does not
    /// beat the worst resting order.
    pub proof fn lemma_rank_last(&self, price: u64)
        requires
            self.wf(),
        ensures
            (self.insert_rank(price) == self.len()) == (self.len() == 0 || !better_price(
                self.side,
                price,
                self.at(self.len() - 1).price,
            )),
            0 <= self.insert_rank(price) <= self.len(),
    {
        let n = self.len();
        if n == 0 || !better_price(self.side, price, self.at(n - 1).price) {
            assert forall|j: int| 0 <= j < n implies !better_price(self.side, price, #[trigger] self.at(j).price) by {
                if j < n - 1 {
                    assert(!better_price(self.side, self.at(n - 1).price, self.at(j).price));
                }
            }
            self.lemma_rank(price, 0, n);
        } else {
            self.lemma_rank_found(price, 0);
        }
    }

    proof fn lemma_rank_found(&self, price: u64, k: int)
        requires
            0 <= k < self.len(),
            better_price(self.side, price, self.at(self.len() - 1).price),
        ensures
            k <= self.rank_from(price, k) < self.len(),
        decreases self.len() - k,
    {
        if k < self.len() - 1 && !better_price(self.side, price, self.at(k).price) {
            self.lemma_rank_found(price, k + 1);
        }
    }

    /// Inserts a new order behind every resting order whose price is at least
    /// as good, in the lowest free slot. When no slot is free and the new
    /// order beats some resting order, the worst order is removed (its maker
    /// gets its remainder back) and its slot reused. Returns the slot, or
    /// `None` when the book is full and the new order beats nothing.
    pub fn insert_order(
        &mut self,
        amount: u64,
        price: u64,
        ref_id: u32,
        market_maker_index: u8,
        makers: &mut Vec<MarketMaker>,
    ) -> (r: Option<u8>)
        requires
            old(self).wf(),
            amount > 0,
            price > 0,
            market_maker_index < NUM_MARKET_MAKERS,
            old(makers).len() == NUM_MARKET_MAKERS,
            old(self).is_full() && old(self).insert_rank(price) < old(self).len()
                ==> old(self).worst_refund_fits(old(makers)@),
        ensures
            ({
                let n = old(self).len();
                let k = old(self).insert_rank(price);
                let e = OrderEntry { market_maker_index, ref_id, price, amount_in: amount };
                match r {
                    None => {
                        &&& old(self).is_full()
                        &&& k == n
                        &&& *final(self) == *old(self)
                        &&& final(makers)@ == old(makers)@
                    },
                    Some(s) => OrderList::inserted(*old(self), *final(self), s, e, old(makers)@, final(makers)@),
                }
            }),
    {
        let ghost s0 = *self;
        let ghost c = self.chain@;
        let ghost n = self.len();
        let mut prev: u8 = NULL;
        let mut cur: u8 = self.best_order_idx;
        let ghost mut k: int = 0;
        while cur != NULL && !self.is_price_better(price, self.orders[cur as usize].price)
            invariant
                *self == s0,
                s0.wf(),
                0 <= k <= n,
                n == s0.len(),
                c == s0.chain@,
                cur == (if k < n { c[k] } else { NULL }),
                prev == (if k > 0 { c[k - 1] } else { NULL }),
                (cur as int) < s0.depth() || cur == NULL,
                forall|j: int| 0 <= j < k ==> !better_price(s0.side, price, #[trigger] s0.at(j).price),
            decreases n - k,
        {
            proof {
                assert(s0.at(k) == s0.orders@[cur as int]);
            }
            prev = cur;
            cur = self.orders[cur as usize].next_idx;
            proof {
                k = k + 1;
                if k < n {
                    assert((c[k] as int) < s0.depth());
                }
            }
        }
        proof {
            if cur != NULL {
                assert(s0.at(k) == s0.orders@[cur as int]);
            }
            self.lemma_rank(price, 0, k);
            if k > 0 {
                assert(c.contains(prev));
                self.lemma_pos_of(prev);
            }
        }
        let order = Order {
            next_idx: NULL,
            prev_idx: prev,
            market_maker_index,
            ref_id,
            price,
            amount_in: amount,
        };
        let ghost e = entry_of(order);
        let free = self.free_bitmap.get_first_free_chunk();
        proof {
            match free {
                Some(f) => {
                    assert(self.free_bitmap.is_free(f as int));
                    assert forall|j: int| 0 <= j < f implies #[trigger] s0.orders@[j].amount_in > 0 by {
                        assert(!self.free_bitmap.is_free(j));
                    }
                    assert(!s0.is_full());
                },
                None => {
                    assert forall|j: int| 0 <= j < s0.depth() implies #[trigger] s0.orders@[j].amount_in > 0 by {
                        assert(!self.free_bitmap.is_free(j));
                    }
                },
            }
        }
        if cur != NULL {
            let slot: u8 = match free {
                Some(f) => f as u8,
                None => {
                    let w = self.worst_order_idx;
                    proof {
                        assert(c.contains(c[n - 1]));
                        self.lemma_pos_of(w);
                        assert(s0.at(n - 1) == s0.orders@[w as int]);
                    }
                    self.delete_order(w, makers);
                    proof {
                        assert(self.chain@ =~= c.drop_last());
                        assert(self.entries() =~= s0.entries().drop_last());
                        assert(self.orders@[w as int].amount_in == 0) by {
                            assert(!self.chain@.contains(w)) by {
                                if self.chain@.contains(w) {
                                    let j = choose|j: int| 0 <= j < self.len() && self.chain@[j] == w;
                                    assert(c[j] == w);
                                    assert(c[j] != c[n - 1]);
                                }
                            }
                        }
                    }
                    w
                },
            };
            let next: u8 = if self.orders[cur as usize].amount_in > 0 {
                cur
            } else {
                NULL
            };
            let ghost s1 = *self;
            proof {
                let c1 = self.chain@;
                assert forall|j: int| 0 <= j < s1.len() implies #[trigger] entry_of(s1.at(j)) == entry_of(
                    s0.at(j),
                ) by {
                    assert(s1.entries()[j] == s0.entries()[j]);
                }
                if k > 0 {
                    assert(c1[k - 1] == prev);
                    assert(c1.contains(prev));
                    s1.lemma_pos_of(prev);
                    assert(s1.pos_of(prev) == k - 1);
                    assert(s1.at(k - 1) == s1.orders@[prev as int]);
                    if k < s1.len() {
                        assert(s1.at(k - 1).next_idx == c1[k]);
                    }
                } else {
                    assert(s1.pos_of(prev) == -1);
                }
                if k < s1.len() {
                    assert(c1[k] == cur);
                    assert(c1.contains(cur));
                    assert(next == cur);
                } else {
                    assert(!c1.contains(cur)) by {
                        if c1.contains(cur) {
                            let j = choose|j: int| 0 <= j < c1.len() && c1[j] == cur;
                            assert(c[j] == cur);
                            assert(c[j] != c[k]);
                        }
                    }
                    assert(next == NULL);
                }
                assert forall|j: int| s1.pos_of(prev) < j < s1.len() implies !better_price(
                    s1.side,
                    #[trigger] s1.at(j).price,
                    price,
                ) by {
                    assert(entry_of(s1.at(j)) == entry_of(s0.at(j)));
                    assert(!better_price(s0.side, s0.at(j).price, s0.at(k).price));
                }
                assert forall|j: int| 0 <= j <= s1.pos_of(prev) implies !better_price(
                    s1.side,
                    price,
                    #[trigger] s1.at(j).price,
                ) by {
                    assert(entry_of(s1.at(j)) == entry_of(s0.at(j)));
                }
            }
            self.place_order(Order { next_idx: next, ..order }, slot);
            Some(slot)
        } else {
            match free {
                Some(f) => {
                    proof {
                        if k == 0 {
                            assert(self.pos_of(prev) == -1);
                        } else {
                            assert(self.at(n - 1) == self.orders@[prev as int]);
                        }
                    }
                    self.place_order(order, f as u8);
                    Some(f as u8)
                },
                None => None,
            }
        }
    }

    /// Sets what is left of the order in slot `i` to `amount`.
    pub fn reduce_order(&mut self, i: u8, amount: u64)
        requires
            old(self).wf(),
            old(self).chain@.contains(i),
            amount > 0,
        ensures
            final(self).wf(),
            final(self).side == old(self).side,
            final(self).depth() == old(self).depth(),
            final(self).chain@ == old(self).chain@,
            final(self).entries() == old(self).entries().update(
                old(self).pos_of(i),
                OrderEntry { amount_in: amount, ..old(self).entries()[old(self).pos_of(i)] },
            ),
    {
        let ghost s0 = *self;
        proof {
            self.lemma_pos_of(i);
            assert(self.at(self.pos_of(i)) == self.orders@[i as int]);
        }
        let mut order = self.orders[i as usize];
        order.amount_in = amount;
        self.orders.set(i as usize, order);
        proof {
            let p = s0.pos_of(i);
            let c = s0.chain@;
            assert forall|k: int| 0 <= k < s0.len() implies #[trigger] self.at(k) == (if k == p {
                order
            } else {
                s0.at(k)
            }) by {
                if k != p {
                    assert(c[k] != c[p]);
                }
            }
            assert(self.entries() =~= s0.entries().update(
                p,
                OrderEntry { amount_in: amount, ..s0.entries()[p] },
            ));
            assert forall|x: int| 0 <= x < self.depth() implies (#[trigger] self.orders@[x].amount_in > 0
                <==> c.contains(x as u8)) by {
                assert(s0.orders@[x].amount_in > 0 <==> c.contains(x as u8));
            }
            assert forall|x: int| 0 <= x < BOOK_DEPTH implies (#[trigger] self.free_bitmap.is_free(x) <==> (x
                < self.depth() && self.orders@[x].amount_in == 0)) by {
                assert(s0.free_bitmap.is_free(x) <==> (x < s0.depth() && s0.orders@[x].amount_in == 0));
            }
            assert forall|a: int, b: int| 0 <= a < b < s0.len() implies !better_price(
                self.side,
                #[trigger] self.at(b).price,
                #[trigger] self.at(a).price,
            ) by {
                assert(!better_price(s0.side, s0.at(b).price, s0.at(a).price));
            }
            assert forall|k: int| 0 <= k < s0.len() - 1 implies #[trigger] self.at(k).next_idx == c[k + 1] by {
                assert(s0.at(k).next_idx == c[k + 1]);
            }
            assert forall|k: int| 0 < k < s0.len() implies #[trigger] self.at(k).prev_idx == c[k - 1] by {
                assert(s0.at(k).prev_idx == c[k - 1]);
            }
        }
    }

    /// A copy of this list.
    pub fn duplicate(&self) -> (r: OrderList)
        requires
            self.wf(),
        ensures
            r.wf(),
            r.side == self.side,
            r.best_order_idx == self.best_order_idx,
            r.worst_order_idx == self.worst_order_idx,
            r.free_bitmap == self.free_bitmap,
            r.orders@ == self.orders@,
            r.chain@ == self.chain@,
            r.entries() == self.entries(),
    {
        let mut orders: Vec<Order> = Vec::new();
        let mut i: usize = 0;
        while i < self.orders.len()
            invariant
                i <= self.orders.len(),
                orders@ == self.orders@.subrange(0, i as int),
            decreases self.orders.len() - i,
        {
            orders.push(self.orders[i]);
            i = i + 1;
        }
        assert(orders@ =~= self.orders@);
        let r = OrderList {
            side: self.side,
            best_order_idx: self.best_order_idx,
            worst_order_idx: self.worst_order_idx,
            free_bitmap: self.free_bitmap,
            orders,
            chain: Ghost(self.chain@),
        };
        assert(r.orders@ == self.orders@);
        assert forall|k: int| 0 <= k < r.len() implies #[trigger] r.at(k) == self.at(k) by {}
        assert(r.chain_covers_occupied());
        assert(r.links_follow_chain());
        assert(r.chain_sorted());
        assert(r.bitmap_matches());
        assert(r.entries_valid());
        assert(r.entries() =~= self.entries());
        r
    }

    /// Rebuilds a list from its stored fields, checking every part of its
    /// invariant on the way. Returns `None` when they do not form a
    /// well-formed list.
    pub fn from_parts(
        side: Side,
        best_order_idx: u8,
        worst_order_idx: u8,
        free_bitmap: FreeBitmap,
        orders: Vec<Order>,
    ) -> (r: Option<OrderList>)
        ensures
            match r {
                Some(l) => {
                    &&& l.wf()
                    &&& l.side == side
                    &&& l.best_order_idx == best_order_idx
                    &&& l.worst_order_idx == worst_order_idx
                    &&& l.free_bitmap == free_bitmap
                    &&& l.orders@ == orders@
                },
                None => !OrderList::parts_form_list(side, best_order_idx, worst_order_idx, free_bitmap, orders),
            },
    {
        let ghost has = OrderList::parts_form_list(side, best_order_idx, worst_order_idx, free_bitmap, orders);
        let ghost wc: Seq<u8> = if has {
            choose|c: Seq<u8>| (OrderList {
                side,
                best_order_idx,
                worst_order_idx,
                free_bitmap,
                orders,
                chain: Ghost(c),
            }).wf()
        } else {
            Seq::empty()
        };
        let ghost wl = OrderList { side, best_order_idx, worst_order_idx, free_bitmap, orders, chain: Ghost(wc) };
        proof {
            if has {
                assert(wl.wf());
                assert(wl.len() == wc.len());
                assert(wl.orders@ == orders@);
                lemma_distinct_slots_fit(wc, wl.depth());
            }
        }
        let n = orders.len();
        if n > BOOK_DEPTH {
            return None;
        }
        let mut seen: Vec<bool> = Vec::new();
        while seen.len() < n
            invariant
                seen.len() <= n,
                forall|i: int| 0 <= i < seen.len() ==> !#[trigger] seen@[i],
            decreases n - seen.len(),
        {
            seen.push(false);
        }
        let ghost mut chain: Seq<u8> = Seq::empty();
        let mut prev: u8 = NULL;
        let mut cur: u8 = best_order_idx;
        let mut count: usize = 0;
        while cur != NULL
            invariant
                n == orders.len(),
                n <= BOOK_DEPTH,
                seen.len() == n,
                count == chain.len(),
                count <= n,
                chain.no_duplicates(),
                forall|k: int| 0 <= k < chain.len() ==> (#[trigger] chain[k] as int) < n,
                forall|i: int| 0 <= i < n ==> (#[trigger] seen@[i] <==> chain.contains(i as u8)),
                forall|k: int|
                    #![trigger chain[k]]
                    0 <= k < chain.len() ==> {
                        let o = orders@[chain[k] as int];
                        &&& o.amount_in > 0
                        &&& o.price > 0
                        &&& o.market_maker_index < NUM_MARKET_MAKERS
                    },
                forall|k: int|
                    0 <= k < chain.len() - 1 ==> #[trigger] orders@[chain[k] as int].next_idx == chain[k + 1],
                forall|k: int|
                    0 < k < chain.len() ==> #[trigger] orders@[chain[k] as int].prev_idx == chain[k - 1],
                forall|j: int, k: int|
                    0 <= j < k < chain.len() ==> !better_price(
                        side,
                        #[trigger] orders@[chain[k] as int].price,
                        #[trigger] orders@[chain[j] as int].price,
                    ),
                chain.len() == 0 ==> cur == best_order_idx && prev == NULL,
                chain.len() > 0 ==> {
                    &&& best_order_idx == chain[0]
                    &&& orders@[chain[0] as int].prev_idx == NULL
                    &&& prev == chain[chain.len() - 1]
                    &&& cur == orders@[prev as int].next_idx
                },
                wl == (OrderList { side, best_order_idx, worst_order_idx, free_bitmap, orders, chain: Ghost(wc) }),
                has == OrderList::parts_form_list(side, best_order_idx, worst_order_idx, free_bitmap, orders),
                has ==> wl.wf() && wl.orders@ == orders@,
                has ==> count <= wl.len() && wl.len() <= n && chain == wc.subrange(0, count as int),
                has ==> (count < wl.len() ==> cur == wc[count as int]) && (count == wl.len() ==> cur == NULL),
            decreases n - count,
        {
            proof {
                if has {
                    if count == wl.len() {
                        assert(cur == NULL);
                    }
                    assert(wc.contains(wc[count as int]));
                    assert(wl.at(count as int) == orders@[cur as int]);
                    if count > 0 {
                        assert(wc[count - 1] == chain[count - 1]);
                        assert(wl.at(count - 1) == orders@[prev as int]);
                    } else {
                        assert(wl.at(0).prev_idx == NULL);
                    }
                    assert(!chain.contains(cur)) by {
                        if chain.contains(cur) {
                            let k = choose|k: int| 0 <= k < chain.len() && chain[k] == cur;
                            assert(wc[k] == wc[count as int]);
                        }
                    }
                }
            }
            if count >= n || cur as usize >= n {
                return None;
            }
            if seen[cur as usize] {
                return None;
            }
            let o = orders[cur as usize];
            if o.amount_in == 0 || o.price == 0 || o.market_maker_index as usize >= NUM_MARKET_MAKERS
                || o.prev_idx != prev {
                return None;
            }
            if prev != NULL {
                let p = orders[prev as usize].price;
                let worse = match side {
                    Side::Buy => o.price > p,
                    Side::Sell => o.price < p,
                };
                if worse {
                    return None;
                }
            }
            let ghost c0 = chain;
            let ghost seen0 = seen@;
            proof {
                chain = chain.push(cur);
                assert(!c0.contains(cur));
                assert(chain.no_duplicates()) by {
                    assert forall|a: int, b: int| 0 <= a < b < chain.len() implies chain[a] != chain[b] by {
                        if b < c0.len() {
                            assert(c0[a] != c0[b]);
                        } else {
                            assert(c0.contains(c0[a]));
                        }
                    }
                }
                assert forall|j: int, k: int| 0 <= j < k < chain.len() implies !better_price(
                    side,
                    #[trigger] orders@[chain[k] as int].price,
                    #[trigger] orders@[chain[j] as int].price,
                ) by {
                    if k == c0.len() && j < c0.len() - 1 {
                        assert(!better_price(
                            side,
                            orders@[c0[c0.len() - 1] as int].price,
                            orders@[c0[j] as int].price,
                        ));
                    }
                }
            }
            seen.set(cur as usize, true);
            proof {
                assert forall|i: int| 0 <= i < n implies (#[trigger] seen@[i] <==> chain.contains(i as u8)) by {
                    assert(chain[chain.len() - 1] == cur);
                    if i != cur as int {
                        assert(seen@[i] == seen0[i]);
                        if chain.contains(i as u8) {
                            let k = choose|k: int| 0 <= k < chain.len() && chain[k] == i as u8;
                            assert(c0[k] == i as u8);
                        }
                        if c0.contains(i as u8) {
                            let k = choose|k: int| 0 <= k < c0.len() && c0[k] == i as u8;
                            assert(chain[k] == i as u8);
                        }
                    }
                }
            }
            proof {
                if has {
                    assert(chain =~= wc.subrange(0, count + 1));
                    if count + 1 < wl.len() {
                        assert(wl.at(count as int).next_idx == wc[count + 1]);
                    } else {
                        assert(wl.at(wl.len() - 1).next_idx == NULL);
                    }
                }
            }
            prev = cur;
            cur = o.next_idx;
            count = count + 1;
        }
        proof {
            if has {
                if count < wl.len() {
                    assert((wc[count as int] as int) < n);
                }
                assert(chain =~= wc);
            }
        }
        if worst_order_idx != prev {
            return None;
        }
        let mut i: usize = 0;
        while i < n
            invariant
                n == orders.len(),
                seen.len() == n,
                i <= n,
                forall|x: int| 0 <= x < n ==> (#[trigger] seen@[x] <==> chain.contains(x as u8)),
                forall|x: int| 0 <= x < i ==> (#[trigger] orders@[x].amount_in > 0 <==> seen@[x]),
                forall|k: int|
                    #![trigger chain[k]]
                    0 <= k < chain.len() ==> orders@[chain[k] as int].amount_in > 0,
                forall|k: int| 0 <= k < chain.len() ==> (#[trigger] chain[k] as int) < n,
                wl == (OrderList { side, best_order_idx, worst_order_idx, free_bitmap, orders, chain: Ghost(wc) }),
                has == OrderList::parts_form_list(side, best_order_idx, worst_order_idx, free_bitmap, orders),
                has ==> wl.wf() && wl.orders@ == orders@ && chain == wc,
            decreases n - i,
        {
            proof {
                if has {
                    assert(wl.orders@[i as int].amount_in > 0 <==> wc.contains(i as u8));
                }
            }
            if (orders[i].amount_in > 0) != seen[i] {
                proof {
                    if seen@[i as int] {
                        let k = choose|k: int| 0 <= k < chain.len() && chain[k] == i as u8;
                        assert(orders@[chain[k] as int].amount_in > 0);
                    }
                }
                return None;
            }
            i = i + 1;
        }
        let mut j: u8 = 0;
        while j < 128
            invariant
                n == orders.len(),
                n <= BOOK_DEPTH,
                j <= 128,
                forall|x: int|
                    0 <= x < j ==> (#[trigger] free_bitmap.is_free(x) <==> (x < n && orders@[x].amount_in == 0)),
                wl == (OrderList { side, best_order_idx, worst_order_idx, free_bitmap, orders, chain: Ghost(wc) }),
                has == OrderList::parts_form_list(side, best_order_idx, worst_order_idx, free_bitmap, orders),
                has ==> wl.wf() && wl.orders@ == orders@ && wl.free_bitmap == free_bitmap,
            decreases 128 - j,
        {
            proof {
                if has {
                    assert(wl.free_bitmap.is_free(j as int) <==> (j < wl.depth() && wl.orders@[j as int].amount_in
                        == 0));
                }
            }
            let expected = (j as usize) < n && orders[j as usize].amount_in == 0;
            if free_bitmap.is_slot_free(j) != expected {
                return None;
            }
            j = j + 1;
        }
        let l = OrderList {
            side,
            best_order_idx,
            worst_order_idx,
            free_bitmap,
            orders,
            chain: Ghost(chain),
        };
        proof {
            assert forall|x: int| 0 <= x < l.depth() implies (#[trigger] l.orders@[x].amount_in > 0
                <==> l.chain@.contains(x as u8)) by {
                assert(seen@[x] <==> chain.contains(x as u8));
            }
            assert forall|k: int| 0 <= k < l.len() - 1 implies #[trigger] l.at(k).next_idx == l.chain@[k + 1] by {
                assert(orders@[chain[k] as int].next_idx == chain[k + 1]);
            }
            assert forall|k: int| 0 < k < l.len() implies #[trigger] l.at(k).prev_idx == l.chain@[k - 1] by {
                assert(orders@[chain[k] as int].prev_idx == chain[k - 1]);
            }
            assert forall|a: int, b: int| 0 <= a < b < l.len() implies !better_price(
                l.side,
                #[trigger] l.at(b).price,
                #[trigger] l.at(a).price,
            ) by {
                assert(!better_price(side, orders@[chain[b] as int].price, orders@[chain[a] as int].price));
            }
            assert forall|k: int| #![trigger l.at(k)] 0 <= k < l.len() implies l.at(k).price > 0
                && l.at(k).market_maker_index < NUM_MARKET_MAKERS by {
                assert(orders@[chain[k] as int].price > 0);
            }
        }
        Some(l)
    }

    /// Is `lhs` a strictly better price than `rhs` on this list's side?
    pub fn is_price_better(&self, lhs: u64, rhs: u64) -> (r: bool)
        ensures
            r == better_price(self.side, lhs, rhs),
    {
        match self.side {
            Side::Buy => lhs > rhs,
            Side::Sell => lhs < rhs,
        }
    }
}

/// Walks an order list from the best order to the worst.
pub struct OrderListIterator<'a> {
    pub list: &'a OrderList,
    pub i: u8,
    /// How many orders have been handed out.
    pub pos: Ghost<int>,
}

impl<'a> OrderListIterator<'a> {
    pub open spec fn wf(&self) -> bool {
        &&& self.list.wf()
        &&& 0 <= self.pos@ <= self.list.len()
        &&& self.pos@ < self.list.len() ==> self.i == self.list.chain@[self.pos@]
        &&& self.pos@ == self.list.len() ==> self.i == NULL
    }

    pub fn new(order_list: &'a OrderList) -> (r: Self)
        requires
            order_list.wf(),
        ensures
            r.wf(),
            r.list == order_list,
            r.pos@ == 0,
    {
        OrderListIterator { i: order_list.best_order_idx, list: order_list, pos: Ghost(0) }
    }

    /// The next order and its slot, or `None` past the worst order.
    pub fn next(&mut self) -> (r: Option<(Order, u8)>)
        requires
            old(self).wf(),
        ensures
            final(self).wf(),
            final(self).list == old(self).list,
            old(self).pos@ < old(self).list.len() ==> {
                &&& r == Some((old(self).list.at(old(self).pos@), old(self).list.chain@[old(self).pos@]))
                &&& final(self).pos@ == old(self).pos@ + 1
            },
            old(self).pos@ == old(self).list.len() ==> r.is_none() && final(self).pos@ == old(self).pos@,
    {
        let i = self.i;
        if i == NULL {
            return None;
        }
        proof {
            assert(self.list.chain@.contains(i));
        }
        let order = self.list.orders[i as usize];
        if order.amount_in == 0 {
            return None;
        }
        self.i = order.next_idx;
        self.pos = Ghost(self.pos@ + 1);
        Some((order, i))
    }
}

} // verus!
