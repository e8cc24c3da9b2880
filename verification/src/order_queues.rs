//! One side of a book: resting orders in price-time priority, with lazy
//! cancellation.
//!
//! A queue keeps an index of `(price, arrival time)` keys next to a map from
//! order id to the order itself. A cancel only removes the order from the
//! map; the index entry it leaves behind is stale and is dropped when it
//! reaches the top or when the index is compacted.

use crate::domain::OrderSide;
use std::cmp::Ordering;
use std::collections::{HashMap, HashSet};
use vstd::prelude::*;

verus! {

broadcast use vstd::std_specs::hash::group_hash_axioms;

/// Key under which an order is ranked inside its queue.
#[derive(Debug, Copy, Clone)]
pub struct OrderIndex {
    pub id: u64,
    /// Limit price in ticks.
    pub price: u128,
    pub quantity: u128,
    pub timestamp: u64,
    pub order_side: OrderSide,
}

impl OrderIndex {
    /// Whether `self` is served strictly before `other`: at the better price
    /// for its side (higher for a bid, lower for an ask), or at the same
    /// price with the earlier timestamp.
    pub open spec fn outranks(self, other: OrderIndex) -> bool {
        match self.order_side {
            OrderSide::Bid => self.price > other.price || (self.price == other.price
                && self.timestamp < other.timestamp),
            OrderSide::Ask => self.price < other.price || (self.price == other.price
                && self.timestamp < other.timestamp),
        }
    }

    /// Whether neither key is served before the other.
    pub open spec fn ties(self, other: OrderIndex) -> bool {
        self.price == other.price && self.timestamp == other.timestamp
    }

    /// Three-way form of `outranks`: `Greater` means served first.
    pub open spec fn ranking(self, other: OrderIndex) -> Ordering {
        if self.outranks(other) {
            Ordering::Greater
        } else if self.ties(other) {
            Ordering::Equal
        } else {
            Ordering::Less
        }
    }

    /// Compares two keys of one side by price, then by arrival time.
    pub fn cmp(&self, other: &Self) -> (o: Ordering)
        ensures
            o == self.ranking(*other),
    {
        if self.price < other.price {
            match self.order_side {
                OrderSide::Bid => Ordering::Less,
                OrderSide::Ask => Ordering::Greater,
            }
        } else if self.price > other.price {
            match self.order_side {
                OrderSide::Bid => Ordering::Greater,
                OrderSide::Ask => Ordering::Less,
            }
        } else if self.timestamp < other.timestamp {
            Ordering::Greater
        } else if self.timestamp > other.timestamp {
            Ordering::Less
        } else {
            Ordering::Equal
        }
    }

    /// Whether `self` is served strictly before `other`.
    pub fn precedes(&self, other: &Self) -> (b: bool)
        ensures
            b == self.outranks(*other),
    {
        if self.price == other.price {
            self.timestamp < other.timestamp
        } else {
            match self.order_side {
                OrderSide::Bid => self.price > other.price,
                OrderSide::Ask => self.price < other.price,
            }
        }
    }
}

impl PartialEq for OrderIndex {
    /// Two keys are the same if neither is served before the other.
    fn eq(&self, other: &Self) -> (equal: bool) {
        self.price == other.price && self.timestamp == other.timestamp
    }
}

impl vstd::std_specs::cmp::PartialEqSpecImpl for OrderIndex {
    open spec fn obeys_eq_spec() -> bool {
        true
    }

    open spec fn eq_spec(&self, other: &Self) -> bool {
        self.ties(*other)
    }
}

impl PartialOrd for OrderIndex {
    /// Compares two keys of one side by price, then by arrival time.
    fn partial_cmp(&self, other: &Self) -> (o: Option<Ordering>) {
        Some(self.cmp(other))
    }
}

impl vstd::std_specs::cmp::PartialOrdSpecImpl for OrderIndex {
    open spec fn obeys_partial_cmp_spec() -> bool {
        true
    }

    open spec fn partial_cmp_spec(&self, other: &Self) -> Option<Ordering> {
        Some(self.ranking(*other))
    }
}

/// Drops the entries at the top of `index` (its end) whose id is not in
/// `live`, down to the first entry that is.
pub open spec fn drop_stale_top(index: Seq<OrderIndex>, live: Set<u64>) -> Seq<OrderIndex>
    decreases index.len(),
{
    if index.len() == 0 || live.contains(index.last().id) {
        index
    } else {
        drop_stale_top(index.drop_last(), live)
    }
}

/// Position at which `entry` joins `index`: directly above the topmost entry
/// that it outranks, so below every entry that ties with it.
pub open spec fn rank(index: Seq<OrderIndex>, entry: OrderIndex) -> int
    decreases index.len(),
{
    if index.len() == 0 {
        0
    } else if entry.outranks(index.last()) {
        index.len() as int
    } else {
        rank(index.drop_last(), entry)
    }
}

/// `index` with `entry` added at its rank.
pub open spec fn enqueue(index: Seq<OrderIndex>, entry: OrderIndex) -> Seq<OrderIndex> {
    index.insert(rank(index, entry), entry)
}

/// Whether some entry of `index` carries `id`.
pub open spec fn has_entry(index: Seq<OrderIndex>, id: u64) -> bool {
    exists|i: int| 0 <= i < index.len() && (#[trigger] index[i]).id == id
}

/// Whether no two entries of `index` carry the same id.
pub open spec fn distinct_ids(index: Seq<OrderIndex>) -> bool {
    forall|i: int, j: int|
        0 <= i < j < index.len() ==> (#[trigger] index[i]).id != (#[trigger] index[j]).id
}

/// The entries that carry another id than `id`.
pub open spec fn other_than(id: u64) -> spec_fn(OrderIndex) -> bool {
    |e: OrderIndex| e.id != id
}

/// The entries whose id is in `live`.
pub open spec fn live_in(live: Set<u64>) -> spec_fn(OrderIndex) -> bool {
    |e: OrderIndex| live.contains(e.id)
}

/// Number of entries of `index` whose id is not in `live`.
pub open spec fn stale_count(index: Seq<OrderIndex>, live: Set<u64>) -> nat
    decreases index.len(),
{
    if index.len() == 0 {
        0
    } else {
        stale_count(index.drop_last(), live) + if live.contains(index.last().id) {
            0nat
        } else {
            1nat
        }
    }
}

/// The orders that the entries of `index` resolve to, from the top down.
pub open spec fn served<T>(index: Seq<OrderIndex>, orders: Map<u64, T>) -> Seq<T>
    decreases index.len(),
{
    if index.len() == 0 {
        Seq::empty()
    } else {
        let below = served(index.drop_last(), orders);
        if orders.contains_key(index.last().id) {
            seq![orders[index.last().id]] + below
        } else {
            below
        }
    }
}

/// `orders` with the orders of a list stored under their ids, the last of
/// the list first: of two orders with the same id, the one that the list
/// names first stays.
pub open spec fn filled<T>(orders: Map<u64, T>, entries: Seq<(u64, T)>) -> Map<u64, T>
    decreases entries.len(),
{
    if entries.len() == 0 {
        orders
    } else {
        filled(orders.insert(entries.last().0, entries.last().1), entries.drop_last())
    }
}

/// Whether `index` rises in priority from its start to its end: no entry
/// outranks one that stands above it.
pub open spec fn ascending(index: Seq<OrderIndex>) -> bool {
    forall|i: int, j: int|
        0 <= i < j < index.len() ==> !(#[trigger] index[i]).outranks(#[trigger] index[j])
}

/// What a queue holds.
///
/// `index` rises in priority: its last entry is the top of the queue. Among
/// entries that tie, the one that joined first stands higher.
pub struct QueueState<T> {
    pub index: Seq<OrderIndex>,
    pub orders: Map<u64, T>,
    pub op_counter: u64,
    pub max_stalled: u64,
    pub side: OrderSide,
}

impl<T> QueueState<T> {
    /// The invariant of a queue.
    pub open spec fn wf(self) -> bool {
        &&& forall|i: int|
            0 <= i < self.index.len() ==> (#[trigger] self.index[i]).order_side == self.side
        &&& ascending(self.index)
        &&& distinct_ids(self.index)
        &&& forall|id: u64| self.orders.contains_key(id) ==> #[trigger] has_entry(self.index, id)
        &&& self.stale() <= self.op_counter
        &&& self.op_counter == 0 || self.op_counter < self.max_stalled
    }

    /// Number of stale entries in the index.
    pub open spec fn stale(self) -> nat {
        stale_count(self.index, self.orders.dom())
    }

    /// The resting orders in the order in which they are served.
    pub open spec fn resting(self) -> Seq<T> {
        served(self.index, self.orders)
    }

    /// Whether an entry resolves to an order.
    pub open spec fn is_live(self, entry: OrderIndex) -> bool {
        self.orders.contains_key(entry.id)
    }

    /// Whether no entry of the index is stale.
    pub open spec fn compact(self) -> bool {
        forall|i: int| 0 <= i < self.index.len() ==> self.is_live(#[trigger] self.index[i])
    }

    /// The key that an order gets in this queue.
    pub open spec fn key(self, id: u64, price: u128, qty: u128, ts: u64) -> OrderIndex {
        OrderIndex { id, price, quantity: qty, timestamp: ts, order_side: self.side }
    }

    /// The empty queue of one side.
    pub open spec fn fresh(side: OrderSide, max_stalled: u64) -> Self {
        QueueState {
            index: Seq::empty(),
            orders: Map::empty(),
            op_counter: 0,
            max_stalled,
            side,
        }
    }

    /// The index once the stale entries at its top are gone.
    pub open spec fn settled_index(self) -> Seq<OrderIndex> {
        drop_stale_top(self.index, self.orders.dom())
    }

    /// The queue after a look at its top.
    pub open spec fn peeked(self) -> Self {
        QueueState { index: self.settled_index(), ..self }
    }

    /// The order at the top, if any order is left.
    pub open spec fn top(self) -> Option<T> {
        let index = self.settled_index();
        if index.len() == 0 {
            None
        } else {
            Some(self.orders[index.last().id])
        }
    }

    /// The queue after its top order was taken out.
    pub open spec fn popped(self) -> Self {
        let index = self.settled_index();
        if index.len() == 0 {
            self.peeked()
        } else {
            QueueState {
                index: index.drop_last(),
                orders: self.orders.remove(index.last().id),
                ..self
            }
        }
    }

    /// The queue with `order` stored under `id` and ranked by the given key
    /// alone: entries that carried the id before are gone from the index.
    pub open spec fn reindexed(self, id: u64, price: u128, qty: u128, ts: u64, order: T) -> Self {
        QueueState {
            index: enqueue(self.index.filter(other_than(id)), self.key(id, price, qty, ts)),
            orders: self.orders.insert(id, order),
            ..self
        }
    }

    /// The queue after `insert`: unchanged where the id is present.
    pub open spec fn inserted(self, id: u64, price: u128, qty: u128, ts: u64, order: T) -> Self {
        if self.orders.contains_key(id) {
            self
        } else {
            self.reindexed(id, price, qty, ts, order)
        }
    }

    /// The queue after `amend`: unchanged where the id is absent.
    pub open spec fn amended(self, id: u64, price: u128, qty: u128, ts: u64, order: T) -> Self {
        if self.orders.contains_key(id) {
            self.reindexed(id, price, qty, ts, order)
        } else {
            self
        }
    }

    /// Whether a successful cancel compacts the index: it does where it is
    /// the `max_stalled`-th since the index was last compacted, and always
    /// where `max_stalled` is 0.
    pub open spec fn compaction_due(self) -> bool {
        self.op_counter + 1 >= self.max_stalled
    }

    /// The queue after `cancel`: unchanged where the id is absent.
    pub open spec fn cancelled(self, id: u64) -> Self {
        if self.orders.contains_key(id) {
            let orders = self.orders.remove(id);
            if self.compaction_due() {
                QueueState {
                    index: self.index.filter(live_in(orders.dom())),
                    orders,
                    op_counter: 0,
                    ..self
                }
            } else {
                QueueState { orders, op_counter: (self.op_counter + 1) as u64, ..self }
            }
        } else {
            self
        }
    }

    /// The queue after the given orders were inserted under their keys, the
    /// last of them first.
    pub open spec fn restocked(self, entries: Seq<(OrderIndex, T)>) -> Self
        decreases entries.len(),
    {
        if entries.len() == 0 {
            self
        } else {
            let (key, order) = entries.last();
            self.inserted(key.id, key.price, key.quantity, key.timestamp, order).restocked(
                entries.drop_last(),
            )
        }
    }

    /// The queue after the orders of the given ids were cancelled one after
    /// the other.
    pub open spec fn cancelled_all(self, ids: Seq<u64>) -> Self
        decreases ids.len(),
    {
        if ids.len() == 0 {
            self
        } else {
            self.cancelled_all(ids.drop_last()).cancelled(ids.last())
        }
    }

    /// Whether each of the given ids is the id of a resting order when its
    /// turn to be cancelled comes.
    pub open spec fn all_resting(self, ids: Seq<u64>) -> bool {
        forall|k: int|
            0 <= k < ids.len() ==> (#[trigger] self.cancelled_all(ids.take(k))).orders.contains_key(
                ids[k],
            )
    }

    /// Whether the index holds no stale entry once the first `k` of the given
    /// ids were cancelled.
    pub open spec fn compact_after(self, ids: Seq<u64>, k: int) -> bool {
        self.cancelled_all(ids.take(k)).compact()
    }

    /// Whether the entry at the very top, stale or not, resolves to an order.
    pub open spec fn top_is_live(self) -> bool {
        self.index.len() > 0 && self.is_live(self.index.last())
    }

    /// The queue after `modify_current_order`.
    pub open spec fn modified(self, order: T) -> Self {
        if self.top_is_live() {
            QueueState { orders: self.orders.insert(self.index.last().id, order), ..self }
        } else {
            self
        }
    }
}

/// Resting orders of one side of a book.
pub struct OrderQueue<T> {
    /// Rises in priority; the top of the queue is the last entry.
    idx_queue: Vec<OrderIndex>,
    orders: HashMap<u64, T>,
    op_counter: u64,
    max_stalled: u64,
    queue_side: OrderSide,
}

impl<T> View for OrderQueue<T> {
    type V = QueueState<T>;

    closed spec fn view(&self) -> QueueState<T> {
        QueueState {
            index: self.idx_queue@,
            orders: self.orders@,
            op_counter: self.op_counter,
            max_stalled: self.max_stalled,
            side: self.queue_side,
        }
    }
}

impl<T: Clone> Clone for OrderQueue<T> {
    fn clone(&self) -> (copy: Self)
        ensures
            copy@ == self@,
    {
        let mut idx_queue: Vec<OrderIndex> = Vec::with_capacity(self.idx_queue.len());
        let mut i: usize = 0;
        while i < self.idx_queue.len()
            invariant
                i <= self.idx_queue@.len(),
                idx_queue@ == self.idx_queue@.take(i as int),
            decreases self.idx_queue@.len() - i,
        {
            idx_queue.push(self.idx_queue[i]);
            assert(self.idx_queue@.take(i + 1) =~= self.idx_queue@.take(i as int).push(
                self.idx_queue@[i as int],
            ));
            i = i + 1;
        }
        assert(self.idx_queue@.take(i as int) =~= self.idx_queue@);
        OrderQueue {
            idx_queue,
            orders: self.orders.clone(),
            op_counter: self.op_counter,
            max_stalled: self.max_stalled,
            queue_side: self.queue_side,
        }
    }
}

impl<T> OrderQueue<T> {
    /// The invariant that every method keeps.
    pub open spec fn wf(&self) -> bool {
        self@.wf()
    }

    /// Creates the empty queue of one side. Every `max_stalled`-th
    /// successful cancel compacts the index; `capacity` is the number of
    /// orders to make room for.
    pub fn new(side: OrderSide, max_stalled: u64, capacity: usize) -> (queue: Self)
        ensures
            queue.wf(),
            queue@ == QueueState::<T>::fresh(side, max_stalled),
    {
        let queue = OrderQueue {
            idx_queue: Vec::with_capacity(capacity),
            orders: HashMap::with_capacity(capacity),
            op_counter: 0,
            max_stalled,
            queue_side: side,
        };
        assert(queue@.index =~= Seq::empty());
        queue
    }

    /// The queue of one side that holds the given orders under their keys.
    /// The orders are inserted one by one, the last of them first: listed in
    /// the order of an index, they keep that order where their keys tie.
    pub fn from_resting(
        side: OrderSide,
        max_stalled: u64,
        capacity: usize,
        entries: Vec<(OrderIndex, T)>,
    ) -> (queue: Self)
        ensures
            queue.wf(),
            queue@ == QueueState::<T>::fresh(side, max_stalled).restocked(entries@),
    {
        let mut queue = Self::new(side, max_stalled, capacity);
        let mut rest = entries;
        while rest.len() > 0
            invariant
                queue.wf(),
                QueueState::<T>::fresh(side, max_stalled).restocked(entries@) == queue@.restocked(
                    rest@,
                ),
            decreases rest@.len(),
        {
            if let Some((key, order)) = rest.pop() {
                queue.insert(key.id, key.price, key.quantity, key.timestamp, order);
            }
        }
        queue
    }

    /// The queue that holds exactly the given index, orders, counter of
    /// cancels and threshold, or `None` where these do not make a queue: the
    /// entries have to be of the side of the queue, rise in priority and
    /// carry distinct ids, every order needs an entry, and no more entries
    /// may be stale than cancels were counted.
    pub fn from_parts(
        side: OrderSide,
        max_stalled: u64,
        op_counter: u64,
        index: Vec<OrderIndex>,
        orders: Vec<(u64, T)>,
    ) -> (queue: Option<Self>)
        ensures
            match queue {
                Some(made) => made.wf() && made@ == (QueueState {
                    index: index@,
                    orders: filled(Map::empty(), orders@),
                    op_counter,
                    max_stalled,
                    side,
                }),
                None => !(QueueState {
                    index: index@,
                    orders: filled(Map::<u64, T>::empty(), orders@),
                    op_counter,
                    max_stalled,
                    side,
                }).wf(),
            },
    {
        let ghost whole = filled(Map::<u64, T>::empty(), orders@);
        if op_counter != 0 && op_counter >= max_stalled {
            return None;
        }
        let mut seen: HashSet<u64> = HashSet::new();
        let mut i: usize = 0;
        while i < index.len()
            invariant
                i <= index@.len(),
                forall|k: int| 0 <= k < i ==> (#[trigger] index@[k]).order_side == side,
                forall|k: int| 0 < k < i ==> !index@[k - 1].outranks(#[trigger] index@[k]),
                forall|k: int| 0 <= k < i ==> seen@.contains((#[trigger] index@[k]).id),
                forall|x: u64|
                    seen@.contains(x) ==> exists|k: int|
                        0 <= k < i && (#[trigger] index@[k]).id == x,
                forall|a: int, b: int|
                    0 <= a < b < i ==> (#[trigger] index@[a]).id != (#[trigger] index@[b]).id,
            decreases index@.len() - i,
        {
            let entry = index[i];
            let same_side = match (entry.order_side, side) {
                (OrderSide::Bid, OrderSide::Bid) => true,
                (OrderSide::Ask, OrderSide::Ask) => true,
                _ => false,
            };
            if !same_side {
                assert(index@[i as int].order_side != side);
                return None;
            }
            if i > 0 && index[i - 1].precedes(&entry) {
                assert(index@[i - 1].outranks(index@[i as int]));
                return None;
            }
            if seen.contains(&entry.id) {
                proof {
                    let k = choose|k: int| 0 <= k < i && (#[trigger] index@[k]).id == entry.id;
                    assert(index@[k].id == index@[i as int].id);
                }
                return None;
            }
            let ghost before = seen@;
            seen.insert(entry.id);
            proof {
                assert forall|x: u64| seen@.contains(x) implies exists|k: int|
                    0 <= k < i + 1 && (#[trigger] index@[k]).id == x by {
                    if x == entry.id {
                        assert(index@[i as int].id == x);
                    } else {
                        assert(before.contains(x));
                        let k = choose|k: int| 0 <= k < i && (#[trigger] index@[k]).id == x;
                        assert(0 <= k < i + 1 && index@[k].id == x);
                    }
                }
                assert forall|a: int, b: int| 0 <= a < b < i + 1 implies (#[trigger] index@[a]).id
                    != (#[trigger] index@[b]).id by {
                    if b == i {
                        assert(before.contains(index@[a].id));
                    }
                }
            }
            i = i + 1;
        }
        proof {
            lemma_adjacent_ascending(index@, side);
        }
        let mut map: HashMap<u64, T> = HashMap::new();
        let mut rest = orders;
        while rest.len() > 0
            invariant
                whole == filled(Map::<u64, T>::empty(), orders@),
                whole == filled(map@, rest@),
                forall|id: u64| map@.contains_key(id) ==> #[trigger] has_entry(index@, id),
                forall|x: u64|
                    seen@.contains(x) ==> exists|k: int|
                        0 <= k < index@.len() && (#[trigger] index@[k]).id == x,
                forall|k: int|
                    0 <= k < index@.len() ==> seen@.contains((#[trigger] index@[k]).id),
            decreases rest@.len(),
        {
            let ghost listed = rest@;
            if let Some((id, order)) = rest.pop() {
                proof {
                    assert(listed.last() == (id, order));
                    assert(listed.drop_last() == rest@);
                    assert(whole == filled(map@.insert(id, order), rest@));
                }
                if !seen.contains(&id) {
                    proof {
                        lemma_filled_keeps(map@.insert(id, order), rest@, id);
                        assert(whole.contains_key(id));
                        if has_entry(index@, id) {
                            let k = choose|k: int|
                                0 <= k < index@.len() && (#[trigger] index@[k]).id == id;
                            assert(seen@.contains(index@[k].id));
                        }
                        assert(!has_entry(index@, id));
                        let state = QueueState {
                            index: index@,
                            orders: whole,
                            op_counter,
                            max_stalled,
                            side,
                        };
                        assert(state.orders.contains_key(id) && !has_entry(state.index, id));
                    }
                    return None;
                }
                proof {
                    let k = choose|k: int| 0 <= k < index@.len() && (#[trigger] index@[k]).id == id;
                    assert(has_entry(index@, id));
                }
                map.insert(id, order);
            }
        }
        let mut stale: usize = 0;
        let mut j: usize = 0;
        while j < index.len()
            invariant
                j <= index@.len(),
                stale <= j,
                stale == stale_count(index@.take(j as int), map@.dom()),
            decreases index@.len() - j,
        {
            proof {
                assert(index@.take(j + 1).drop_last() =~= index@.take(j as int));
            }
            if !map.contains_key(&index[j].id) {
                stale = stale + 1;
            }
            j = j + 1;
        }
        proof {
            assert(index@.take(j as int) =~= index@);
        }
        if stale as u64 > op_counter {
            return None;
        }
        Some(OrderQueue { idx_queue: index, orders: map, op_counter, max_stalled, queue_side: side })
    }

    /// A copy of the whole index, stale entries included; the top of the
    /// queue comes last.
    pub fn entries(&self) -> (index: Vec<OrderIndex>)
        ensures
            index@ == self@.index,
    {
        let mut index: Vec<OrderIndex> = Vec::with_capacity(self.idx_queue.len());
        let mut i: usize = 0;
        while i < self.idx_queue.len()
            invariant
                i <= self.idx_queue@.len(),
                index@ == self.idx_queue@.take(i as int),
            decreases self.idx_queue@.len() - i,
        {
            index.push(self.idx_queue[i]);
            assert(self.idx_queue@.take(i + 1) =~= self.idx_queue@.take(i as int).push(
                self.idx_queue@[i as int],
            ));
            i = i + 1;
        }
        assert(self.idx_queue@.take(i as int) =~= self.idx_queue@);
        index
    }

    /// The number of cancels since the index was last compacted.
    pub fn op_counter(&self) -> (op_counter: u64)
        ensures
            op_counter == self@.op_counter,
    {
        self.op_counter
    }

    /// The side of the queue.
    pub fn side(&self) -> (side: OrderSide)
        ensures
            side == self@.side,
    {
        self.queue_side
    }

    /// The number of cancels after which the index is due for compaction.
    pub fn max_stalled(&self) -> (max_stalled: u64)
        ensures
            max_stalled == self@.max_stalled,
    {
        self.max_stalled
    }

    /// Drops the stale entries at the top of the index.
    fn settle(&mut self)
        requires
            old(self).wf(),
        ensures
            final(self).wf(),
            final(self)@ == old(self)@.peeked(),
            final(self)@.index.len() > 0 ==> final(self)@.is_live(final(self)@.index.last()),
    {
        let mut done: bool = false;
        while !done
            invariant
                self.wf(),
                self@.orders == old(self)@.orders,
                self@.op_counter == old(self)@.op_counter,
                self@.max_stalled == old(self)@.max_stalled,
                self@.side == old(self)@.side,
                drop_stale_top(self@.index, self@.orders.dom()) == old(self)@.settled_index(),
                done ==> self@.index.len() == 0 || self@.is_live(self@.index.last()),
            decreases self@.index.len() + (if done { 0int } else { 1int }),
        {
            let len: usize = self.idx_queue.len();
            if len == 0 {
                done = true;
            } else {
                let id: u64 = self.idx_queue[len - 1].id;
                if self.orders.contains_key(&id) {
                    done = true;
                } else {
                    let ghost before = self@;
                    self.idx_queue.pop();
                    proof {
                        assert(self@.index == before.index.drop_last());
                        lemma_drop_stale_keeps_wf(before);
                    }
                }
            }
        }
    }

    /// The order at the top of the queue, or `None` if no order is left.
    /// Stale entries above it are dropped from the index.
    pub fn peek(&mut self) -> (top: Option<&T>)
        requires
            old(self).wf(),
        ensures
            final(self).wf(),
            final(self)@ == old(self)@.peeked(),
            match top {
                Some(order) => old(self)@.top() == Some(*order),
                None => old(self)@.top().is_none(),
            },
    {
        self.settle();
        let len: usize = self.idx_queue.len();
        if len == 0 {
            None
        } else {
            let id: u64 = self.idx_queue[len - 1].id;
            self.orders.get(&id)
        }
    }

    /// Takes the order at the top out of the queue, or returns `None` if no
    /// order is left. Stale entries above it are dropped from the index.
    pub fn pop(&mut self) -> (top: Option<T>)
        requires
            old(self).wf(),
        ensures
            final(self).wf(),
            final(self)@ == old(self)@.popped(),
            top == old(self)@.top(),
    {
        self.settle();
        match self.idx_queue.pop() {
            None => None,
            Some(entry) => {
                let ghost before = self@;
                let order = self.orders.remove(&entry.id);
                proof {
                    lemma_pop_keeps_wf(old(self)@.peeked());
                }
                order
            },
        }
    }
}

impl<T> OrderQueue<T> {
    /// The rank of `entry` in `index`.
    fn position(index: &Vec<OrderIndex>, entry: &OrderIndex) -> (pos: usize)
        ensures
            pos == rank(index@, *entry),
            pos <= index@.len(),
    {
        let mut pos: usize = index.len();
        let mut found: bool = false;
        proof {
            assert(index@.take(pos as int) =~= index@);
        }
        while pos > 0 && !found
            invariant
                pos <= index@.len(),
                rank(index@, *entry) == rank(index@.take(pos as int), *entry),
                found ==> pos > 0 && entry.outranks(index@[pos - 1]),
            decreases pos + (if found { 0int } else { 1int }),
        {
            if entry.precedes(&index[pos - 1]) {
                found = true;
            } else {
                proof {
                    assert(index@.take(pos as int).drop_last() =~= index@.take(pos - 1));
                }
                pos = pos - 1;
            }
        }
        pos
    }

    /// The entries of the index that carry another id than `id`.
    fn without(&self, id: u64) -> (kept: Vec<OrderIndex>)
        ensures
            kept@ == self@.index.filter(other_than(id)),
    {
        let mut kept: Vec<OrderIndex> = Vec::new();
        let mut i: usize = 0;
        proof {
            reveal(Seq::filter);
            assert(self@.index.take(0).filter(other_than(id)) =~= Seq::empty());
        }
        while i < self.idx_queue.len()
            invariant
                i <= self.idx_queue@.len(),
                kept@ == self.idx_queue@.take(i as int).filter(other_than(id)),
            decreases self.idx_queue@.len() - i,
        {
            let entry: OrderIndex = self.idx_queue[i];
            proof {
                assert(self.idx_queue@.take(i + 1) =~= self.idx_queue@.take(i as int).push(entry));
                self.idx_queue@.take(i as int).lemma_filter_push(entry, other_than(id));
            }
            if entry.id != id {
                kept.push(entry);
            }
            i = i + 1;
        }
        proof {
            assert(self.idx_queue@.take(i as int) =~= self.idx_queue@);
        }
        kept
    }

    /// The entries of the index that resolve to an order, in the order of
    /// the index: the top of the queue comes last.
    pub fn live_index(&self) -> (kept: Vec<OrderIndex>)
        ensures
            kept@ == self@.index.filter(live_in(self@.orders.dom())),
    {
        let ghost live = live_in(self@.orders.dom());
        let mut kept: Vec<OrderIndex> = Vec::new();
        let mut i: usize = 0;
        proof {
            reveal(Seq::filter);
            assert(self@.index.take(0).filter(live) =~= Seq::empty());
        }
        while i < self.idx_queue.len()
            invariant
                i <= self.idx_queue@.len(),
                live == live_in(self@.orders.dom()),
                kept@ == self.idx_queue@.take(i as int).filter(live),
            decreases self.idx_queue@.len() - i,
        {
            let entry: OrderIndex = self.idx_queue[i];
            proof {
                assert(self.idx_queue@.take(i + 1) =~= self.idx_queue@.take(i as int).push(entry));
                self.idx_queue@.take(i as int).lemma_filter_push(entry, live);
            }
            if self.orders.contains_key(&entry.id) {
                kept.push(entry);
            }
            i = i + 1;
        }
        proof {
            assert(self.idx_queue@.take(i as int) =~= self.idx_queue@);
        }
        kept
    }

    /// Stores `order` under `id` and ranks it by the given key alone.
    fn reindex(&mut self, id: u64, price: u128, qty: u128, ts: u64, order: T)
        requires
            old(self).wf(),
        ensures
            final(self).wf(),
            final(self)@ == old(self)@.reindexed(id, price, qty, ts, order),
    {
        let entry = OrderIndex {
            id,
            price,
            quantity: qty,
            timestamp: ts,
            order_side: self.queue_side,
        };
        let mut kept = self.without(id);
        let pos = Self::position(&kept, &entry);
        kept.insert(pos, entry);
        self.idx_queue = kept;
        self.orders.insert(id, order);
        proof {
            lemma_reindex_keeps_wf(old(self)@, id, price, qty, ts, order);
        }
    }

    /// Adds a new order under `id`, ranked by `price` and `ts`.
    ///
    /// Returns `false` and changes nothing where `id` is already present.
    /// Stale entries that an earlier order of the same id left in the index
    /// are dropped, so the new order is ranked by its own key alone.
    pub fn insert(&mut self, id: u64, price: u128, qty: u128, ts: u64, order: T) -> (added: bool)
        requires
            old(self).wf(),
        ensures
            final(self).wf(),
            added == !old(self)@.orders.contains_key(id),
            final(self)@ == old(self)@.inserted(id, price, qty, ts, order),
    {
        if self.orders.contains_key(&id) {
            return false;
        }
        self.reindex(id, price, qty, ts, order);
        true
    }

    /// Replaces the order stored under `id` and ranks it anew by `price` and
    /// `ts`. Returns `false` and changes nothing where `id` is absent.
    pub fn amend(&mut self, id: u64, price: u128, qty: u128, ts: u64, order: T) -> (amended: bool)
        requires
            old(self).wf(),
        ensures
            final(self).wf(),
            amended == old(self)@.orders.contains_key(id),
            final(self)@ == old(self)@.amended(id, price, qty, ts, order),
    {
        if self.orders.contains_key(&id) {
            self.reindex(id, price, qty, ts, order);
            true
        } else {
            false
        }
    }

    /// Removes the order stored under `id` and leaves its index entry behind
    /// as stale. Every `max_stalled`-th cancel since the index was last
    /// compacted compacts it instead: every stale entry is dropped. Returns
    /// whether `id` was present.
    pub fn cancel(&mut self, id: u64) -> (cancelled: bool)
        requires
            old(self).wf(),
        ensures
            final(self).wf(),
            cancelled == old(self)@.orders.contains_key(id),
            final(self)@ == old(self)@.cancelled(id),
            cancelled && old(self)@.compaction_due() ==> final(self)@.compact(),
    {
        match self.orders.remove(&id) {
            Some(_) => {
                proof {
                    lemma_cancel_keeps_wf(old(self)@, id);
                }
                if self.max_stalled <= 1 || self.op_counter >= self.max_stalled - 1 {
                    self.op_counter = 0;
                    let kept = self.live_index();
                    self.idx_queue = kept;
                } else {
                    self.op_counter = self.op_counter + 1;
                }
                true
            },
            None => {
                assert(self@.orders =~= old(self)@.orders);
                false
            },
        }
    }

    /// Replaces the order that the entry at the very top of the index
    /// resolves to, leaving its rank as it is. Returns `false` and changes
    /// nothing where the index is empty or that entry is stale.
    pub fn modify_current_order(&mut self, new_order: T) -> (modified: bool)
        requires
            old(self).wf(),
        ensures
            final(self).wf(),
            modified == old(self)@.top_is_live(),
            final(self)@ == old(self)@.modified(new_order),
    {
        let len: usize = self.idx_queue.len();
        if len > 0 {
            let id: u64 = self.idx_queue[len - 1].id;
            if self.orders.contains_key(&id) {
                self.orders.insert(id, new_order);
                proof {
                    assert(self@.orders.dom() =~= old(self)@.orders.dom());
                }
                return true;
            }
        }
        false
    }

    /// The order stored under `id`, if there is one.
    pub fn get(&self, id: u64) -> (order: Option<&T>)
        ensures
            match order {
                Some(found) => self@.orders.contains_key(id) && self@.orders[id] == *found,
                None => !self@.orders.contains_key(id),
            },
    {
        self.orders.get(&id)
    }

    /// The order at the top of the queue, or `None` if no order is left.
    /// The index is left as it is.
    pub fn first(&self) -> (top: Option<&T>)
        ensures
            match top {
                Some(order) => self@.top() == Some(*order),
                None => self@.top().is_none(),
            },
    {
        let mut i: usize = self.idx_queue.len();
        proof {
            assert(self@.index.take(i as int) =~= self@.index);
        }
        while i > 0
            invariant
                i <= self.idx_queue@.len(),
                self@.settled_index() == drop_stale_top(
                    self@.index.take(i as int),
                    self@.orders.dom(),
                ),
            decreases i,
        {
            let id: u64 = self.idx_queue[i - 1].id;
            match self.orders.get(&id) {
                Some(order) => {
                    return Some(order);
                },
                None => {
                    proof {
                        assert(self@.index.take(i as int).drop_last() =~= self@.index.take(i - 1));
                    }
                },
            }
            i = i - 1;
        }
        None
    }

    /// The resting orders in the order in which they are served.
    pub fn resting_orders(&self) -> (orders: Vec<&T>)
        ensures
            orders@.len() == self@.resting().len(),
            forall|k: int| 0 <= k < orders@.len() ==> *orders@[k] == self@.resting()[k],
    {
        let mut found: Vec<&T> = Vec::new();
        let mut i: usize = self.idx_queue.len();
        proof {
            assert(self@.index.take(i as int) =~= self@.index);
        }
        while i > 0
            invariant
                i <= self.idx_queue@.len(),
                self@.resting().len() == found@.len() + served(
                    self@.index.take(i as int),
                    self@.orders,
                ).len(),
                forall|k: int| 0 <= k < found@.len() ==> *found@[k] == self@.resting()[k],
                forall|k: int|
                    found@.len() <= k < self@.resting().len() ==> self@.resting()[k] == served(
                        self@.index.take(i as int),
                        self@.orders,
                    )[k - found@.len()],
            decreases i,
        {
            let id: u64 = self.idx_queue[i - 1].id;
            proof {
                assert(self@.index.take(i as int).drop_last() =~= self@.index.take(i - 1));
            }
            match self.orders.get(&id) {
                Some(order) => {
                    found.push(order);
                },
                None => {},
            }
            i = i - 1;
        }
        found
    }
}

/// Price-time priority of two orders. Of two orders that are inserted one
/// after the other, the second stands above the first exactly if its key
/// outranks the key of the first: if it has the better price, or the same
/// price and the earlier timestamp. Otherwise the first stands above the
/// second, also where the two keys tie. The one that stands below is not at
/// the top of the queue, and where the queue held no order before, the one
/// that stands above is.
pub proof fn lemma_better_key_is_served_first<T>(
    q: QueueState<T>,
    first: OrderIndex,
    first_order: T,
    second: OrderIndex,
    second_order: T,
)
    requires
        q.wf(),
        !q.orders.contains_key(first.id),
        !q.orders.contains_key(second.id),
        first.id != second.id,
        first.order_side == q.side,
        second.order_side == q.side,
    ensures
        ({
            let after = q.inserted(
                first.id,
                first.price,
                first.quantity,
                first.timestamp,
                first_order,
            ).inserted(second.id, second.price, second.quantity, second.timestamp, second_order);
            let winner = if second.outranks(first) {
                second
            } else {
                first
            };
            let loser = if second.outranks(first) {
                first
            } else {
                second
            };
            &&& after.wf()
            &&& exists|low: int, high: int|
                0 <= low < high < after.index.len() && #[trigger] after.index[low] == loser
                    && #[trigger] after.index[high] == winner
            &&& after.settled_index().len() > 0
            &&& after.settled_index().last().id != loser.id
            &&& q.orders.dom() =~= Set::<u64>::empty() ==> after.settled_index().last() == winner
                && after.top() == Some(
                if second.outranks(first) {
                    second_order
                } else {
                    first_order
                },
            )
        }),
{
    let middle = q.inserted(first.id, first.price, first.quantity, first.timestamp, first_order);
    let after = middle.inserted(
        second.id,
        second.price,
        second.quantity,
        second.timestamp,
        second_order,
    );
    assert(first == q.key(first.id, first.price, first.quantity, first.timestamp));
    assert(second == middle.key(second.id, second.price, second.quantity, second.timestamp));
    lemma_reindex_keeps_wf(
        q,
        first.id,
        first.price,
        first.quantity,
        first.timestamp,
        first_order,
    );
    lemma_reindex_keeps_wf(
        middle,
        second.id,
        second.price,
        second.quantity,
        second.timestamp,
        second_order,
    );
    let kept_first = q.index.filter(other_than(first.id));
    lemma_rank_bounds(kept_first, first);
    let at = rank(kept_first, first);
    assert(middle.index[at] == first);
    let kept = middle.index.filter(other_than(second.id));
    lemma_filter_keeps(middle.index, other_than(second.id), middle.orders.dom());
    assert(kept.contains(middle.index[at]));
    let j = choose|j: int| 0 <= j < kept.len() && kept[j] == first;
    assert forall|k: int| 0 <= k < kept.len() implies (#[trigger] kept[k]).order_side
        == second.order_side by {
        assert(middle.index.contains(kept[k]));
        let i = choose|i: int| 0 <= i < middle.index.len() && middle.index[i] == kept[k];
        assert(middle.index[i].order_side == middle.side);
    }
    lemma_rank_splits(kept, second);
    let pos = rank(kept, second);
    assert(after.index[pos] == second);
    let low = if second.outranks(first) {
        j
    } else {
        pos
    };
    let high = if second.outranks(first) {
        pos
    } else {
        j + 1
    };
    if second.outranks(first) {
        assert(j < pos);
        assert(after.index[j] == kept[j]);
    } else {
        assert(j >= pos);
        assert(after.index[j + 1] == kept[j]);
    }
    assert(0 <= low < high < after.index.len());
    lemma_settled_index(after.index, after.orders.dom());
    let settled = after.settled_index();
    assert(after.orders.contains_key(after.index[low].id));
    assert(after.orders.contains_key(after.index[high].id));
    assert(high < settled.len());
    assert(settled.last() == after.index[settled.len() - 1]);
    if settled.last().id == after.index[low].id {
        assert(after.index[low].id != after.index[settled.len() - 1].id);
    }
    if q.orders.dom() =~= Set::<u64>::empty() {
        assert(after.orders.dom() =~= set![first.id, second.id]);
        assert(settled.last().id == after.index[high].id);
        if settled.len() - 1 != high {
            assert(after.index[high].id != after.index[settled.len() - 1].id);
        }
    }
}

/// A run of cancels reaches a compaction in time. Of `max_stalled` cancels
/// of resting orders one after the other, at least one leaves the index
/// without a stale entry; where `max_stalled` is 0, every cancel does.
pub proof fn lemma_cancels_compact_in_time<T>(q: QueueState<T>, ids: Seq<u64>)
    requires
        q.wf(),
        q.all_resting(ids),
        ids.len() >= 1,
        ids.len() >= q.max_stalled,
    ensures
        exists|k: int| 1 <= k <= ids.len() && #[trigger] q.compact_after(ids, k),
{
    lemma_cancel_run(q, ids, ids.len() as int);
}

/// After the first `n` cancels of a run, either one of them has compacted
/// the index or the counter has gone up by `n`.
proof fn lemma_cancel_run<T>(q: QueueState<T>, ids: Seq<u64>, n: int)
    requires
        q.wf(),
        q.all_resting(ids),
        0 <= n <= ids.len(),
    ensures
        q.cancelled_all(ids.take(n)).wf(),
        q.cancelled_all(ids.take(n)).max_stalled == q.max_stalled,
        (exists|k: int| 1 <= k <= n && #[trigger] q.compact_after(ids, k)) || q.cancelled_all(
            ids.take(n),
        ).op_counter == q.op_counter + n,
    decreases n,
{
    if n > 0 {
        lemma_cancel_run(q, ids, n - 1);
        let before = q.cancelled_all(ids.take(n - 1));
        assert(ids.take(n).drop_last() =~= ids.take(n - 1));
        assert(ids.take(n).last() == ids[n - 1]);
        assert(before.orders.contains_key(ids[n - 1]));
        lemma_cancel_keeps_wf(before, ids[n - 1]);
        if before.compaction_due() {
            assert(q.compact_after(ids, n));
        }
    }
}

/// Whether `entries` lists the live entries of a queue in the order of its
/// index, each with the order that it resolves to.
pub open spec fn lists_resting<T>(q: QueueState<T>, entries: Seq<(OrderIndex, T)>) -> bool {
    let live = q.index.filter(live_in(q.orders.dom()));
    &&& entries.len() == live.len()
    &&& forall|i: int|
        0 <= i < entries.len() ==> (#[trigger] entries[i]).0 == live[i] && entries[i].1
            == q.orders[live[i].id]
}

/// A queue that is built anew from the list of its resting orders holds the
/// same orders as before and serves them in the same order. Its index is
/// the index of before without the stale entries.
pub proof fn lemma_restock_round_trip<T>(q: QueueState<T>, entries: Seq<(OrderIndex, T)>)
    requires
        q.wf(),
        lists_resting(q, entries),
    ensures
        ({
            let rebuilt = QueueState::<T>::fresh(q.side, q.max_stalled).restocked(entries);
            &&& rebuilt.wf()
            &&& rebuilt.index == q.index.filter(live_in(q.orders.dom()))
            &&& rebuilt.orders == q.orders
            &&& rebuilt.resting() == q.resting()
            &&& rebuilt.top() == q.top()
        }),
{
    let live = q.index.filter(live_in(q.orders.dom()));
    let start = QueueState::<T>::fresh(q.side, q.max_stalled);
    lemma_filter_keeps(q.index, live_in(q.orders.dom()), q.orders.dom());
    assert(live.skip(live.len() as int) =~= Seq::<OrderIndex>::empty());
    assert(entries.take(entries.len() as int) =~= entries);
    assert forall|p: int| 0 <= p < live.len() implies (#[trigger] live[p]).order_side == q.side
        && q.orders.contains_key(live[p].id) by {
        assert(q.index.contains(live[p]));
        let i = choose|i: int| 0 <= i < q.index.len() && q.index[i] == live[p];
        assert(q.index[i].order_side == q.side);
    }
    lemma_restock_from(q, live, entries, start, entries.len() as int);
    let rebuilt = start.restocked(entries);
    assert(live.skip(0) =~= live);
    assert(rebuilt.orders =~= q.orders) by {
        assert forall|id: u64| q.orders.contains_key(id) implies rebuilt.orders.contains_key(id) by {
            assert(has_entry(q.index, id));
            let i = choose|i: int| 0 <= i < q.index.len() && (#[trigger] q.index[i]).id == id;
            assert(live.contains(q.index[i]));
            let p = choose|p: int| 0 <= p < live.len() && live[p] == q.index[i];
            assert(live[p].id == id);
        }
    }
    lemma_served_skips_stale(q.index, q.orders);
    lemma_settled_skips_stale(q.index, q.orders.dom());
}

/// Building a queue anew, from the top of the list down: once the entries
/// from `n` on are in, the entries before `n` complete the index.
proof fn lemma_restock_from<T>(
    q: QueueState<T>,
    live: Seq<OrderIndex>,
    entries: Seq<(OrderIndex, T)>,
    acc: QueueState<T>,
    n: int,
)
    requires
        0 <= n <= live.len(),
        entries.len() == live.len(),
        ascending(live),
        distinct_ids(live),
        forall|p: int|
            0 <= p < live.len() ==> (#[trigger] live[p]).order_side == q.side
                && q.orders.contains_key(live[p].id),
        forall|i: int|
            0 <= i < entries.len() ==> (#[trigger] entries[i]).0 == live[i] && entries[i].1
                == q.orders[live[i].id],
        acc.wf(),
        acc.side == q.side,
        acc.max_stalled == q.max_stalled,
        acc.index == live.skip(n),
        forall|id: u64|
            acc.orders.contains_key(id) <==> exists|p: int|
                n <= p < live.len() && (#[trigger] live[p]).id == id,
        forall|id: u64| acc.orders.contains_key(id) ==> acc.orders[id] == q.orders[id],
    ensures
        acc.restocked(entries.take(n)).wf(),
        acc.restocked(entries.take(n)).index == live,
        forall|id: u64| #[trigger]
            acc.restocked(entries.take(n)).orders.contains_key(id) <==> exists|p: int|
                0 <= p < live.len() && (#[trigger] live[p]).id == id,
        forall|id: u64|
            acc.restocked(entries.take(n)).orders.contains_key(id) ==> acc.restocked(
                entries.take(n),
            ).orders[id] == q.orders[id],
    decreases n,
{
    if n == 0 {
        assert(entries.take(0) =~= Seq::<(OrderIndex, T)>::empty());
        assert(live.skip(0) =~= live);
    } else {
        let key = live[n - 1];
        let order = entries[n - 1].1;
        assert(entries.take(n).last() == entries[n - 1]);
        assert(entries.take(n).drop_last() =~= entries.take(n - 1));
        assert(!acc.orders.contains_key(key.id)) by {
            if acc.orders.contains_key(key.id) {
                let p = choose|p: int| n <= p < live.len() && (#[trigger] live[p]).id == key.id;
                assert(live[n - 1].id != live[p].id);
            }
        }
        let next = acc.inserted(key.id, key.price, key.quantity, key.timestamp, order);
        assert(acc.key(key.id, key.price, key.quantity, key.timestamp) == key);
        lemma_reindex_keeps_wf(acc, key.id, key.price, key.quantity, key.timestamp, order);
        let kept = acc.index.filter(other_than(key.id));
        assert(kept == acc.index) by {
            assert forall|i: int| 0 <= i < acc.index.len() implies other_than(key.id)(
                #[trigger] acc.index[i],
            ) by {
                assert(acc.index[i] == live[n + i]);
                assert(live[n - 1].id != live[n + i].id);
            }
            lemma_filter_all(acc.index, other_than(key.id));
        }
        lemma_rank_bounds(kept, key);
        if rank(kept, key) > 0 {
            let below = rank(kept, key) - 1;
            assert(kept[below] == live[n + below]);
            assert(!live[n - 1].outranks(live[n + below]));
        }
        assert(next.index =~= live.skip(n - 1));
        assert forall|id: u64| next.orders.contains_key(id) <==> exists|p: int|
            n - 1 <= p < live.len() && (#[trigger] live[p]).id == id by {
            if next.orders.contains_key(id) {
                if id == key.id {
                    assert(live[n - 1].id == id);
                } else {
                    let p = choose|p: int| n <= p < live.len() && (#[trigger] live[p]).id == id;
                    assert(n - 1 <= p < live.len() && live[p].id == id);
                }
            }
            if exists|p: int| n - 1 <= p < live.len() && (#[trigger] live[p]).id == id {
                let p = choose|p: int| n - 1 <= p < live.len() && (#[trigger] live[p]).id == id;
                if p >= n {
                    assert(acc.orders.contains_key(id));
                }
            }
        }
        lemma_restock_from(q, live, entries, next, n - 1);
    }
}

/// A filter that every entry passes keeps the sequence as it is.
proof fn lemma_filter_all(index: Seq<OrderIndex>, pred: spec_fn(OrderIndex) -> bool)
    requires
        forall|i: int| 0 <= i < index.len() ==> pred(#[trigger] index[i]),
    ensures
        index.filter(pred) == index,
    decreases index.len(),
{
    reveal(Seq::filter);
    if index.len() > 0 {
        assert forall|i: int| 0 <= i < index.drop_last().len() implies pred(
            #[trigger] index.drop_last()[i],
        ) by {
            assert(index.drop_last()[i] == index[i]);
        }
        lemma_filter_all(index.drop_last(), pred);
        assert(pred(index[index.len() - 1]));
        assert(index.drop_last().push(index.last()) =~= index);
    }
}

/// The orders that are served do not depend on the stale entries.
proof fn lemma_served_skips_stale<T>(index: Seq<OrderIndex>, orders: Map<u64, T>)
    ensures
        served(index.filter(live_in(orders.dom())), orders) == served(index, orders),
    decreases index.len(),
{
    reveal(Seq::filter);
    if index.len() > 0 {
        let live = live_in(orders.dom());
        lemma_served_skips_stale(index.drop_last(), orders);
        if live(index.last()) {
            assert(index.filter(live).drop_last() =~= index.drop_last().filter(live));
        }
    }
}

/// Without its stale entries an index ends in the entry in which it ends
/// once the stale entries at its top are dropped.
proof fn lemma_settled_skips_stale(index: Seq<OrderIndex>, live: Set<u64>)
    ensures
        drop_stale_top(index.filter(live_in(live)), live).len() == index.filter(
            live_in(live),
        ).len(),
        drop_stale_top(index, live).len() == 0 <==> index.filter(live_in(live)).len() == 0,
        drop_stale_top(index, live).len() > 0 ==> drop_stale_top(index, live).last()
            == index.filter(live_in(live)).last(),
    decreases index.len(),
{
    reveal(Seq::filter);
    if index.len() > 0 {
        lemma_settled_skips_stale(index.drop_last(), live);
    }
}

/// Where the entries of an index come from after an order was stored and
/// ranked anew: each of them is the new key, or an entry of before that
/// carries another id.
pub proof fn lemma_reindexed_entries<T>(
    q: QueueState<T>,
    id: u64,
    price: u128,
    qty: u128,
    ts: u64,
    order: T,
)
    ensures
        forall|j: int|
            0 <= j < q.reindexed(id, price, qty, ts, order).index.len() ==> {
                let entry = #[trigger] q.reindexed(id, price, qty, ts, order).index[j];
                entry == q.key(id, price, qty, ts) || (q.index.contains(entry) && entry.id != id)
            },
        q.reindexed(id, price, qty, ts, order).index.contains(q.key(id, price, qty, ts)),
{
    let key = q.key(id, price, qty, ts);
    let kept = q.index.filter(other_than(id));
    let after = q.reindexed(id, price, qty, ts, order).index;
    lemma_filter_keeps(q.index, other_than(id), q.orders.dom());
    lemma_rank_bounds(kept, key);
    let pos = rank(kept, key);
    assert forall|j: int| 0 <= j < after.len() implies {
        let entry = #[trigger] after[j];
        entry == key || (q.index.contains(entry) && entry.id != id)
    } by {
        if j < pos {
            assert(after[j] == kept[j]);
        } else if j > pos {
            assert(after[j] == kept[j - 1]);
        }
    }
    assert(after[pos] == key);
}

/// The entries that resolve to an order, in the order of the index: each of
/// them is an entry of the index, and each such entry of the index is among
/// them.
pub proof fn lemma_live_entries<T>(q: QueueState<T>)
    ensures
        forall|k: int|
            0 <= k < q.index.filter(live_in(q.orders.dom())).len() ==> {
                let entry = #[trigger] q.index.filter(live_in(q.orders.dom()))[k];
                q.index.contains(entry) && q.orders.contains_key(entry.id)
            },
        forall|i: int|
            0 <= i < q.index.len() && q.orders.contains_key(q.index[i].id) ==> q.index.filter(
                live_in(q.orders.dom()),
            ).contains(#[trigger] q.index[i]),
{
    lemma_filter_keeps(q.index, live_in(q.orders.dom()), q.orders.dom());
}

/// Every entry that a cancel leaves in the index was there before.
pub proof fn lemma_cancelled_entries<T>(q: QueueState<T>, id: u64)
    ensures
        forall|j: int|
            0 <= j < q.cancelled(id).index.len() ==> q.index.contains(
                #[trigger] q.cancelled(id).index[j],
            ),
{
    if q.orders.contains_key(id) && q.compaction_due() {
        lemma_filter_keeps(
            q.index,
            live_in(q.orders.remove(id).dom()),
            q.orders.remove(id).dom(),
        );
    }
}

/// A look at the top of a queue keeps the invariant, and the top order is
/// the same before and after.
pub proof fn lemma_peeked_keeps_wf<T>(q: QueueState<T>)
    requires
        q.wf(),
    ensures
        q.peeked().wf(),
        q.peeked().top() == q.top(),
        q.peeked().settled_index() == q.peeked().index,
    decreases q.index.len(),
{
    if q.index.len() > 0 && !q.orders.dom().contains(q.index.last().id) {
        lemma_drop_stale_keeps_wf(q);
        let rest = QueueState { index: q.index.drop_last(), ..q };
        lemma_peeked_keeps_wf(rest);
        assert(rest.peeked() == q.peeked());
    }
}

/// Taking the top order out of a queue keeps the invariant.
pub proof fn lemma_popped_keeps_wf<T>(q: QueueState<T>)
    requires
        q.wf(),
    ensures
        q.popped().wf(),
{
    lemma_peeked_keeps_wf(q);
    lemma_settled_index(q.index, q.orders.dom());
    if q.settled_index().len() > 0 {
        lemma_pop_keeps_wf(q.peeked());
    }
}

/// Putting another order in the place of the top order keeps the invariant
/// and leaves it at the top.
pub proof fn lemma_modified_keeps_wf<T>(q: QueueState<T>, order: T)
    requires
        q.wf(),
    ensures
        q.modified(order).wf(),
        q.top_is_live() ==> q.modified(order).top() == Some(order),
        q.modified(order).index == q.index,
{
    if q.top_is_live() {
        let after = q.modified(order);
        assert(after.orders.dom() =~= q.orders.dom());
        assert forall|id: u64| after.orders.contains_key(id) implies #[trigger] has_entry(
            after.index,
            id,
        ) by {
            assert(has_entry(q.index, id));
        }
    }
}

/// An order that is stored stays stored when more orders are stored.
proof fn lemma_filled_keeps<T>(orders: Map<u64, T>, entries: Seq<(u64, T)>, id: u64)
    requires
        orders.contains_key(id),
    ensures
        filled(orders, entries).contains_key(id),
    decreases entries.len(),
{
    if entries.len() > 0 {
        lemma_filled_keeps(
            orders.insert(entries.last().0, entries.last().1),
            entries.drop_last(),
            id,
        );
    }
}

/// An index of one side in which no entry outranks the next one rises in
/// priority.
proof fn lemma_adjacent_ascending(index: Seq<OrderIndex>, side: OrderSide)
    requires
        forall|k: int| 0 <= k < index.len() ==> (#[trigger] index[k]).order_side == side,
        forall|k: int| 0 < k < index.len() ==> !index[k - 1].outranks(#[trigger] index[k]),
    ensures
        ascending(index),
{
    assert forall|a: int, b: int| 0 <= a < b < index.len() implies !(#[trigger] index[a]).outranks(
        #[trigger] index[b],
    ) by {
        lemma_adjacent_pair(index, side, a, b);
    }
}

/// In such an index no entry outranks a later one.
proof fn lemma_adjacent_pair(index: Seq<OrderIndex>, side: OrderSide, a: int, b: int)
    requires
        forall|k: int| 0 <= k < index.len() ==> (#[trigger] index[k]).order_side == side,
        forall|k: int| 0 < k < index.len() ==> !index[k - 1].outranks(#[trigger] index[k]),
        0 <= a < b < index.len(),
    ensures
        !index[a].outranks(index[b]),
    decreases b - a,
{
    assert(!index[b - 1].outranks(index[b]));
    if a < b - 1 {
        lemma_adjacent_pair(index, side, a, b - 1);
    }
}

/// The index without the stale entries at its top is a prefix of the index
/// that ends in a live entry and leaves out no live entry.
pub proof fn lemma_settled_index(index: Seq<OrderIndex>, live: Set<u64>)
    ensures
        drop_stale_top(index, live).len() <= index.len(),
        drop_stale_top(index, live) == index.take(drop_stale_top(index, live).len() as int),
        drop_stale_top(index, live).len() > 0 ==> live.contains(
            drop_stale_top(index, live).last().id,
        ),
        forall|j: int|
            drop_stale_top(index, live).len() <= j < index.len() ==> !live.contains(
                (#[trigger] index[j]).id,
            ),
    decreases index.len(),
{
    let settled = drop_stale_top(index, live);
    if index.len() == 0 || live.contains(index.last().id) {
        assert(index.take(index.len() as int) =~= index);
    } else {
        let rest = index.drop_last();
        lemma_settled_index(rest, live);
        assert(rest.take(settled.len() as int) =~= index.take(settled.len() as int));
        assert forall|j: int| settled.len() <= j < index.len() implies !live.contains(
            (#[trigger] index[j]).id,
        ) by {
            if j < rest.len() {
                assert(rest[j] == index[j]);
            }
        }
    }
}

/// Price-time priority: the order at the top of a queue is ranked first.
/// No resting order has a key that outranks the key of the top order, so
/// none has a better price, and none has the same price and an earlier
/// timestamp.
pub proof fn lemma_top_is_first<T>(q: QueueState<T>, i: int)
    requires
        q.wf(),
        0 <= i < q.index.len(),
        q.is_live(q.index[i]),
    ensures
        q.settled_index().len() > 0,
        q.top() == Some(q.orders[q.settled_index().last().id]),
        !q.index[i].outranks(q.settled_index().last()),
{
    lemma_settled_index(q.index, q.orders.dom());
    let settled = q.settled_index();
    assert(i < settled.len());
    assert(settled.last() == q.index[settled.len() - 1]);
    if i < settled.len() - 1 {
        assert(!q.index[i].outranks(q.index[settled.len() - 1]));
    }
}

/// A queue has a top order exactly if it holds an order.
pub proof fn lemma_top_none_iff_empty<T>(q: QueueState<T>)
    requires
        q.wf(),
    ensures
        q.top() is None <==> q.orders.dom() =~= Set::empty(),
{
    lemma_settled_index(q.index, q.orders.dom());
    if q.top() is None {
        assert forall|id: u64| !q.orders.dom().contains(id) by {
            if q.orders.contains_key(id) {
                assert(has_entry(q.index, id));
            }
        }
    }
}

/// Where a key stands once it has joined an index of its side that rises in
/// priority: above every entry that it outranks and below every other one,
/// those that tie with it included.
pub proof fn lemma_rank_splits(index: Seq<OrderIndex>, entry: OrderIndex)
    requires
        ascending(index),
        forall|i: int| 0 <= i < index.len() ==> (#[trigger] index[i]).order_side == entry.order_side,
    ensures
        0 <= rank(index, entry) <= index.len(),
        forall|i: int| 0 <= i < rank(index, entry) ==> entry.outranks(#[trigger] index[i]),
        forall|j: int| rank(index, entry) <= j < index.len() ==> !entry.outranks(#[trigger] index[j]),
{
    lemma_rank_bounds(index, entry);
    let pos = rank(index, entry);
    assert forall|i: int| 0 <= i < pos implies entry.outranks(#[trigger] index[i]) by {
        if i < pos - 1 {
            assert(!index[i].outranks(index[pos - 1]));
        }
    }
}

/// Amend reindex: an amended order stands strictly behind every other entry
/// that its new key does not outrank. At the same price these are the
/// entries whose timestamp is not later than that of the amendment. It
/// stands before every entry that its new key outranks.
pub proof fn lemma_amend_goes_behind<T>(
    q: QueueState<T>,
    id: u64,
    price: u128,
    qty: u128,
    ts: u64,
    order: T,
)
    requires
        q.wf(),
        q.orders.contains_key(id),
    ensures
        ({
            let key = q.key(id, price, qty, ts);
            let after = q.amended(id, price, qty, ts, order);
            let pos = rank(q.index.filter(other_than(id)), key);
            &&& 0 <= pos < after.index.len()
            &&& after.index[pos] == key
            &&& forall|j: int|
                0 <= j < after.index.len() && j != pos ==> (#[trigger] after.index[j]).id != id
            &&& forall|j: int| 0 <= j < pos ==> key.outranks(#[trigger] after.index[j])
            &&& forall|j: int|
                pos < j < after.index.len() ==> !key.outranks(#[trigger] after.index[j])
        }),
{
    let key = q.key(id, price, qty, ts);
    let kept = q.index.filter(other_than(id));
    lemma_filter_keeps(q.index, other_than(id), q.orders.dom());
    assert forall|k: int| 0 <= k < kept.len() implies (#[trigger] kept[k]).order_side
        == key.order_side by {
        assert(q.index.contains(kept[k]));
        let i = choose|i: int| 0 <= i < q.index.len() && q.index[i] == kept[k];
        assert(q.index[i].order_side == q.side);
    }
    lemma_rank_splits(kept, key);
    let pos = rank(kept, key);
    let after = q.amended(id, price, qty, ts, order);
    assert forall|j: int| pos < j < after.index.len() implies !key.outranks(
        #[trigger] after.index[j],
    ) by {
        assert(after.index[j] == kept[j - 1]);
    }
    assert forall|j: int| 0 <= j < after.index.len() && j != pos implies (#[trigger] after.index[j]).id
        != id by {
        if j < pos {
            assert(after.index[j] == kept[j]);
        } else {
            assert(after.index[j] == kept[j - 1]);
        }
    }
}

/// Lazy cancellation is bounded: a queue never holds more stale entries
/// than cancels went by since its index was last compacted, and those are
/// fewer than `max_stalled`.
pub proof fn lemma_stale_entries_bounded<T>(q: QueueState<T>)
    requires
        q.wf(),
    ensures
        q.stale() <= q.op_counter,
        q.stale() == 0 || q.stale() < q.max_stalled,
        q.compact() <==> q.stale() == 0,
{
    lemma_compact_iff_none_stale(q.index, q.orders.dom());
}

/// An index holds no stale entry exactly if its count of stale entries is 0.
proof fn lemma_compact_iff_none_stale(index: Seq<OrderIndex>, live: Set<u64>)
    ensures
        stale_count(index, live) == 0 <==> forall|i: int|
            0 <= i < index.len() ==> live.contains((#[trigger] index[i]).id),
    decreases index.len(),
{
    if index.len() > 0 {
        let rest = index.drop_last();
        lemma_compact_iff_none_stale(rest, live);
        if stale_count(index, live) == 0 {
            assert forall|i: int| 0 <= i < index.len() implies live.contains(
                (#[trigger] index[i]).id,
            ) by {
                if i < rest.len() {
                    assert(rest[i] == index[i]);
                }
            }
        }
        if forall|i: int| 0 <= i < index.len() ==> live.contains((#[trigger] index[i]).id) {
            assert(live.contains(index[index.len() - 1].id));
            assert forall|i: int| 0 <= i < rest.len() implies live.contains((#[trigger] rest[i]).id) by {
                assert(rest[i] == index[i]);
            }
        }
    }
}

/// Dropping a stale entry from the top keeps the invariant.
proof fn lemma_drop_stale_keeps_wf<T>(q: QueueState<T>)
    requires
        q.wf(),
        q.index.len() > 0,
        !q.is_live(q.index.last()),
    ensures
        (QueueState { index: q.index.drop_last(), ..q }).wf(),
{
    let r = QueueState { index: q.index.drop_last(), ..q };
    assert forall|id: u64| r.orders.contains_key(id) implies #[trigger] has_entry(r.index, id) by {
        assert(has_entry(q.index, id));
        let i = choose|i: int| 0 <= i < q.index.len() && (#[trigger] q.index[i]).id == id;
        assert(r.index[i].id == id);
    }
}

/// Removing `id` from the live ids, or adding it, leaves the number of stale
/// entries as it is where no entry carries `id`.
proof fn lemma_stale_count_absent(index: Seq<OrderIndex>, live: Set<u64>, id: u64)
    requires
        !has_entry(index, id),
    ensures
        stale_count(index, live.remove(id)) == stale_count(index, live),
        stale_count(index, live.insert(id)) == stale_count(index, live),
    decreases index.len(),
{
    if index.len() > 0 {
        let rest = index.drop_last();
        assert(index[index.len() - 1].id != id);
        assert(!has_entry(rest, id)) by {
            if has_entry(rest, id) {
                let i = choose|i: int| 0 <= i < rest.len() && (#[trigger] rest[i]).id == id;
                assert(index[i].id == id);
            }
        }
        lemma_stale_count_absent(rest, live, id);
    }
}

/// Removing the id of an entry from the live ids makes one more entry stale
/// where ids are distinct.
proof fn lemma_stale_count_remove(index: Seq<OrderIndex>, live: Set<u64>, id: u64)
    requires
        distinct_ids(index),
        live.contains(id),
        has_entry(index, id),
    ensures
        stale_count(index, live.remove(id)) == stale_count(index, live) + 1,
    decreases index.len(),
{
    let rest = index.drop_last();
    let i = choose|i: int| 0 <= i < index.len() && (#[trigger] index[i]).id == id;
    if index.last().id == id {
        assert(!has_entry(rest, id)) by {
            if has_entry(rest, id) {
                let j = choose|j: int| 0 <= j < rest.len() && (#[trigger] rest[j]).id == id;
                assert(index[j].id == index[index.len() - 1].id);
            }
        }
        lemma_stale_count_absent(rest, live, id);
    } else {
        assert(rest[i].id == id);
        assert(distinct_ids(rest)) by {
            assert forall|a: int, b: int| 0 <= a < b < rest.len() implies (#[trigger] rest[a]).id
                != (#[trigger] rest[b]).id by {
                assert(index[a].id != index[b].id);
            }
        }
        lemma_stale_count_remove(rest, live, id);
    }
}

/// An entry added anywhere counts as stale exactly if its id is not live.
proof fn lemma_stale_count_insert(index: Seq<OrderIndex>, pos: int, entry: OrderIndex, live: Set<u64>)
    requires
        0 <= pos <= index.len(),
    ensures
        stale_count(index.insert(pos, entry), live) == stale_count(index, live) + if live.contains(
            entry.id,
        ) {
            0nat
        } else {
            1nat
        },
    decreases index.len(),
{
    let grown = index.insert(pos, entry);
    if pos == index.len() {
        assert(grown.drop_last() =~= index);
    } else {
        assert(grown.drop_last() =~= index.drop_last().insert(pos, entry));
        assert(grown.last() == index.last());
        lemma_stale_count_insert(index.drop_last(), pos, entry, live);
    }
}

/// What a filter keeps: entries of the index that meet the predicate, all of
/// them, in their order.
proof fn lemma_filter_keeps(index: Seq<OrderIndex>, pred: spec_fn(OrderIndex) -> bool, live: Set<u64>)
    ensures
        forall|k: int|
            0 <= k < index.filter(pred).len() ==> pred(#[trigger] index.filter(pred)[k])
                && index.contains(index.filter(pred)[k]),
        forall|i: int|
            0 <= i < index.len() && pred(index[i]) ==> index.filter(pred).contains(
                #[trigger] index[i],
            ),
        ascending(index) ==> ascending(index.filter(pred)),
        distinct_ids(index) ==> distinct_ids(index.filter(pred)),
        stale_count(index.filter(pred), live) <= stale_count(index, live),
    decreases index.len(),
{
    reveal(Seq::filter);
    let kept = index.filter(pred);
    if index.len() > 0 {
        let rest = index.drop_last();
        let below = rest.filter(pred);
        let top = index.last();
        lemma_filter_keeps(rest, pred, live);
        assert forall|k: int| 0 <= k < below.len() implies index.contains(#[trigger] below[k])
            && rest.contains(below[k]) by {
            assert(rest.contains(below[k]));
            let i = choose|i: int| 0 <= i < rest.len() && rest[i] == below[k];
            assert(index[i] == below[k]);
        }
        assert forall|k: int| 0 <= k < kept.len() implies pred(#[trigger] kept[k])
            && index.contains(kept[k]) by {
            if k < below.len() {
                assert(kept[k] == below[k]);
            } else {
                assert(kept[k] == index[index.len() - 1]);
            }
        }
        assert forall|i: int| 0 <= i < index.len() && pred(index[i]) implies kept.contains(
            #[trigger] index[i],
        ) by {
            if i < rest.len() {
                assert(below.contains(rest[i]));
                let k = choose|k: int| 0 <= k < below.len() && below[k] == rest[i];
                assert(kept[k] == index[i]);
            } else {
                assert(kept[kept.len() - 1] == index[i]);
            }
        }
        if ascending(index) {
            assert(ascending(rest)) by {
                assert forall|a: int, b: int| 0 <= a < b < rest.len() implies !(#[trigger] rest[a]).outranks(
                    #[trigger] rest[b],
                ) by {
                    assert(!index[a].outranks(index[b]));
                }
            }
            assert forall|a: int, b: int| 0 <= a < b < kept.len() implies !(#[trigger] kept[a]).outranks(
                #[trigger] kept[b],
            ) by {
                if b < below.len() {
                    assert(!below[a].outranks(below[b]));
                } else {
                    assert(rest.contains(below[a]));
                    let i = choose|i: int| 0 <= i < rest.len() && rest[i] == below[a];
                    assert(!index[i].outranks(index[index.len() - 1]));
                }
            }
        }
        if distinct_ids(index) {
            assert(distinct_ids(rest)) by {
                assert forall|a: int, b: int| 0 <= a < b < rest.len() implies (#[trigger] rest[a]).id
                    != (#[trigger] rest[b]).id by {
                    assert(index[a].id != index[b].id);
                }
            }
            assert forall|a: int, b: int| 0 <= a < b < kept.len() implies (#[trigger] kept[a]).id
                != (#[trigger] kept[b]).id by {
                if b < below.len() {
                    assert(below[a].id != below[b].id);
                } else {
                    assert(rest.contains(below[a]));
                    let i = choose|i: int| 0 <= i < rest.len() && rest[i] == below[a];
                    assert(index[i].id != index[index.len() - 1].id);
                }
            }
        }
        if pred(top) {
            assert(kept.drop_last() =~= below);
        }
    }
}

/// Where an entry stands once it has joined an index.
pub proof fn lemma_rank_bounds(index: Seq<OrderIndex>, entry: OrderIndex)
    ensures
        0 <= rank(index, entry) <= index.len(),
        rank(index, entry) > 0 ==> entry.outranks(index[rank(index, entry) - 1]),
        forall|j: int| rank(index, entry) <= j < index.len() ==> !entry.outranks(#[trigger] index[j]),
    decreases index.len(),
{
    if index.len() > 0 && !entry.outranks(index.last()) {
        lemma_rank_bounds(index.drop_last(), entry);
        assert forall|j: int| rank(index, entry) <= j < index.len() implies !entry.outranks(
            #[trigger] index[j],
        ) by {
            if j < index.len() - 1 {
                assert(index.drop_last()[j] == index[j]);
            }
        }
    }
}

/// An index that rises in priority still does after an entry of its side
/// has joined it.
proof fn lemma_enqueue_ascending(index: Seq<OrderIndex>, entry: OrderIndex)
    requires
        ascending(index),
        forall|i: int| 0 <= i < index.len() ==> (#[trigger] index[i]).order_side == entry.order_side,
    ensures
        ascending(enqueue(index, entry)),
{
    lemma_rank_bounds(index, entry);
    let pos = rank(index, entry);
    let grown = enqueue(index, entry);
    assert forall|a: int, b: int| 0 <= a < b < grown.len() implies !(#[trigger] grown[a]).outranks(
        #[trigger] grown[b],
    ) by {
        if b < pos {
            assert(!index[a].outranks(index[b]));
        } else if b == pos {
            assert(grown[a] == index[a]);
            if a < pos - 1 {
                assert(!index[a].outranks(index[pos - 1]));
            }
        } else if a == pos {
            assert(grown[b] == index[b - 1]);
        } else if a < pos {
            assert(!index[a].outranks(index[b - 1]));
        } else {
            assert(!index[a - 1].outranks(index[b - 1]));
        }
    }
}

/// Storing an order under an id and ranking it anew keeps the invariant.
pub proof fn lemma_reindex_keeps_wf<T>(
    q: QueueState<T>,
    id: u64,
    price: u128,
    qty: u128,
    ts: u64,
    order: T,
)
    requires
        q.wf(),
    ensures
        q.reindexed(id, price, qty, ts, order).wf(),
{
    let entry = q.key(id, price, qty, ts);
    let kept = q.index.filter(other_than(id));
    let pos = rank(kept, entry);
    let r = q.reindexed(id, price, qty, ts, order);
    let live = q.orders.dom();
    lemma_filter_keeps(q.index, other_than(id), live);
    lemma_rank_bounds(kept, entry);
    assert forall|k: int| 0 <= k < kept.len() implies (#[trigger] kept[k]).order_side == q.side
        && kept[k].id != id by {
        assert(q.index.contains(kept[k]));
        let i = choose|i: int| 0 <= i < q.index.len() && q.index[i] == kept[k];
        assert(q.index[i].order_side == q.side);
    }
    lemma_enqueue_ascending(kept, entry);
    assert(distinct_ids(r.index)) by {
        assert forall|a: int, b: int| 0 <= a < b < r.index.len() implies (#[trigger] r.index[a]).id
            != (#[trigger] r.index[b]).id by {
            if b < pos {
                assert(kept[a].id != kept[b].id);
            } else if b == pos {
                assert(r.index[a] == kept[a]);
            } else if a == pos {
                assert(r.index[b] == kept[b - 1]);
            } else if a < pos {
                assert(kept[a].id != kept[b - 1].id);
            } else {
                assert(kept[a - 1].id != kept[b - 1].id);
            }
        }
    }
    assert forall|other: u64| r.orders.contains_key(other) implies #[trigger] has_entry(
        r.index,
        other,
    ) by {
        if other == id {
            assert(r.index[pos].id == id);
        } else {
            assert(has_entry(q.index, other));
            let i = choose|i: int| 0 <= i < q.index.len() && (#[trigger] q.index[i]).id == other;
            assert(kept.contains(q.index[i]));
            let k = choose|k: int| 0 <= k < kept.len() && kept[k] == q.index[i];
            if k < pos {
                assert(r.index[k].id == other);
            } else {
                assert(r.index[k + 1].id == other);
            }
        }
    }
    assert(r.stale() <= q.stale()) by {
        assert(!has_entry(kept, id));
        lemma_stale_count_absent(kept, live, id);
        lemma_stale_count_insert(kept, pos, entry, live.insert(id));
        assert(r.orders.dom() =~= live.insert(id));
    }
}

/// Taking out a live top entry together with its order keeps the invariant.
proof fn lemma_pop_keeps_wf<T>(q: QueueState<T>)
    requires
        q.wf(),
        q.index.len() > 0,
        q.is_live(q.index.last()),
    ensures
        (QueueState {
            index: q.index.drop_last(),
            orders: q.orders.remove(q.index.last().id),
            ..q
        }).wf(),
{
    let top = q.index.last();
    let r = QueueState { index: q.index.drop_last(), orders: q.orders.remove(top.id), ..q };
    assert forall|id: u64| r.orders.contains_key(id) implies #[trigger] has_entry(r.index, id) by {
        assert(has_entry(q.index, id));
        let i = choose|i: int| 0 <= i < q.index.len() && (#[trigger] q.index[i]).id == id;
        assert(r.index[i].id == id);
    }
    assert(!has_entry(r.index, top.id)) by {
        if has_entry(r.index, top.id) {
            let j = choose|j: int| 0 <= j < r.index.len() && (#[trigger] r.index[j]).id == top.id;
            assert(q.index[j].id == q.index[q.index.len() - 1].id);
        }
    }
    lemma_stale_count_absent(r.index, q.orders.dom(), top.id);
    assert(r.orders.dom() =~= q.orders.dom().remove(top.id));
}

/// An index that was filtered down to its live entries holds no stale one.
proof fn lemma_live_only_is_compact(index: Seq<OrderIndex>, live: Set<u64>)
    ensures
        stale_count(index.filter(live_in(live)), live) == 0,
        forall|k: int|
            0 <= k < index.filter(live_in(live)).len() ==> live.contains(
                (#[trigger] index.filter(live_in(live))[k]).id,
            ),
    decreases index.len(),
{
    reveal(Seq::filter);
    if index.len() > 0 {
        let below = index.drop_last().filter(live_in(live));
        lemma_live_only_is_compact(index.drop_last(), live);
        if live.contains(index.last().id) {
            assert(index.filter(live_in(live)).drop_last() =~= below);
        }
    }
}

/// A cancel keeps the invariant.
pub proof fn lemma_cancel_keeps_wf<T>(q: QueueState<T>, id: u64)
    requires
        q.wf(),
    ensures
        q.cancelled(id).wf(),
        q.orders.contains_key(id) && q.compaction_due() ==> q.cancelled(id).compact(),
{
    if q.orders.contains_key(id) {
        let r = q.cancelled(id);
        let live = q.orders.remove(id).dom();
        assert(live =~= q.orders.dom().remove(id));
        if q.compaction_due() {
            let kept = q.index.filter(live_in(live));
            lemma_filter_keeps(q.index, live_in(live), live);
            lemma_live_only_is_compact(q.index, live);
            assert forall|k: int| 0 <= k < kept.len() implies (#[trigger] kept[k]).order_side
                == q.side by {
                assert(q.index.contains(kept[k]));
                let i = choose|i: int| 0 <= i < q.index.len() && q.index[i] == kept[k];
                assert(q.index[i].order_side == q.side);
            }
            assert forall|other: u64| r.orders.contains_key(other) implies #[trigger] has_entry(
                r.index,
                other,
            ) by {
                assert(has_entry(q.index, other));
                let i = choose|i: int| 0 <= i < q.index.len() && (#[trigger] q.index[i]).id == other;
                assert(kept.contains(q.index[i]));
                let k = choose|k: int| 0 <= k < kept.len() && kept[k] == q.index[i];
                assert(kept[k].id == other);
            }
        } else {
            assert(has_entry(q.index, id));
            lemma_stale_count_remove(q.index, q.orders.dom(), id);
            assert forall|other: u64| r.orders.contains_key(other) implies #[trigger] has_entry(
                r.index,
                other,
            ) by {
                assert(has_entry(q.index, other));
            }
        }
    }
}

} // verus!
