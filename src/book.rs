use vstd::prelude::*;

verus! {

/// Number of fractional units in one whole unit of price (five decimal digits).
pub const PRICE_SCALAR: u64 = 100000;

/// An exact fixed-point price: `integral + fractional / scalar`.
///
/// Two prices are equal exactly when all three components are equal, so a
/// price can serve as a lookup key without floating-point comparison hazards.
#[derive(Debug, Clone, Copy, PartialEq, Eq, Hash, Structural)]
pub struct Price {
    integral: u64,
    fractional: u64,
    scalar: u64,
}

impl Price {
    pub closed spec fn spec_integral(self) -> u64 {
        self.integral
    }

    pub closed spec fn spec_fractional(self) -> u64 {
        self.fractional
    }

    pub closed spec fn spec_scalar(self) -> u64 {
        self.scalar
    }

    /// A price from its whole part and its fractional part, the latter counted
    /// in units of `1 / PRICE_SCALAR`.
    pub fn new(integral: u64, fractional: u64) -> (p: Price)
        ensures
            p.spec_integral() == integral,
            p.spec_fractional() == fractional,
            p.spec_scalar() == PRICE_SCALAR,
    {
        Price { integral, fractional, scalar: PRICE_SCALAR }
    }

    pub fn integral(&self) -> (r: u64)
        ensures
            r == self.spec_integral(),
    {
        self.integral
    }

    pub fn fractional(&self) -> (r: u64)
        ensures
            r == self.spec_fractional(),
    {
        self.fractional
    }

    pub fn scalar(&self) -> (r: u64)
        ensures
            r == self.spec_scalar(),
    {
        self.scalar
    }
}


/// Which side of the book an order rests on: buy interest or sell interest.
#[derive(Debug, Clone, Copy, PartialEq, Eq, Structural)]
pub enum BidorAsk {
    Bid,
    Ask,
}

/// One unit of trading interest: a side and a size, counted in whole lots.
#[derive(Debug, Clone, Copy, PartialEq, Eq, Structural)]
pub struct Order {
    size: u64,
    bid_or_ask: BidorAsk,
}

impl Order {
    pub closed spec fn spec_side(self) -> BidorAsk {
        self.bid_or_ask
    }

    pub closed spec fn spec_size(self) -> u64 {
        self.size
    }

    pub fn new(bid_or_ask: BidorAsk, size: u64) -> (o: Order)
        ensures
            o.spec_side() == bid_or_ask,
            o.spec_size() == size,
    {
        Order { bid_or_ask, size }
    }

    pub fn side(&self) -> (r: BidorAsk)
        ensures
            r == self.spec_side(),
    {
        self.bid_or_ask
    }

    pub fn size(&self) -> (r: u64)
        ensures
            r == self.spec_size(),
    {
        self.size
    }
}

/// All orders resting at one price on one side, earliest arrival first.
#[derive(Debug)]
pub struct Limit {
    price: Price,
    order: Vec<Order>,
}

impl Limit {
    pub closed spec fn spec_price(self) -> Price {
        self.price
    }

    pub closed spec fn spec_orders(self) -> Seq<Order> {
        self.order@
    }

    /// An empty level at `price`.
    pub fn new(price: Price) -> (l: Limit)
        ensures
            l.spec_price() == price,
            l.spec_orders() == Seq::<Order>::empty(),
    {
        Limit { price, order: Vec::new() }
    }

    /// Appends `order` behind every order already at this level.
    pub fn add_order(&mut self, order: Order)
        ensures
            final(self).spec_price() == old(self).spec_price(),
            final(self).spec_orders() == old(self).spec_orders().push(order),
    {
        self.order.push(order);
    }

    pub fn price(&self) -> (r: Price)
        ensures
            r == self.spec_price(),
    {
        self.price
    }

    /// The orders at this level in arrival order.
    pub fn orders(&self) -> (r: &[Order])
        ensures
            r@ == self.spec_orders(),
    {
        self.order.as_slice()
    }
}


/// The price levels of one side, as a map from price to the orders resting there.
pub open spec fn levels_of(limits: Seq<Limit>) -> Map<Price, Seq<Order>> {
    Map::new(
        |p: Price| exists|i: int| 0 <= i < limits.len() && limits[i].spec_price() == p,
        |p: Price|
            limits[choose|i: int| 0 <= i < limits.len() && limits[i].spec_price() == p].spec_orders(),
    )
}

/// No two levels of one side share a price.
pub open spec fn distinct_prices(limits: Seq<Limit>) -> bool {
    forall|i: int, j: int|
        0 <= i < limits.len() && 0 <= j < limits.len() && i != j ==> limits[i].spec_price()
            != limits[j].spec_price()
}

/// Every order at every level was submitted on `side`.
pub open spec fn all_on_side(limits: Seq<Limit>, side: BidorAsk) -> bool {
    forall|i: int, k: int|
        0 <= i < limits.len() && 0 <= k < limits[i].spec_orders().len() ==> (
        #[trigger] limits[i].spec_orders()[k]).spec_side() == side
}

/// The orders resting at `p`, or none where no level exists there.
pub open spec fn orders_at(levels: Map<Price, Seq<Order>>, p: Price) -> Seq<Order> {
    if levels.contains_key(p) {
        levels[p]
    } else {
        Seq::empty()
    }
}

/// The levels after `o` arrives at `p`: appended to the level there, which is
/// created if it did not exist; every other level is left as it was.
pub open spec fn with_order(levels: Map<Price, Seq<Order>>, p: Price, o: Order) -> Map<
    Price,
    Seq<Order>,
> {
    levels.insert(p, orders_at(levels, p).push(o))
}

proof fn lemma_level_at(limits: Seq<Limit>, i: int)
    requires
        distinct_prices(limits),
        0 <= i < limits.len(),
    ensures
        levels_of(limits).contains_key(limits[i].spec_price()),
        levels_of(limits)[limits[i].spec_price()] == limits[i].spec_orders(),
{
    let p = limits[i].spec_price();
    assert(exists|j: int| 0 <= j < limits.len() && limits[j].spec_price() == p);
    let j = choose|j: int| 0 <= j < limits.len() && limits[j].spec_price() == p;
    assert(i == j);
}

/// Index of the level at `price`, if there is one.
fn find_limit(limits: &Vec<Limit>, price: Price) -> (r: Option<usize>)
    ensures
        match r {
            Some(i) => i < limits.len() && limits@[i as int].spec_price() == price,
            None => forall|i: int| 0 <= i < limits.len() ==> limits@[i].spec_price() != price,
        },
{
    let mut i: usize = 0;
    while i < limits.len()
        invariant
            i <= limits.len(),
            forall|j: int| 0 <= j < i ==> limits@[j].spec_price() != price,
        decreases limits.len() - i,
    {
        if limits[i].price == price {
            return Some(i);
        }
        i = i + 1;
    }
    None
}

/// Routes `order` to the level at `price` within one side, creating the level
/// on first use.
fn insert_into(limits: &mut Vec<Limit>, price: Price, order: Order)
    requires
        distinct_prices(old(limits)@),
        all_on_side(old(limits)@, order.spec_side()),
    ensures
        distinct_prices(final(limits)@),
        all_on_side(final(limits)@, order.spec_side()),
        levels_of(final(limits)@) == with_order(levels_of(old(limits)@), price, order),
        final(limits)@.len() == old(limits)@.len() + if levels_of(old(limits)@).contains_key(
            price,
        ) {
            0int
        } else {
            1int
        },
{
    let ghost before = limits@;
    match find_limit(limits, price) {
        Some(i) => {
            limits[i].add_order(order);
            proof {
                let after = limits@;
                lemma_level_at(before, i as int);
                assert(after == before.update(i as int, after[i as int]));
                assert(distinct_prices(after));
                assert forall|a: int, k: int|
                    0 <= a < after.len() && 0 <= k < after[a].spec_orders().len() implies (
                    #[trigger] after[a].spec_orders()[k]).spec_side() == order.spec_side() by {
                    if a != i as int {
                        assert(after[a] == before[a]);
                    } else if k < before[a].spec_orders().len() {
                        assert(after[a].spec_orders()[k] == before[a].spec_orders()[k]);
                    }
                }
                assert forall|p: Price| #[trigger]
                    levels_of(after).contains_key(p) == with_order(
                        levels_of(before),
                        price,
                        order,
                    ).contains_key(p) by {
                    if levels_of(after).contains_key(p) {
                        let j = choose|j: int| 0 <= j < after.len() && after[j].spec_price() == p;
                        lemma_level_at(before, j);
                    }
                    if levels_of(before).contains_key(p) {
                        let j = choose|j: int| 0 <= j < before.len() && before[j].spec_price() == p;
                        lemma_level_at(after, j);
                    }
                    lemma_level_at(after, i as int);
                }
                assert forall|p: Price| #[trigger] levels_of(after).contains_key(p) implies levels_of(
                    after,
                )[p] == with_order(levels_of(before), price, order)[p] by {
                    let j = choose|j: int| 0 <= j < after.len() && after[j].spec_price() == p;
                    lemma_level_at(after, j);
                    lemma_level_at(before, j);
                }
                assert(levels_of(after) =~= with_order(levels_of(before), price, order));
            }
        },
        None => {
            let mut limit = Limit::new(price);
            limit.add_order(order);
            limits.push(limit);
            proof {
                let after = limits@;
                let n = before.len() as int;
                assert(after == before.push(after[n]));
                assert(!levels_of(before).contains_key(price));
                assert(distinct_prices(after));
                assert forall|a: int, k: int|
                    0 <= a < after.len() && 0 <= k < after[a].spec_orders().len() implies (
                    #[trigger] after[a].spec_orders()[k]).spec_side() == order.spec_side() by {
                    if a < n {
                        assert(after[a] == before[a]);
                    }
                }
                assert forall|p: Price| #[trigger]
                    levels_of(after).contains_key(p) == with_order(
                        levels_of(before),
                        price,
                        order,
                    ).contains_key(p) by {
                    if levels_of(after).contains_key(p) {
                        let j = choose|j: int| 0 <= j < after.len() && after[j].spec_price() == p;
                        if j < n {
                            lemma_level_at(before, j);
                        }
                    }
                    if levels_of(before).contains_key(p) {
                        let j = choose|j: int| 0 <= j < before.len() && before[j].spec_price() == p;
                        lemma_level_at(after, j);
                    }
                    lemma_level_at(after, n);
                }
                assert forall|p: Price| #[trigger] levels_of(after).contains_key(p) implies levels_of(
                    after,
                )[p] == with_order(levels_of(before), price, order)[p] by {
                    let j = choose|j: int| 0 <= j < after.len() && after[j].spec_price() == p;
                    lemma_level_at(after, j);
                    if j < n {
                        lemma_level_at(before, j);
                    }
                }
                assert(levels_of(after) =~= with_order(levels_of(before), price, order));
            }
        },
    }
}


/// The full two-sided book: the levels holding buy interest and, independently,
/// those holding sell interest.
#[derive(Debug)]
pub struct OrderBook {
    asks: Vec<Limit>,
    bids: Vec<Limit>,
}

impl OrderBook {
    /// The levels of `side`, in the order in which they were created.
    pub closed spec fn spec_limits(self, side: BidorAsk) -> Seq<Limit> {
        match side {
            BidorAsk::Bid => self.bids@,
            BidorAsk::Ask => self.asks@,
        }
    }

    /// The levels of `side`, by price.
    pub open spec fn levels(self, side: BidorAsk) -> Map<Price, Seq<Order>> {
        levels_of(self.spec_limits(side))
    }

    /// Each side holds at most one level per price, and only orders of that side.
    pub open spec fn wf(self) -> bool {
        forall|side: BidorAsk|
            distinct_prices(#[trigger] self.spec_limits(side)) && all_on_side(
                self.spec_limits(side),
                side,
            )
    }

    /// `next` is this book after `order` arrives at `price`: the order is
    /// appended to the level of its own side at that price (a new level where
    /// there was none), and the other side is untouched.
    pub open spec fn spec_add_order(self, next: OrderBook, price: Price, order: Order) -> bool {
        let side = order.spec_side();
        &&& next.wf()
        &&& next.levels(side) == with_order(self.levels(side), price, order)
        &&& next.spec_limits(side).len() == self.spec_limits(side).len() + if self.levels(
            side,
        ).contains_key(price) {
            0int
        } else {
            1int
        }
        &&& forall|other: BidorAsk| other != side ==> #[trigger] next.spec_limits(other)
            == self.spec_limits(other)
    }

    /// An empty book.
    pub fn new() -> (b: OrderBook)
        ensures
            b.wf(),
            forall|side: BidorAsk| #[trigger] b.spec_limits(side).len() == 0,
            forall|side: BidorAsk| #[trigger] b.levels(side) == Map::<Price, Seq<Order>>::empty(),
    {
        let b = OrderBook { asks: Vec::new(), bids: Vec::new() };
        proof {
            assert forall|side: BidorAsk| #[trigger]
                b.levels(side) == Map::<Price, Seq<Order>>::empty() by {
                assert(b.levels(side) =~= Map::<Price, Seq<Order>>::empty());
            }
        }
        b
    }

    /// Rests `order` at `price` on the order's own side.
    pub fn add_order(&mut self, price: Price, order: Order)
        requires
            old(self).wf(),
        ensures
            old(self).spec_add_order(*final(self), price, order),
    {
        let ghost before = *self;
        proof {
            assert(distinct_prices(before.spec_limits(BidorAsk::Bid)));
            assert(distinct_prices(before.spec_limits(BidorAsk::Ask)));
        }
        match order.bid_or_ask {
            BidorAsk::Bid => insert_into(&mut self.bids, price, order),
            BidorAsk::Ask => insert_into(&mut self.asks, price, order),
        }
        proof {
            assert forall|side: BidorAsk|
                distinct_prices(#[trigger] self.spec_limits(side)) && all_on_side(
                    self.spec_limits(side),
                    side,
                ) by {
                assert(distinct_prices(before.spec_limits(side)));
            }
        }
    }

    /// The level at `price` on `side`, if one exists.
    pub fn limit(&self, side: BidorAsk, price: Price) -> (r: Option<&Limit>)
        requires
            self.wf(),
        ensures
            match r {
                Some(l) => self.levels(side).contains_key(price) && l.spec_price() == price
                    && l.spec_orders() == self.levels(side)[price],
                None => !self.levels(side).contains_key(price),
            },
    {
        let limits = match side {
            BidorAsk::Bid => &self.bids,
            BidorAsk::Ask => &self.asks,
        };
        match find_limit(limits, price) {
            Some(i) => {
                proof {
                    lemma_level_at(self.spec_limits(side), i as int);
                }
                Some(&limits[i])
            },
            None => None,
        }
    }

    /// Number of levels on `side`.
    pub fn limit_count(&self, side: BidorAsk) -> (r: usize)
        ensures
            r == self.spec_limits(side).len(),
    {
        match side {
            BidorAsk::Bid => self.bids.len(),
            BidorAsk::Ask => self.asks.len(),
        }
    }
}


/// Two prices are equal exactly when their whole parts, fractional parts and
/// scalars are equal.
pub proof fn lemma_price_equality(a: Price, b: Price)
    ensures
        a == b <==> (a.spec_integral() == b.spec_integral() && a.spec_fractional()
            == b.spec_fractional() && a.spec_scalar() == b.spec_scalar()),
{
}

/// Two orders submitted on one side at one price share a single level: after
/// both arrive there is exactly one level at that price, and it holds what
/// rested there before followed by the two orders in submission order.
pub proof fn lemma_same_price_shares_level(
    b0: OrderBook,
    b1: OrderBook,
    b2: OrderBook,
    price: Price,
    first: Order,
    second: Order,
)
    requires
        first.spec_side() == second.spec_side(),
        b0.spec_add_order(b1, price, first),
        b1.spec_add_order(b2, price, second),
    ensures
        b2.levels(first.spec_side()).contains_key(price),
        b2.levels(first.spec_side())[price] == orders_at(b0.levels(first.spec_side()), price).push(
            first,
        ).push(second),
        b2.spec_limits(first.spec_side()).len() == b1.spec_limits(first.spec_side()).len(),
        exists|i: int|
            0 <= i < b2.spec_limits(first.spec_side()).len() && #[trigger] b2.spec_limits(
                first.spec_side(),
            )[i].spec_price() == price,
        forall|i: int, j: int|
            0 <= i < b2.spec_limits(first.spec_side()).len() && 0 <= j < b2.spec_limits(
                first.spec_side(),
            ).len() && #[trigger] b2.spec_limits(first.spec_side())[i].spec_price() == price
                && #[trigger] b2.spec_limits(first.spec_side())[j].spec_price() == price ==> i == j,
{
    let side = first.spec_side();
    assert(b1.levels(side).contains_key(price));
    assert(distinct_prices(b2.spec_limits(side)));
    let limits = b2.spec_limits(side);
    assert(levels_of(limits).contains_key(price));
    let i = choose|i: int| 0 <= i < limits.len() && limits[i].spec_price() == price;
    assert(limits[i].spec_price() == price);
}

/// Orders submitted one after another on one side at one price rest there in
/// exactly the order in which they were submitted, behind whatever rested
/// there before.
pub proof fn lemma_arrival_order_kept(
    books: Seq<OrderBook>,
    price: Price,
    orders: Seq<Order>,
    side: BidorAsk,
)
    requires
        books.len() == orders.len() + 1,
        forall|k: int| 0 <= k < orders.len() ==> #[trigger] orders[k].spec_side() == side,
        forall|k: int|
            0 <= k < orders.len() ==> #[trigger] books[k].spec_add_order(
                books[k + 1],
                price,
                orders[k],
            ),
    ensures
        orders_at(books.last().levels(side), price) == orders_at(books[0].levels(side), price)
            + orders,
    decreases orders.len(),
{
    let n = orders.len() as int;
    if n == 0 {
        assert(orders_at(books[0].levels(side), price) + orders =~= orders_at(
            books[0].levels(side),
            price,
        ));
    } else {
        let front = books.drop_last();
        let earlier = orders.drop_last();
        assert forall|k: int| 0 <= k < earlier.len() implies #[trigger] earlier[k].spec_side()
            == side by {
            assert(earlier[k] == orders[k]);
        }
        assert forall|k: int| 0 <= k < earlier.len() implies #[trigger] front[k].spec_add_order(
            front[k + 1],
            price,
            earlier[k],
        ) by {
            assert(books[k].spec_add_order(books[k + 1], price, orders[k]));
        }
        lemma_arrival_order_kept(front, price, earlier, side);
        assert(orders[n - 1].spec_side() == side);
        assert(books[n - 1].spec_add_order(books[n], price, orders[n - 1]));
        assert(orders_at(books[0].levels(side), price) + orders =~= (orders_at(
            books[0].levels(side),
            price,
        ) + earlier).push(orders[n - 1]));
    }
}

/// A bid and an ask at the same price are both accepted and rest at two
/// separate levels, one on each side: the book does not prevent a crossed state.
pub proof fn lemma_crossed_book_representable(
    b0: OrderBook,
    b1: OrderBook,
    b2: OrderBook,
    price: Price,
    bid: Order,
    ask: Order,
)
    requires
        bid.spec_side() == BidorAsk::Bid,
        ask.spec_side() == BidorAsk::Ask,
        b0.spec_add_order(b1, price, bid),
        b1.spec_add_order(b2, price, ask),
    ensures
        b1.wf(),
        b2.levels(BidorAsk::Bid).contains_key(price),
        b2.levels(BidorAsk::Ask).contains_key(price),
        b2.levels(BidorAsk::Bid)[price] == orders_at(b0.levels(BidorAsk::Bid), price).push(bid),
        b2.levels(BidorAsk::Ask)[price] == orders_at(b0.levels(BidorAsk::Ask), price).push(ask),
{
    assert(b2.spec_limits(BidorAsk::Bid) == b1.spec_limits(BidorAsk::Bid));
}

} // verus!
