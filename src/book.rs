use vstd::prelude::*;

verus! {

/// Fixed-point scale of prices and sizes: one unit is 10^-8.
pub const UNIT_SCALE: u64 = 100_000_000;

/// Default price step between two adjacent levels: one cent.
pub const DEFAULT_TICK: u64 = 1_000_000;

/// Default number of price levels in a book.
pub const MAX_SIZE: usize = 1_000_000;

/// The reserved id of synthetic entries; never issued for a real order.
pub const NIL_ID: u128 = 0;

/// Which side of the market an order rests on.
#[derive(Clone, Copy, Debug, PartialEq, Eq, Structural)]
pub enum Side {
    Buy,
    Sell,
}

/// Failures of the book's mutation operations.
#[derive(Clone, Copy, Debug, PartialEq, Eq, Structural)]
pub enum Error {
    /// The price quantizes to a level outside the grid.
    Range,
    /// The head of the queue at the price is not the order being matched.
    MatchMismatch,
    /// The insertion would leave the best bid at or above the best ask.
    CrossedBook,
}

/// A resting order: its remaining size and its identifier.
#[derive(Clone, Copy, Debug, PartialEq, Eq, Structural)]
pub struct Order {
    pub size: u64,
    pub id: u128,
}

/// An order as it arrives from the feed: price and size in fixed-point units.
#[derive(Clone, Copy, Debug, PartialEq, Eq, Structural)]
pub struct BookRecord {
    pub price: u64,
    pub size: u64,
    pub id: u128,
}

/// Sum of the sizes of the orders in a queue.
pub open spec fn level_total(q: Seq<Order>) -> int
    decreases q.len(),
{
    if q.len() == 0 {
        0
    } else {
        level_total(q.drop_last()) + q.last().size
    }
}

/// The ids of a queue, in queue order.
pub open spec fn ids(q: Seq<Order>) -> Seq<u128> {
    q.map_values(|o: Order| o.id)
}

/// The orders that a cancel of `id` keeps.
pub open spec fn keeps(id: u128) -> spec_fn(Order) -> bool {
    |o: Order| o.id != id
}

/// An order with its size set to `new_size` when its id is `id`.
pub open spec fn resized(id: u128, new_size: u64) -> spec_fn(Order) -> Order {
    |o: Order| if o.id == id { Order { size: new_size, id: o.id } } else { o }
}

/// Highest index below `i` whose queue is not empty.
pub open spec fn top_below(levels: Seq<Seq<Order>>, i: int) -> Option<int>
    decreases i,
{
    if i <= 0 {
        None
    } else if levels[i - 1].len() > 0 {
        Some(i - 1)
    } else {
        top_below(levels, i - 1)
    }
}

/// Lowest index above `i` whose queue is not empty.
pub open spec fn bottom_above(levels: Seq<Seq<Order>>, i: int) -> Option<int>
    decreases levels.len() - i,
{
    if i + 1 >= levels.len() {
        None
    } else if levels[i + 1].len() > 0 {
        Some(i + 1)
    } else {
        bottom_above(levels, i + 1)
    }
}

/// The bid cursor after a buy order at level `i`.
pub open spec fn raised(p: Option<int>, i: int) -> Option<int> {
    match p {
        Some(b) => if i > b { Some(i) } else { p },
        None => Some(i),
    }
}

/// The ask cursor after a sell order at level `i`.
pub open spec fn lowered(p: Option<int>, i: int) -> Option<int> {
    match p {
        Some(a) => if i < a { Some(i) } else { p },
        None => Some(i),
    }
}

/// Highest level that a sequence of records quantizes to.
pub open spec fn highest_level(recs: Seq<BookRecord>, tick: nat) -> Option<int>
    decreases recs.len(),
{
    if recs.len() == 0 {
        None
    } else {
        raised(highest_level(recs.drop_last(), tick), recs.last().price as int / tick as int)
    }
}

/// Lowest level that a sequence of records quantizes to.
pub open spec fn lowest_level(recs: Seq<BookRecord>, tick: nat) -> Option<int>
    decreases recs.len(),
{
    if recs.len() == 0 {
        None
    } else {
        lowered(lowest_level(recs.drop_last(), tick), recs.last().price as int / tick as int)
    }
}

/// The abstract state of a book: one FIFO queue per level and the two touch cursors.
pub struct BookState {
    pub levels: Seq<Seq<Order>>,
    pub bid: Option<int>,
    pub ask: Option<int>,
    pub tick: nat,
}

impl BookState {
    /// A book of `n` empty levels, `tick` price units apart.
    pub open spec fn empty(n: nat, tick: nat) -> BookState {
        BookState { levels: Seq::new(n, |i: int| Seq::<Order>::empty()), bid: None, ask: None, tick }
    }

    /// The level a price falls on: the price divided by the tick, rounded down.
    pub open spec fn quantize(self, price: u64) -> int {
        price as int / self.tick as int
    }

    pub open spec fn in_range(self, i: int) -> bool {
        0 <= i < self.levels.len()
    }

    /// Whether a cursor names an occupied level of the grid.
    pub open spec fn names_occupied(self, p: Option<int>) -> bool {
        match p {
            Some(i) => self.in_range(i) && self.levels[i].len() > 0,
            None => true,
        }
    }

    /// The best bid lies strictly below the best ask.
    pub open spec fn uncrossed(self) -> bool {
        match (self.bid, self.ask) {
            (Some(b), Some(a)) => b < a,
            _ => true,
        }
    }

    /// Level `j` lies on a side of the book: at or below the bid, or at or above the ask.
    pub open spec fn on_a_side(self, j: int) -> bool {
        ||| (match self.bid {
            Some(b) => j <= b,
            None => false,
        })
        ||| (match self.ask {
            Some(a) => j >= a,
            None => false,
        })
    }

    /// The book's invariant: the cursors name the best occupied levels and do not cross.
    pub open spec fn valid(self) -> bool {
        &&& self.tick > 0
        &&& self.levels.len() * self.tick <= u64::MAX
        &&& self.names_occupied(self.bid)
        &&& self.names_occupied(self.ask)
        &&& self.uncrossed()
        &&& forall|j: int| self.in_range(j) && #[trigger] self.levels[j].len() > 0 ==> self.on_a_side(j)
    }

    /// Level `i` replaced by `q`; a cursor that named `i` moves outward to the next
    /// occupied level when `q` is empty.
    pub open spec fn with_level(self, i: int, q: Seq<Order>) -> BookState {
        let levels = self.levels.update(i, q);
        BookState {
            levels,
            bid: if self.bid == Some(i) && q.len() == 0 { top_below(levels, i) } else { self.bid },
            ask: if self.ask == Some(i) && q.len() == 0 { bottom_above(levels, i) } else { self.ask },
            tick: self.tick,
        }
    }

    /// An order on `side` at level `i` would cross the book.
    pub open spec fn crosses(self, side: Side, i: int) -> bool {
        match side {
            Side::Buy => match self.ask {
                Some(a) => i >= a,
                None => false,
            },
            Side::Sell => match self.bid {
                Some(b) => i <= b,
                None => false,
            },
        }
    }

    /// Outcome of opening `rec` on `side`: the order joins the tail of its level.
    pub open spec fn open_result(self, side: Side, rec: BookRecord) -> Result<BookState, Error> {
        let i = self.quantize(rec.price);
        if !self.in_range(i) {
            Err(Error::Range)
        } else if self.crosses(side, i) {
            Err(Error::CrossedBook)
        } else {
            Ok(BookState {
                levels: self.levels.update(i, self.levels[i].push(Order { size: rec.size, id: rec.id })),
                bid: if side == Side::Buy { raised(self.bid, i) } else { self.bid },
                ask: if side == Side::Sell { lowered(self.ask, i) } else { self.ask },
                tick: self.tick,
            })
        }
    }

    /// Outcome of a fill of `size` against the head of the queue at `price`, which must be `id`.
    pub open spec fn match_result(self, price: u64, size: u64, id: u128) -> Result<BookState, Error> {
        let i = self.quantize(price);
        if !self.in_range(i) {
            Err(Error::Range)
        } else if self.levels[i].len() == 0 || self.levels[i][0].id != id {
            Err(Error::MatchMismatch)
        } else if size >= self.levels[i][0].size {
            Ok(self.with_level(i, self.levels[i].drop_first()))
        } else {
            let left = Order { size: (self.levels[i][0].size - size) as u64, id };
            Ok(self.with_level(i, self.levels[i].update(0, left)))
        }
    }

    /// Outcome of cancelling every order `id` at `price`.
    pub open spec fn done_result(self, price: u64, id: u128) -> Result<BookState, Error> {
        let i = self.quantize(price);
        if !self.in_range(i) {
            Err(Error::Range)
        } else {
            Ok(self.with_level(i, self.levels[i].filter(keeps(id))))
        }
    }

    /// Outcome of setting the size of order `id` at `price`; a zero size cancels it.
    pub open spec fn change_result(self, price: u64, new_size: u64, id: u128) -> Result<BookState, Error> {
        let i = self.quantize(price);
        if !self.in_range(i) {
            Err(Error::Range)
        } else if new_size == 0 {
            self.done_result(price, id)
        } else {
            Ok(
                self.with_level(
                    i,
                    self.levels[i].map_values(resized(id, new_size)),
                ),
            )
        }
    }

    /// Outcome of taking a synthetic head entry at `price`: `true` when the head was one.
    pub open spec fn take_nil_result(self, price: u64) -> Result<(BookState, bool), Error> {
        let i = self.quantize(price);
        if !self.in_range(i) {
            Err(Error::Range)
        } else if self.levels[i].len() == 0 {
            Err(Error::MatchMismatch)
        } else if self.levels[i][0].id != NIL_ID {
            Ok((self, false))
        } else {
            Ok((self.with_level(i, self.levels[i].drop_first()), true))
        }
    }

    /// Opening each record on `side` in turn, stopping at the first failure.
    pub open spec fn replay(self, side: Side, recs: Seq<BookRecord>) -> Result<BookState, Error>
        decreases recs.len(),
    {
        if recs.len() == 0 {
            Ok(self)
        } else {
            match self.replay(side, recs.drop_last()) {
                Ok(t) => t.open_result(side, recs.last()),
                Err(e) => Err(e),
            }
        }
    }

    /// Opening each event in turn, stopping at the first failure.
    pub open spec fn open_each(self, events: Seq<(Side, BookRecord)>) -> Result<BookState, Error>
        decreases events.len(),
    {
        if events.len() == 0 {
            Ok(self)
        } else {
            match self.open_each(events.drop_last()) {
                Ok(t) => t.open_result(events.last().0, events.last().1),
                Err(e) => Err(e),
            }
        }
    }

    /// Outcome of rebuilding the grid from full snapshots of both sides.
    pub open spec fn reload_result(self, bids: Seq<BookRecord>, asks: Seq<BookRecord>) -> Result<
        BookState,
        Error,
    > {
        match BookState::empty(self.levels.len(), self.tick).replay(Side::Buy, bids) {
            Ok(t) => t.replay(Side::Sell, asks),
            Err(e) => Err(e),
        }
    }
}

/// A cursor of the grid as a mathematical index.
pub open spec fn opt_int(p: Option<usize>) -> Option<int> {
    match p {
        Some(i) => Some(i as int),
        None => None,
    }
}

/// Where `top_below` lands: an occupied level with only empty levels above it up to `i`.
proof fn lemma_top_below(levels: Seq<Seq<Order>>, i: int)
    requires
        i <= levels.len(),
    ensures
        match top_below(levels, i) {
            Some(j) => 0 <= j < i && levels[j].len() > 0 && forall|k: int|
                j < k < i ==> #[trigger] levels[k].len() == 0,
            None => forall|k: int| 0 <= k < i ==> #[trigger] levels[k].len() == 0,
        },
    decreases i,
{
    if i > 0 && levels[i - 1].len() == 0 {
        lemma_top_below(levels, i - 1);
    }
}

/// Where `bottom_above` lands: an occupied level with only empty levels below it down to `i`.
proof fn lemma_bottom_above(levels: Seq<Seq<Order>>, i: int)
    requires
        0 <= i,
    ensures
        match bottom_above(levels, i) {
            Some(j) => i < j < levels.len() && levels[j].len() > 0 && forall|k: int|
                i < k < j ==> #[trigger] levels[k].len() == 0,
            None => forall|k: int| i < k < levels.len() ==> #[trigger] levels[k].len() == 0,
        },
    decreases levels.len() - i,
{
    if i + 1 < levels.len() && levels[i + 1].len() == 0 {
        lemma_bottom_above(levels, i + 1);
    }
}

/// Replacing a level by one that is empty unless the old one was occupied keeps the book valid.
proof fn lemma_with_level_valid(s: BookState, i: int, q: Seq<Order>)
    requires
        s.valid(),
        s.in_range(i),
        q.len() > 0 ==> s.levels[i].len() > 0,
    ensures
        s.with_level(i, q).valid(),
{
    let t = s.with_level(i, q);
    lemma_top_below(t.levels, i);
    lemma_bottom_above(t.levels, i);
    assert forall|j: int| t.in_range(j) && #[trigger] t.levels[j].len() > 0 implies t.on_a_side(j) by {
        assert(s.levels[j].len() > 0);
        assert(s.on_a_side(j));
    }
}

/// A limit order book over a fixed grid of price levels.
pub struct OrderBook {
    book: Vec<Vec<Order>>,
    bid: Option<usize>,
    ask: Option<usize>,
    tick: u64,
}

impl View for OrderBook {
    type V = BookState;

    closed spec fn view(&self) -> BookState {
        BookState {
            levels: self.book@.map_values(|q: Vec<Order>| q@),
            bid: opt_int(self.bid),
            ask: opt_int(self.ask),
            tick: self.tick as nat,
        }
    }
}

impl OrderBook {
    /// An empty book of the default grid: one level per cent.
    pub fn new() -> (r: Self)
        ensures
            r@ == BookState::empty(MAX_SIZE as nat, DEFAULT_TICK as nat),
            r@.valid(),
    {
        Self::with_grid(MAX_SIZE, DEFAULT_TICK)
    }

    /// An empty book of `capacity` levels, `tick` price units apart.
    pub fn with_grid(capacity: usize, tick: u64) -> (r: Self)
        requires
            tick > 0,
            capacity * tick <= u64::MAX,
        ensures
            r@ == BookState::empty(capacity as nat, tick as nat),
            r@.valid(),
    {
        let mut book: Vec<Vec<Order>> = Vec::new();
        let mut k: usize = 0;
        while k < capacity
            invariant
                k <= capacity,
                book@.len() == k,
                forall|j: int| 0 <= j < k ==> (#[trigger] book@[j])@.len() == 0,
            decreases capacity - k,
        {
            book.push(Vec::new());
            k = k + 1;
        }
        let r = OrderBook { book, bid: None, ask: None, tick };
        assert(r@.levels =~~= BookState::empty(capacity as nat, tick as nat).levels);
        r
    }

    /// Number of levels of the grid.
    pub fn capacity(&self) -> (r: usize)
        ensures
            r == self@.levels.len(),
    {
        self.book.len()
    }

    /// Price units between adjacent levels.
    pub fn tick(&self) -> (r: u64)
        ensures
            r == self@.tick,
    {
        self.tick
    }

    /// The level that `price` falls on, or `Range` when it lies beyond the grid.
    fn get_idx(&self, price: u64) -> (r: Result<usize, Error>)
        requires
            self@.valid(),
        ensures
            match r {
                Ok(i) => i == self@.quantize(price) && self@.in_range(i as int),
                Err(e) => e == Error::Range && !self@.in_range(self@.quantize(price)),
            },
    {
        let idx = price / self.tick;
        if idx >= self.book.len() as u64 {
            Err(Error::Range)
        } else {
            Ok(idx as usize)
        }
    }

    /// Highest occupied level below `i`.
    fn find_top_below(&self, i: usize) -> (r: Option<usize>)
        requires
            i <= self.book@.len(),
        ensures
            opt_int(r) == top_below(self@.levels, i as int),
    {
        let mut j: usize = i;
        while j > 0
            invariant
                j <= i <= self.book@.len(),
                top_below(self@.levels, i as int) == top_below(self@.levels, j as int),
            decreases j,
        {
            if self.book[j - 1].len() > 0 {
                return Some(j - 1);
            }
            j = j - 1;
        }
        None
    }

    /// Lowest occupied level above `i`.
    fn find_bottom_above(&self, i: usize) -> (r: Option<usize>)
        requires
            i < self.book@.len(),
        ensures
            opt_int(r) == bottom_above(self@.levels, i as int),
    {
        let mut j: usize = i;
        while j < self.book.len() - 1
            invariant
                i <= j < self.book@.len(),
                bottom_above(self@.levels, i as int) == bottom_above(self@.levels, j as int),
            decreases self.book@.len() - j,
        {
            if self.book[j + 1].len() > 0 {
                return Some(j + 1);
            }
            j = j + 1;
        }
        None
    }

    /// Moves a cursor that names `i` outward when level `i` has become empty.
    fn repair(&mut self, i: usize)
        requires
            i < old(self).book@.len(),
        ensures
            final(self).book == old(self).book,
            final(self).tick == old(self).tick,
            final(self)@ == old(self)@.with_level(i as int, old(self)@.levels[i as int]),
    {
        if self.bid == Some(i) && self.book[i].len() == 0 {
            self.bid = self.find_top_below(i);
        }
        if self.ask == Some(i) && self.book[i].len() == 0 {
            self.ask = self.find_bottom_above(i);
        }
        assert(self@.levels =~= old(self)@.levels.update(i as int, old(self)@.levels[i as int]));
    }

    /// Adds an order at the tail of its level, moving the touch cursor of its side
    /// inward when it improves on it.
    pub fn open(&mut self, side: Side, rec: BookRecord) -> (r: Result<(), Error>)
        requires
            old(self)@.valid(),
        ensures
            final(self)@.valid(),
            match old(self)@.open_result(side, rec) {
                Ok(t) => r is Ok && final(self)@ == t,
                Err(e) => r == Err::<(), Error>(e) && final(self)@ == old(self)@,
            },
    {
        proof {
            open_keeps_valid(self@, side, rec);
        }
        let i = match self.get_idx(rec.price) {
            Ok(i) => i,
            Err(e) => return Err(e),
        };
        let crosses = match side {
            Side::Buy => match self.ask {
                Some(a) => i >= a,
                None => false,
            },
            Side::Sell => match self.bid {
                Some(b) => i <= b,
                None => false,
            },
        };
        if crosses {
            return Err(Error::CrossedBook);
        }
        match side {
            Side::Buy => match self.bid {
                Some(b) => if i > b {
                    self.bid = Some(i);
                },
                None => self.bid = Some(i),
            },
            Side::Sell => match self.ask {
                Some(a) => if i < a {
                    self.ask = Some(i);
                },
                None => self.ask = Some(i),
            },
        }
        self.book[i].push(Order { size: rec.size, id: rec.id });
        proof {
            let o = Order { size: rec.size, id: rec.id };
            assert(self@.levels =~= old(self)@.levels.update(i as int, old(self)@.levels[i as int].push(o)));
        }
        Ok(())
    }

    /// Fills `size` against the head order at `price`, which must be `id`; a fill that
    /// reaches the order's size removes it.
    pub fn match_order(&mut self, price: u64, size: u64, id: u128) -> (r: Result<(), Error>)
        requires
            old(self)@.valid(),
        ensures
            final(self)@.valid(),
            match old(self)@.match_result(price, size, id) {
                Ok(t) => r is Ok && final(self)@ == t,
                Err(e) => r == Err::<(), Error>(e) && final(self)@ == old(self)@,
            },
    {
        let i = match self.get_idx(price) {
            Ok(i) => i,
            Err(e) => return Err(e),
        };
        if self.book[i].len() == 0 || self.book[i][0].id != id {
            return Err(Error::MatchMismatch);
        }
        let ghost s = self@;
        let ghost q = s.levels[i as int];
        let head = self.book[i][0];
        if size >= head.size {
            self.book[i].remove(0);
            proof {
                assert(self@.levels =~= s.levels.update(i as int, q.drop_first()));
                lemma_with_level_valid(s, i as int, q.drop_first());
            }
            self.repair(i);
        } else {
            self.book[i][0] = Order { size: head.size - size, id };
            proof {
                let left = Order { size: (head.size - size) as u64, id };
                assert(self@.levels =~= s.levels.update(i as int, q.update(0, left)));
                assert(s.with_level(i as int, q.update(0, left)).levels =~= self@.levels);
                lemma_with_level_valid(s, i as int, q.update(0, left));
            }
        }
        Ok(())
    }

    /// Cancels every order `id` at `price`; cancelling an order that is not there
    /// changes nothing.
    pub fn done(&mut self, price: u64, id: u128) -> (r: Result<(), Error>)
        requires
            old(self)@.valid(),
        ensures
            final(self)@.valid(),
            match old(self)@.done_result(price, id) {
                Ok(t) => r is Ok && final(self)@ == t,
                Err(e) => r == Err::<(), Error>(e) && final(self)@ == old(self)@,
            },
    {
        let i = match self.get_idx(price) {
            Ok(i) => i,
            Err(e) => return Err(e),
        };
        let ghost s = self@;
        let ghost q = s.levels[i as int];
        let mut kept: Vec<Order> = Vec::new();
        let mut k: usize = 0;
        let n = self.book[i].len();
        while k < n
            invariant
                self@ == s,
                s.in_range(i as int),
                q == s.levels[i as int],
                n == q.len(),
                k <= n,
                kept@ == q.take(k as int).filter(keeps(id)),
            decreases n - k,
        {
            let o = self.book[i][k];
            proof {
                reveal(Seq::filter);
                assert(q.take(k as int + 1).drop_last() =~= q.take(k as int));
            }
            if o.id != id {
                kept.push(o);
            }
            k = k + 1;
        }
        proof {
            assert(q.take(n as int) =~= q);
            q.lemma_filter_len(keeps(id));
        }
        self.book[i] = kept;
        proof {
            assert(self@.levels =~= s.levels.update(i as int, q.filter(keeps(id))));
            lemma_with_level_valid(s, i as int, q.filter(keeps(id)));
        }
        self.repair(i);
        Ok(())
    }

    /// Sets the size of order `id` at `price` in place, keeping its queue position; a
    /// zero size cancels it.
    pub fn change(&mut self, price: u64, new_size: u64, id: u128) -> (r: Result<(), Error>)
        requires
            old(self)@.valid(),
        ensures
            final(self)@.valid(),
            match old(self)@.change_result(price, new_size, id) {
                Ok(t) => r is Ok && final(self)@ == t,
                Err(e) => r == Err::<(), Error>(e) && final(self)@ == old(self)@,
            },
    {
        let i = match self.get_idx(price) {
            Ok(i) => i,
            Err(e) => return Err(e),
        };
        if new_size == 0 {
            return self.done(price, id);
        }
        let ghost s = self@;
        let ghost q = s.levels[i as int];
        let mut changed: Vec<Order> = Vec::new();
        let mut k: usize = 0;
        let n = self.book[i].len();
        while k < n
            invariant
                self@ == s,
                s.in_range(i as int),
                q == s.levels[i as int],
                n == q.len(),
                k <= n,
                changed@.len() == k,
                forall|j: int| 0 <= j < k ==> changed@[j] == (resized(id, new_size))(q[j]),
            decreases n - k,
        {
            let o = self.book[i][k];
            if o.id == id {
                changed.push(Order { size: new_size, id: o.id });
            } else {
                changed.push(o);
            }
            k = k + 1;
        }
        proof {
            assert(changed@ =~= q.map_values(resized(id, new_size)));
        }
        self.book[i] = changed;
        proof {
            assert(self@.levels =~= s.levels.update(i as int, q.map_values(resized(id, new_size))));
            lemma_with_level_valid(s, i as int, q.map_values(resized(id, new_size)));
        }
        self.repair(i);
        Ok(())
    }

    /// Simulation only: removes the head entry at `price` when it carries the reserved
    /// nil id, and says whether it did.
    pub fn test_match(&mut self, price: u64) -> (r: Result<bool, Error>)
        requires
            old(self)@.valid(),
        ensures
            final(self)@.valid(),
            match old(self)@.take_nil_result(price) {
                Ok((t, taken)) => r == Ok::<bool, Error>(taken) && final(self)@ == t,
                Err(e) => r == Err::<bool, Error>(e) && final(self)@ == old(self)@,
            },
    {
        let i = match self.get_idx(price) {
            Ok(i) => i,
            Err(e) => return Err(e),
        };
        if self.book[i].len() == 0 {
            return Err(Error::MatchMismatch);
        }
        if self.book[i][0].id != NIL_ID {
            return Ok(false);
        }
        let ghost s = self@;
        let ghost q = s.levels[i as int];
        self.book[i].remove(0);
        proof {
            assert(self@.levels =~= s.levels.update(i as int, q.drop_first()));
            lemma_with_level_valid(s, i as int, q.drop_first());
        }
        self.repair(i);
        Ok(true)
    }

    /// Price of the best bid, or `None` when no buy level is occupied.
    pub fn bid(&self) -> (r: Option<u64>)
        requires
            self@.valid(),
        ensures
            r == (match self@.bid {
                Some(b) => Some((b * self@.tick) as u64),
                None => None::<u64>,
            }),
    {
        match self.bid {
            Some(b) => {
                proof {
                    lemma_level_price_fits(b as int, self@.levels.len() as int, self.tick as int);
                }
                Some(b as u64 * self.tick)
            },
            None => None,
        }
    }

    /// Price of the best ask, or `None` when no sell level is occupied.
    pub fn ask(&self) -> (r: Option<u64>)
        requires
            self@.valid(),
        ensures
            r == (match self@.ask {
                Some(a) => Some((a * self@.tick) as u64),
                None => None::<u64>,
            }),
    {
        match self.ask {
            Some(a) => {
                proof {
                    lemma_level_price_fits(a as int, self@.levels.len() as int, self.tick as int);
                }
                Some(a as u64 * self.tick)
            },
            None => None,
        }
    }

    /// Sum of the sizes resting at each of the `n` levels from `lo` upward.
    fn side(&self, lo: usize, n: usize) -> (r: Vec<u128>)
        requires
            lo + n <= self@.levels.len(),
        ensures
            r@.len() == n,
            forall|k: int| 0 <= k < n ==> r@[k] == level_total(#[trigger] self@.levels[lo + k]),
    {
        let mut out: Vec<u128> = Vec::new();
        let m = self.book.len();
        let mut k: usize = 0;
        while k < n
            invariant
                lo + n <= self@.levels.len(),
                self@.levels.len() == self.book@.len(),
                m == self.book@.len(),
                k <= n,
                out@.len() == k,
                forall|j: int| 0 <= j < k ==> out@[j] == level_total(#[trigger] self@.levels[lo + j]),
            decreases n - k,
        {
            out.push(queue_total(&self.book[lo + k]));
            k = k + 1;
        }
        out
    }

    /// Aggregate sizes of the `n` levels ending at the best bid, farthest first; `None`
    /// when no buy level is occupied or the window would reach below the grid.
    pub fn bids(&self, n: usize) -> (r: Option<Vec<u128>>)
        requires
            self@.valid(),
        ensures
            r is Some <==> (self@.bid is Some && n <= self@.bid->0 + 1),
            r matches Some(v) ==> v@.len() == n && forall|k: int|
                0 <= k < n ==> v@[k] == level_total(
                    #[trigger] self@.levels[self@.bid->0 - n + 1 + k],
                ),
    {
        let m = self.book.len();
        proof {
            assert(self@.levels.len() == m);
        }
        match self.bid {
            Some(b) => if n <= b + 1 {
                Some(self.side(b + 1 - n, n))
            } else {
                None
            },
            None => None,
        }
    }

    /// Aggregate sizes of the `n` levels starting at the best ask, nearest first; `None`
    /// when no sell level is occupied or the window would reach past the grid.
    pub fn asks(&self, n: usize) -> (r: Option<Vec<u128>>)
        requires
            self@.valid(),
        ensures
            r is Some <==> (self@.ask is Some && self@.ask->0 + n <= self@.levels.len()),
            r matches Some(v) ==> v@.len() == n && forall|k: int|
                0 <= k < n ==> v@[k] == level_total(#[trigger] self@.levels[self@.ask->0 + k]),
    {
        proof {
            assert(self@.levels.len() == self.book@.len());
        }
        match self.ask {
            Some(a) => if n <= self.book.len() - a {
                Some(self.side(a, n))
            } else {
                None
            },
            None => None,
        }
    }

    /// A book of the given grid holding the bids opened in order, then the asks.
    fn rebuilt(capacity: usize, tick: u64, bids: &Vec<BookRecord>, asks: &Vec<BookRecord>) -> (r:
        Result<OrderBook, Error>)
        requires
            tick > 0,
            capacity * tick <= u64::MAX,
        ensures
            match r {
                Ok(b) => b@.valid() && BookState::empty(capacity as nat, tick as nat).reload_result(
                    bids@,
                    asks@,
                ) == Ok::<BookState, Error>(b@),
                Err(e) => BookState::empty(capacity as nat, tick as nat).reload_result(bids@, asks@)
                    == Err::<BookState, Error>(e),
            },
    {
        let ghost s0 = BookState::empty(capacity as nat, tick as nat);
        let mut fresh = OrderBook::with_grid(capacity, tick);
        let mut k: usize = 0;
        while k < bids.len()
            invariant
                k <= bids@.len(),
                s0 == BookState::empty(capacity as nat, tick as nat),
                BookState::empty(s0.levels.len(), s0.tick) == s0,
                fresh@.valid(),
                s0.replay(Side::Buy, bids@.take(k as int)) == Ok::<BookState, Error>(fresh@),
            decreases bids@.len() - k,
        {
            proof {
                assert(bids@.take(k as int + 1).drop_last() =~= bids@.take(k as int));
            }
            match fresh.open(Side::Buy, bids[k]) {
                Ok(()) => {},
                Err(e) => {
                    proof {
                        assert(s0.replay(Side::Buy, bids@.take(k as int + 1)) == Err::<BookState, Error>(e));
                        lemma_replay_stops(s0, Side::Buy, bids@, k as int + 1);
                    }
                    return Err(e);
                },
            }
            k = k + 1;
        }
        proof {
            assert(bids@.take(bids@.len() as int) =~= bids@);
        }
        let ghost s1 = fresh@;
        k = 0;
        while k < asks.len()
            invariant
                k <= asks@.len(),
                s0 == BookState::empty(capacity as nat, tick as nat),
                BookState::empty(s0.levels.len(), s0.tick) == s0,
                fresh@.valid(),
                s0.replay(Side::Buy, bids@) == Ok::<BookState, Error>(s1),
                s1.replay(Side::Sell, asks@.take(k as int)) == Ok::<BookState, Error>(fresh@),
            decreases asks@.len() - k,
        {
            proof {
                assert(asks@.take(k as int + 1).drop_last() =~= asks@.take(k as int));
            }
            match fresh.open(Side::Sell, asks[k]) {
                Ok(()) => {},
                Err(e) => {
                    proof {
                        lemma_replay_stops(s1, Side::Sell, asks@, k as int + 1);
                    }
                    return Err(e);
                },
            }
            k = k + 1;
        }
        proof {
            assert(asks@.take(asks@.len() as int) =~= asks@);
        }
        Ok(fresh)
    }

    /// Rebuilds the grid from full snapshots: each bid is opened on the buy side in
    /// order, then each ask on the sell side. On a failure the book is left as it was.
    pub fn reload(&mut self, bids: Vec<BookRecord>, asks: Vec<BookRecord>) -> (r: Result<(), Error>)
        requires
            old(self)@.valid(),
        ensures
            final(self)@.valid(),
            match old(self)@.reload_result(bids@, asks@) {
                Ok(t) => r is Ok && final(self)@ == t,
                Err(e) => r == Err::<(), Error>(e) && final(self)@ == old(self)@,
            },
    {
        proof {
            assert(self@.levels.len() == self.book@.len());
        }
        match OrderBook::rebuilt(self.book.len(), self.tick, &bids, &asks) {
            Ok(fresh) => {
                *self = fresh;
                Ok(())
            },
            Err(e) => Err(e),
        }
    }
}

/// Sum of the sizes of the orders in a queue.
fn queue_total(q: &Vec<Order>) -> (r: u128)
    ensures
        r == level_total(q@),
{
    let mut total: u128 = 0;
    let mut k: usize = 0;
    while k < q.len()
        invariant
            k <= q@.len(),
            total == level_total(q@.take(k as int)),
            total <= k * (u64::MAX as int),
        decreases q@.len() - k,
    {
        proof {
            assert(q@.take(k as int + 1).drop_last() =~= q@.take(k as int));
            assert((k + 1) * (u64::MAX as int) <= (u64::MAX as int) * (u64::MAX as int)) by (nonlinear_arith)
                requires
                    k < u64::MAX,
            ;
        }
        total = total + q[k].size as u128;
        k = k + 1;
    }
    proof {
        assert(q@.take(q@.len() as int) =~= q@);
    }
    total
}

/// The price of a level of the grid fits in a `u64`.
proof fn lemma_level_price_fits(i: int, n: int, tick: int)
    requires
        0 <= i < n,
        0 <= tick,
        n * tick <= u64::MAX,
    ensures
        0 <= i * tick <= u64::MAX,
{
    assert(0 <= i * tick <= n * tick) by (nonlinear_arith)
        requires
            0 <= i < n,
            0 <= tick,
    ;
}

/// Once a prefix of the records fails, replaying all of them fails with the same error.
proof fn lemma_replay_stops(s: BookState, side: Side, recs: Seq<BookRecord>, k: int)
    requires
        0 <= k <= recs.len(),
        s.replay(side, recs.take(k)) is Err,
    ensures
        s.replay(side, recs) == s.replay(side, recs.take(k)),
    decreases recs.len() - k,
{
    if k < recs.len() {
        assert(recs.take(k + 1).drop_last() =~= recs.take(k));
        lemma_replay_stops(s, side, recs, k + 1);
    } else {
        assert(recs.take(k) =~= recs);
    }
}

/// Opening an order keeps the book valid, so the best bid stays strictly below the
/// best ask.
pub proof fn open_keeps_valid(s: BookState, side: Side, rec: BookRecord)
    requires
        s.valid(),
    ensures
        s.open_result(side, rec) matches Ok(t) ==> t.valid() && t.uncrossed(),
{
    if let Ok(t) = s.open_result(side, rec) {
        let i = s.quantize(rec.price);
        assert forall|j: int| t.in_range(j) && #[trigger] t.levels[j].len() > 0 implies t.on_a_side(j) by {
            if j != i {
                assert(s.levels[j].len() > 0);
            }
        }
    }
}

/// Any sequence of order openings from a valid book keeps it valid, so whenever both
/// sides hold orders the best bid lies strictly below the best ask.
pub proof fn open_each_keeps_valid(s: BookState, events: Seq<(Side, BookRecord)>)
    requires
        s.valid(),
    ensures
        s.open_each(events) matches Ok(t) ==> t.valid() && t.uncrossed(),
    decreases events.len(),
{
    if events.len() > 0 {
        open_each_keeps_valid(s, events.drop_last());
        if let Ok(t0) = s.open_each(events.drop_last()) {
            open_keeps_valid(t0, events.last().0, events.last().1);
        }
    }
}

/// A new order joins the tail of its level, behind every order already resting there.
pub proof fn open_appends_at_tail(s: BookState, side: Side, rec: BookRecord)
    requires
        s.valid(),
    ensures
        s.open_result(side, rec) matches Ok(t) ==> ids(t.levels[s.quantize(rec.price)]) == ids(
            s.levels[s.quantize(rec.price)],
        ).push(rec.id),
{
    if let Ok(t) = s.open_result(side, rec) {
        let i = s.quantize(rec.price);
        assert(ids(t.levels[i]) =~= ids(s.levels[i]).push(rec.id));
    }
}

/// A fill acts on the order that arrived first at its level: the head must carry `id`; a
/// partial fill reduces the head's size and keeps every order in place; a full fill
/// removes the head alone. Other levels are untouched.
pub proof fn match_acts_on_head(s: BookState, price: u64, size: u64, id: u128)
    requires
        s.valid(),
    ensures
        s.match_result(price, size, id) matches Ok(t) ==> {
            let i = s.quantize(price);
            let q = s.levels[i];
            &&& q.len() > 0 && q[0].id == id
            &&& size < q[0].size ==> ids(t.levels[i]) == ids(q) && t.levels[i][0].size == q[0].size
                - size
            &&& size >= q[0].size ==> ids(t.levels[i]) == ids(q).drop_first()
            &&& forall|j: int| s.in_range(j) && j != i ==> t.levels[j] == s.levels[j]
        },
{
    if let Ok(t) = s.match_result(price, size, id) {
        let i = s.quantize(price);
        let q = s.levels[i];
        if size < q[0].size {
            assert(ids(t.levels[i]) =~= ids(q));
        } else {
            assert(ids(t.levels[i]) =~= ids(q).drop_first());
        }
    }
}

/// Changing an order's size to a non-zero value leaves the order of every queue as it was.
pub proof fn change_keeps_queue_order(s: BookState, price: u64, new_size: u64, id: u128)
    requires
        s.valid(),
        new_size > 0,
    ensures
        s.change_result(price, new_size, id) matches Ok(t) ==> forall|j: int|
            s.in_range(j) ==> ids(#[trigger] t.levels[j]) == ids(s.levels[j]),
{
    if let Ok(t) = s.change_result(price, new_size, id) {
        let i = s.quantize(price);
        assert forall|j: int| s.in_range(j) implies ids(#[trigger] t.levels[j]) == ids(s.levels[j]) by {
            if j == i {
                assert(ids(t.levels[j]) =~= ids(s.levels[j]));
            }
        }
    }
}

/// A queue in which every order passes `p` is its own filter.
proof fn lemma_filter_keeps_all(q: Seq<Order>, p: spec_fn(Order) -> bool)
    requires
        forall|k: int| 0 <= k < q.len() ==> p(#[trigger] q[k]),
    ensures
        q.filter(p) == q,
    decreases q.len(),
{
    reveal(Seq::filter);
    if q.len() > 0 {
        lemma_filter_keeps_all(q.drop_last(), p);
        assert(q.drop_last().push(q.last()) =~= q);
    }
}

/// Cancelling the same order twice is the same as cancelling it once: the second
/// cancel succeeds and changes nothing.
pub proof fn done_is_idempotent(s: BookState, price: u64, id: u128)
    requires
        s.valid(),
    ensures
        s.done_result(price, id) matches Ok(t) ==> t.done_result(price, id) == Ok::<BookState, Error>(t),
{
    if let Ok(t) = s.done_result(price, id) {
        let i = s.quantize(price);
        let q = s.levels[i].filter(keeps(id));
        s.levels[i].lemma_filter_len(keeps(id));
        lemma_with_level_valid(s, i, q);
        assert forall|k: int| 0 <= k < q.len() implies (keeps(id))(#[trigger] q[k]) by {
            s.levels[i].lemma_filter_pred(keeps(id), k);
        }
        lemma_filter_keeps_all(q, keeps(id));
        assert(t.levels.update(i, q) =~= t.levels);
    }
}

/// Opening buy orders on a book with no bid leaves the bid at the highest level opened
/// and the ask where it was.
proof fn lemma_replay_buy(s: BookState, recs: Seq<BookRecord>)
    requires
        s.bid is None,
    ensures
        s.replay(Side::Buy, recs) matches Ok(t) ==> t.bid == highest_level(recs, s.tick) && t.ask
            == s.ask && t.tick == s.tick,
    decreases recs.len(),
{
    if recs.len() > 0 {
        lemma_replay_buy(s, recs.drop_last());
    }
}

/// Opening sell orders on a book with no ask leaves the ask at the lowest level opened
/// and the bid where it was.
proof fn lemma_replay_sell(s: BookState, recs: Seq<BookRecord>)
    requires
        s.ask is None,
    ensures
        s.replay(Side::Sell, recs) matches Ok(t) ==> t.ask == lowest_level(recs, s.tick) && t.bid
            == s.bid && t.tick == s.tick,
    decreases recs.len(),
{
    if recs.len() > 0 {
        lemma_replay_sell(s, recs.drop_last());
    }
}

/// A successful reload puts the bid at the highest level among the bids and the ask at
/// the lowest among the asks, whatever the book held before: two books of the same
/// grid reload to the same state.
pub proof fn reload_sets_touch(s: BookState, other: BookState, bids: Seq<BookRecord>, asks: Seq<
    BookRecord,
>)
    requires
        s.valid(),
    ensures
        other.levels.len() == s.levels.len() && other.tick == s.tick ==> other.reload_result(bids, asks)
            == s.reload_result(bids, asks),
        s.reload_result(bids, asks) matches Ok(t) ==> t.bid == highest_level(bids, s.tick) && t.ask
            == lowest_level(asks, s.tick),
{
    let s0 = BookState::empty(s.levels.len(), s.tick);
    lemma_replay_buy(s0, bids);
    if let Ok(t) = s0.replay(Side::Buy, bids) {
        lemma_replay_sell(t, asks);
    }
}

} // verus!
