use vstd::prelude::*;
use std::collections::HashMap;

use crate::feed_ingest::book;
use crate::feed_ingest::book::{BookDepth, BookModel, Level, OrderBook};
use crate::feed_ingest::event;
use crate::feed_ingest::event::{BookEvent, TickSize};
use crate::float_bits::F64Bits;
use crate::keys::map_keys;

verus! {

/// The key of a book: market, tick size and whether pool liquidity is merged
/// in. Views that differ in any of them are kept apart.
pub open spec fn key_of(market_id: u32, tick_size: TickSize, include_amm: bool) -> u128 {
    (market_id * 0x2_0000_0000_0000_0000 + tick_size.bits().0 * 2 + (if include_amm { 1int } else { 0 })) as u128
}

/// The market of a key.
pub open spec fn key_market(key: u128) -> u32 {
    (key as int / 0x2_0000_0000_0000_0000) as u32
}

/// The value of a key's tick size.
pub open spec fn key_size(key: u128) -> F64Bits {
    F64Bits(((key as int / 2) % 0x1_0000_0000_0000_0000) as u64)
}

/// The tick size of a key.
pub open spec fn key_tick(key: u128) -> TickSize {
    TickSize::of(key_size(key))
}

/// Whether a key's book merges in pool liquidity.
pub open spec fn key_amm(key: u128) -> bool {
    key as int % 2 == 1
}

/// Keys are below this: a market, a tick size and a flag.
pub const KEY_SPAN: u128 = 0x2_0000_0000_0000_0000_0000_0000;

/// Different views never share a key.
pub proof fn law_book_keys_are_distinct(market_id: u32, tick_size: TickSize, include_amm: bool)
    ensures
        key_of(market_id, tick_size, include_amm) < KEY_SPAN,
        key_market(key_of(market_id, tick_size, include_amm)) == market_id,
        key_size(key_of(market_id, tick_size, include_amm)) == tick_size.bits(),
        key_tick(key_of(market_id, tick_size, include_amm)) == tick_size,
        key_amm(key_of(market_id, tick_size, include_amm)) == include_amm,
{
    event::lemma_tick_size_is_its_value(tick_size, tick_size.bits());
}

fn book_key(market_id: u32, tick_size: TickSize, include_amm: bool) -> (r: u128)
    ensures
        r == key_of(market_id, tick_size, include_amm),
{
    let amm: u128 = if include_amm {
        1
    } else {
        0
    };
    market_id as u128 * 0x2_0000_0000_0000_0000 + tick_size.value().0 as u128 * 2 + amm
}

/// A key is made of its parts.
proof fn lemma_key_is_its_parts(key: u128)
    requires
        key < KEY_SPAN,
    ensures
        key_of(key_market(key), key_tick(key), key_amm(key)) == key,
{
    event::lemma_tick_size_is_its_value(key_tick(key), key_size(key));
}

/// Whether a key is one of a view.
pub open spec fn key_is_valid(key: u128) -> bool {
    key < KEY_SPAN && event::accepted(key_size(key))
}

fn key_parts(key: u128) -> (r: Option<(u32, TickSize, bool)>)
    requires
        key < KEY_SPAN,
    ensures
        r == (if event::accepted(key_size(key)) {
            Some((key_market(key), key_tick(key), key_amm(key)))
        } else {
            None
        }),
{
    let size: F64Bits = F64Bits(((key / 2) % 0x1_0000_0000_0000_0000) as u64);
    match TickSize::new(size) {
        Ok(tick_size) => Some(((key / 0x2_0000_0000_0000_0000) as u32, tick_size, key % 2 == 1)),
        Err(_) => None,
    }
}

/// What one look at the event queue found.
pub enum Received {
    Event(BookEvent),
    /// Nothing is queued.
    Empty,
    /// No more events will come.
    Closed,
    /// So many events were lost; more may be queued behind the gap.
    Lagged(u64),
}

/// Books by key with a snapshot applied. A snapshot of a new view opens a book;
/// one that does not decode leaves its book as it was.
pub open spec fn with_event(books: Map<u128, BookModel>, event: BookEvent) -> Map<u128, BookModel> {
    let key = key_of(event.market_id, event.tick_size, event.include_amm);
    let before = if books.contains_key(key) {
        books[key]
    } else {
        book::blank_book(event.market_id, event.tick_size.bits())
    };
    match book::with_snapshot(before, event) {
        Ok(after) => books.insert(key, after),
        Err(_) => books.insert(key, before),
    }
}

/// Keeps the latest book of every view that the feed sent.
pub struct BookStateManager {
    books: HashMap<u128, OrderBook>,
}

impl View for BookStateManager {
    type V = Map<u128, BookModel>;

    /// Books by key.
    closed spec fn view(&self) -> Map<u128, BookModel> {
        self.books@.map_values(|b: OrderBook| b@)
    }
}

impl BookStateManager {
    /// Every book is ranked, stands under the key of its view, and knows its
    /// market and tick size.
    pub open spec fn wf(&self) -> bool {
        forall|key: u128| #[trigger]
            self@.contains_key(key) ==> {
                &&& key_is_valid(key)
                &&& self@[key].wf()
                &&& self@[key].market_id == key_market(key)
                &&& self@[key].tick_size == key_size(key)
            }
    }

    /// The book of a view, if one was opened.
    pub open spec fn book(&self, market_id: u32, tick_size: TickSize, include_amm: bool) -> Option<
        BookModel,
    > {
        let key = key_of(market_id, tick_size, include_amm);
        if self@.contains_key(key) {
            Some(self@[key])
        } else {
            None
        }
    }

    pub fn new() -> (r: Self)
        ensures
            r.wf(),
            r@ == Map::<u128, BookModel>::empty(),
    {
        let r = BookStateManager { books: HashMap::new() };
        assert(r@ =~= Map::<u128, BookModel>::empty());
        r
    }

    /// Takes what one look at the queue found; the result says whether to look
    /// again.
    pub fn on_received(&mut self, received: Received) -> (r: bool)
        requires
            old(self).wf(),
        ensures
            final(self).wf(),
            match received {
                Received::Event(event) => r && final(self)@ == with_event(old(self)@, event),
                Received::Lagged(_) => r && final(self)@ == old(self)@,
                Received::Empty => !r && final(self)@ == old(self)@,
                Received::Closed => !r && final(self)@ == old(self)@,
            },
    {
        match received {
            Received::Event(event) => {
                self.apply(&event);
                true
            },
            Received::Lagged(_) => true,
            Received::Empty => false,
            Received::Closed => false,
        }
    }

    /// Applies a snapshot to the book of its view.
    pub fn apply(&mut self, event: &BookEvent)
        requires
            old(self).wf(),
        ensures
            final(self).wf(),
            final(self)@ == with_event(old(self)@, *event),
    {
        let key: u128 = book_key(event.market_id, event.tick_size, event.include_amm);
        let tick_size: TickSize = event.tick_size;
        proof {
            use_type_invariant(tick_size);
            law_book_keys_are_distinct(event.market_id, event.tick_size, event.include_amm);
        }
        let mut book: OrderBook = match self.books.remove(&key) {
            Some(book) => {
                assert(old(self)@.contains_key(key) && old(self)@[key] == book@);
                book
            },
            None => {
                assert(!old(self)@.contains_key(key));
                OrderBook::new(event.market_id, event.tick_size.value())
            },
        };
        let _ = book.apply(event);
        self.books.insert(key, book);
        assert(self@ =~= with_event(old(self)@, *event));
    }

    pub fn best_bid(&self, market_id: u32, tick_size: TickSize, include_amm: bool) -> (r: Option<Level>)
        ensures
            r == (match self.book(market_id, tick_size, include_amm) {
                Some(b) => book::first_of(b.bids),
                None => None,
            }),
    {
        match self.books.get(&book_key(market_id, tick_size, include_amm)) {
            Some(b) => b.best_bid(),
            None => None,
        }
    }

    pub fn best_ask(&self, market_id: u32, tick_size: TickSize, include_amm: bool) -> (r: Option<Level>)
        ensures
            r == (match self.book(market_id, tick_size, include_amm) {
                Some(b) => book::first_of(b.asks),
                None => None,
            }),
    {
        match self.books.get(&book_key(market_id, tick_size, include_amm)) {
            Some(b) => b.best_ask(),
            None => None,
        }
    }

    pub fn bbo(&self, market_id: u32, tick_size: TickSize, include_amm: bool) -> (r: Option<
        (Level, Level),
    >)
        ensures
            r == (match self.book(market_id, tick_size, include_amm) {
                Some(b) => book::best_pair(b),
                None => None,
            }),
    {
        match self.books.get(&book_key(market_id, tick_size, include_amm)) {
            Some(b) => b.bbo(),
            None => None,
        }
    }

    pub fn mid_rate(&self, market_id: u32, tick_size: TickSize, include_amm: bool) -> (r: Option<F64Bits>)
        ensures
            r == (match self.book(market_id, tick_size, include_amm) {
                Some(b) => book::mid_of(b),
                None => None,
            }),
    {
        match self.books.get(&book_key(market_id, tick_size, include_amm)) {
            Some(b) => b.mid_rate(),
            None => None,
        }
    }

    pub fn spread(&self, market_id: u32, tick_size: TickSize, include_amm: bool) -> (r: Option<F64Bits>)
        ensures
            r == (match self.book(market_id, tick_size, include_amm) {
                Some(b) => book::spread_of(b),
                None => None,
            }),
    {
        match self.books.get(&book_key(market_id, tick_size, include_amm)) {
            Some(b) => b.spread(),
            None => None,
        }
    }

    /// At most `n` levels of each side, once a snapshot has arrived.
    pub fn depth(&self, market_id: u32, tick_size: TickSize, include_amm: bool, n: usize) -> (r: Option<
        BookDepth,
    >)
        ensures
            match self.book(market_id, tick_size, include_amm) {
                Some(b) => if b.initialized {
                    r matches Some(d) && d.bids@ == book::at_most(b.bids, n as nat) && d.asks@
                        == book::at_most(b.asks, n as nat) && d.block_number == b.block_number
                        && d.timestamp == b.timestamp
                } else {
                    r is None
                },
                None => r is None,
            },
    {
        match self.books.get(&book_key(market_id, tick_size, include_amm)) {
            Some(b) => if b.is_initialized() {
                Some(b.depth(n))
            } else {
                None
            },
            None => None,
        }
    }

    pub fn block_number(&self, market_id: u32, tick_size: TickSize, include_amm: bool) -> (r: Option<u64>)
        ensures
            r == (match self.book(market_id, tick_size, include_amm) {
                Some(b) => Some(b.block_number),
                None => None,
            }),
    {
        match self.books.get(&book_key(market_id, tick_size, include_amm)) {
            Some(b) => Some(b.block_number()),
            None => None,
        }
    }

    /// Every view that has a book, each once, in no particular order.
    pub fn known_markets(&self) -> (r: Vec<(u32, TickSize, bool)>)
        requires
            self.wf(),
        ensures
            r@.no_duplicates(),
            forall|m: u32, t: TickSize, a: bool| #[trigger]
                r@.contains((m, t, a)) <==> self.book(m, t, a) is Some,
    {
        let keys: Vec<u128> = map_keys(&self.books);
        let mut out: Vec<(u32, TickSize, bool)> = Vec::new();
        let mut i: usize = 0;
        assert(self@.dom() =~= self.books@.dom());
        while i < keys.len()
            invariant
                i <= keys@.len(),
                self.wf(),
                keys@.no_duplicates(),
                keys@.to_set() == self@.dom(),
                out@.len() == i,
                forall|k: int|
                    0 <= k < i ==> #[trigger] out@[k] == (
                        key_market(keys@[k]),
                        key_tick(keys@[k]),
                        key_amm(keys@[k]),
                    ) && key_is_valid(keys@[k]),
            decreases keys@.len() - i,
        {
            let key: u128 = keys[i];
            assert(keys@.to_set().contains(key));
            assert(self@.contains_key(key));
            match key_parts(key) {
                Some(view) => {
                    out.push(view);
                },
                None => {},
            }
            i = i + 1;
        }
        proof {
            assert forall|x: int, y: int| 0 <= x < out@.len() && 0 <= y < out@.len() && x != y implies out@[x]
                != out@[y] by {
                assert(keys@[x] != keys@[y]);
                assert(out@[x].0 == key_market(keys@[x]));
                assert(out@[y].0 == key_market(keys@[y]));
                lemma_key_is_its_parts(keys@[x]);
                lemma_key_is_its_parts(keys@[y]);
            }
            assert forall|m: u32, t: TickSize, a: bool| #[trigger] out@.contains((m, t, a)) <==> self.book(
                m,
                t,
                a,
            ) is Some by {
                let key = key_of(m, t, a);
                law_book_keys_are_distinct(m, t, a);
                if out@.contains((m, t, a)) {
                    let k = choose|k: int| 0 <= k < out@.len() && out@[k] == (m, t, a);
                    assert(keys@.to_set().contains(keys@[k]));
                    lemma_key_is_its_parts(keys@[k]);
                    assert(keys@[k] == key);
                }
                if self.book(m, t, a) is Some {
                    assert(keys@.to_set().contains(key));
                    let k = choose|k: int| 0 <= k < keys@.len() && keys@[k] == key;
                    assert(out@[k] == (m, t, a));
                }
            }
        }
        out
    }
}

/// A snapshot touches the book of its own view and no other.
pub proof fn law_views_do_not_collide(
    books: Map<u128, BookModel>,
    event: BookEvent,
    market_id: u32,
    tick_size: TickSize,
    include_amm: bool,
)
    requires
        (market_id, tick_size, include_amm) != (event.market_id, event.tick_size, event.include_amm),
    ensures
        ({
            let key = key_of(market_id, tick_size, include_amm);
            let after = with_event(books, event);
            &&& after.contains_key(key) == books.contains_key(key)
            &&& books.contains_key(key) ==> after[key] == books[key]
        }),
{
    law_book_keys_are_distinct(market_id, tick_size, include_amm);
    law_book_keys_are_distinct(event.market_id, event.tick_size, event.include_amm);
}

/// A snapshot that does not decode leaves the last good one in place.
pub proof fn law_malformed_snapshot_is_dropped(books: Map<u128, BookModel>, event: BookEvent)
    requires
        books.contains_key(key_of(event.market_id, event.tick_size, event.include_amm)),
        ({
            let key = key_of(event.market_id, event.tick_size, event.include_amm);
            book::with_snapshot(books[key], event) is Err
        }),
    ensures
        with_event(books, event) == books,
{
    assert(with_event(books, event) =~= books);
}

} // verus!
