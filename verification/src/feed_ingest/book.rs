use vstd::prelude::*;

use crate::feed_ingest::error::{FeedError, ProtocolError};
use crate::feed_ingest::event::{parse_fixed_x18_raw, BookEvent, OrderbookSide};
use crate::float_bits;
use crate::float_bits::{F64Bits, TWO};
use crate::float_math;
use crate::float_order;
use crate::ordering;
use crate::text;
use crate::text::same_text;
use crate::tick_math::FixedX18;

verus! {

/// One populated price level.
#[derive(Debug, Clone, Copy, PartialEq, Eq, Structural)]
pub struct Level {
    /// Bucket index as it came over the wire.
    pub ia: F64Bits,
    pub rate: F64Bits,
    pub size: FixedX18,
}

/// The best levels of both sides.
#[derive(Debug, Clone)]
pub struct BookDepth {
    pub bids: Vec<Level>,
    pub asks: Vec<Level>,
    pub block_number: u64,
    pub timestamp: u64,
}

/// What keeps a book side from being decoded.
pub enum SideFault {
    Lengths { ia: nat, sz: nat },
    BadSize(Seq<char>),
}

/// Whether an error reports a fault.
pub open spec fn reports(e: FeedError, fault: SideFault) -> bool {
    match fault {
        SideFault::Lengths { ia, sz } => e matches FeedError::Protocol(
            ProtocolError::SideLengths { ia: a, sz: b },
        ) && a == ia && b == sz,
        SideFault::BadSize(shown) => e matches FeedError::FixedX18(s) && s@ == shown,
    }
}

/// The levels of the first `n` buckets: empty ones (size `0`) are left out, and
/// the first size that is no number is the fault.
pub open spec fn levels_of(side: OrderbookSide, tick_size: F64Bits, n: nat) -> Result<
    Seq<Level>,
    SideFault,
>
    decreases n,
{
    if n == 0 {
        Ok(Seq::empty())
    } else {
        match levels_of(side, tick_size, (n - 1) as nat) {
            Err(fault) => Err(fault),
            Ok(levels) => {
                let shown = side.sz@[n - 1]@;
                if shown == "0"@ {
                    Ok(levels)
                } else {
                    match text::signed_value(shown) {
                        None => Err(SideFault::BadSize(shown)),
                        Some(v) => Ok(
                            levels.push(
                                Level {
                                    ia: side.ia@[n - 1],
                                    rate: float_math::product(side.ia@[n - 1], tick_size),
                                    size: FixedX18(v),
                                },
                            ),
                        ),
                    }
                }
            },
        }
    }
}

/// The levels of a book side in wire order.
pub open spec fn decoded(side: OrderbookSide, tick_size: F64Bits) -> Result<Seq<Level>, SideFault> {
    if side.ia@.len() != side.sz@.len() {
        Err(SideFault::Lengths { ia: side.ia@.len(), sz: side.sz@.len() })
    } else {
        levels_of(side, tick_size, side.ia@.len())
    }
}

/// The sorting key of a level: higher rates come first among bids, lower rates
/// first among asks.
pub open spec fn rank_key(bids: bool) -> spec_fn(Level) -> int {
    |level: Level|
        if bids {
            -float_bits::total_rank(level.rate)
        } else {
            float_bits::total_rank(level.rate)
        }
}

/// Levels best first; equally good ones keep their order.
pub open spec fn ranked(levels: Seq<Level>, bids: bool) -> Seq<Level> {
    ordering::stably_sorted(levels, rank_key(bids))
}

/// No level is better than one before it.
pub open spec fn best_first(levels: Seq<Level>, bids: bool) -> bool {
    ordering::ascends(levels, rank_key(bids))
}

fn is_better(a: Level, b: Level, bids: bool) -> (r: bool)
    ensures
        r == (rank_key(bids)(a) < rank_key(bids)(b)),
{
    if bids {
        b.rate.total_less(a.rate)
    } else {
        a.rate.total_less(b.rate)
    }
}

/// Puts a level in its place in a ranked list.
fn insert_level(levels: &mut Vec<Level>, level: Level, bids: bool)
    ensures
        final(levels)@ == ordering::inserted(old(levels)@, level, rank_key(bids)),
{
    let mut pos: usize = levels.len();
    while pos > 0 && is_better(level, levels[pos - 1], bids)
        invariant
            pos <= levels.len(),
            forall|i: int|
                pos <= i < levels@.len() ==> rank_key(bids)(#[trigger] levels@[i]) > rank_key(bids)(level),
        decreases pos,
    {
        pos = pos - 1;
    }
    proof {
        ordering::lemma_inserted_at(levels@, level, rank_key(bids), pos as int);
    }
    levels.insert(pos, level);
}

/// Decodes a book side into levels, best first.
fn decode_side(side: &OrderbookSide, tick_size: F64Bits, bids: bool) -> (r: Result<Vec<Level>, FeedError>)
    ensures
        match decoded(*side, tick_size) {
            Ok(levels) => r matches Ok(v) && v@ == ranked(levels, bids),
            Err(fault) => r matches Err(e) && reports(e, fault),
        },
{
    if side.ia.len() != side.sz.len() {
        return Err(
            FeedError::Protocol(
                ProtocolError::SideLengths { ia: side.ia.len(), sz: side.sz.len() },
            ),
        );
    }
    let ghost mut levels: Seq<Level> = Seq::empty();
    let mut out: Vec<Level> = Vec::new();
    let mut i: usize = 0;
    while i < side.ia.len()
        invariant
            i <= side.ia@.len(),
            side.ia@.len() == side.sz@.len(),
            levels_of(*side, tick_size, i as nat) == Ok::<Seq<Level>, SideFault>(levels),
            out@ == ranked(levels, bids),
        decreases side.ia@.len() - i,
    {
        let sz: &String = &side.sz[i];
        if !same_text(sz.as_str(), "0") {
            match parse_fixed_x18_raw(sz.as_str()) {
                Err(e) => {
                    proof {
                        lemma_levels_stop(*side, tick_size, (i + 1) as nat, side.ia@.len());
                    }
                    return Err(e);
                },
                Ok(size) => {
                    let ia: F64Bits = side.ia[i];
                    let level: Level = Level { ia, rate: ia.times(tick_size), size };
                    insert_level(&mut out, level, bids);
                    proof {
                        assert(levels.push(level).drop_last() == levels);
                        levels = levels.push(level);
                    }
                },
            }
        }
        i = i + 1;
    }
    Ok(out)
}

proof fn lemma_levels_stop(side: OrderbookSide, tick_size: F64Bits, n: nat, total: nat)
    requires
        n <= total,
        levels_of(side, tick_size, n) is Err,
    ensures
        levels_of(side, tick_size, total) == levels_of(side, tick_size, n),
    decreases total,
{
    if n < total {
        lemma_levels_stop(side, tick_size, n, (total - 1) as nat);
    }
}

/// What a book holds.
#[verifier::ext_equal]
pub struct BookModel {
    pub market_id: u32,
    pub tick_size: F64Bits,
    /// Best first: highest rate first.
    pub bids: Seq<Level>,
    /// Best first: lowest rate first.
    pub asks: Seq<Level>,
    pub block_number: u64,
    pub timestamp: u64,
    pub initialized: bool,
}

impl BookModel {
    pub open spec fn wf(self) -> bool {
        best_first(self.bids, true) && best_first(self.asks, false)
    }
}

/// A book with a snapshot in place of what it held, or why the snapshot cannot
/// be decoded.
pub open spec fn with_snapshot(book: BookModel, event: BookEvent) -> Result<BookModel, SideFault> {
    match decoded(event.long, book.tick_size) {
        Err(fault) => Err(fault),
        Ok(bids) => match decoded(event.short, book.tick_size) {
            Err(fault) => Err(fault),
            Ok(asks) => Ok(
                BookModel {
                    bids: ranked(bids, true),
                    asks: ranked(asks, false),
                    block_number: event.sync_status.block_number,
                    timestamp: event.sync_status.timestamp,
                    initialized: true,
                    ..book
                },
            ),
        },
    }
}

/// The order book of one market. Long orders are bids, short orders asks.
pub struct OrderBook {
    market_id: u32,
    tick_size: F64Bits,
    bids: Vec<Level>,
    asks: Vec<Level>,
    block_number: u64,
    timestamp: u64,
    initialized: bool,
}

impl View for OrderBook {
    type V = BookModel;

    closed spec fn view(&self) -> BookModel {
        BookModel {
            market_id: self.market_id,
            tick_size: self.tick_size,
            bids: self.bids@,
            asks: self.asks@,
            block_number: self.block_number,
            timestamp: self.timestamp,
            initialized: self.initialized,
        }
    }
}

/// A book before its first snapshot.
pub open spec fn blank_book(market_id: u32, tick_size: F64Bits) -> BookModel {
    BookModel {
        market_id,
        tick_size,
        bids: Seq::empty(),
        asks: Seq::empty(),
        block_number: 0,
        timestamp: 0,
        initialized: false,
    }
}

/// The first of a list.
pub open spec fn first_of(levels: Seq<Level>) -> Option<Level> {
    if levels.len() > 0 {
        Some(levels[0])
    } else {
        None
    }
}

/// Best bid and best ask, where both sides have one.
pub open spec fn best_pair(book: BookModel) -> Option<(Level, Level)> {
    if book.bids.len() > 0 && book.asks.len() > 0 {
        Some((book.bids[0], book.asks[0]))
    } else {
        None
    }
}

/// The middle between best bid and best ask.
pub open spec fn mid_of(book: BookModel) -> Option<F64Bits> {
    match best_pair(book) {
        None => None,
        Some((bid, ask)) => Some(
            float_math::quotient(
                float_math::sum(bid.rate, ask.rate),
                F64Bits(TWO),
            ),
        ),
    }
}

/// Best ask minus best bid, never below zero.
pub open spec fn spread_of(book: BookModel) -> Option<F64Bits> {
    match best_pair(book) {
        None => None,
        Some((bid, ask)) => Some(
            float_bits::greater_of(float_math::difference(ask.rate, bid.rate), F64Bits(0)),
        ),
    }
}

/// At most the first `n` of a list.
pub open spec fn at_most(levels: Seq<Level>, n: nat) -> Seq<Level> {
    if n < levels.len() {
        levels.take(n as int)
    } else {
        levels
    }
}

fn take_levels(levels: &Vec<Level>, n: usize) -> (r: Vec<Level>)
    ensures
        r@ == at_most(levels@, n as nat),
{
    let mut out: Vec<Level> = Vec::new();
    let mut i: usize = 0;
    while i < levels.len() && i < n
        invariant
            i <= levels@.len(),
            i <= n,
            out@ == levels@.take(i as int),
        decreases levels@.len() - i,
    {
        out.push(levels[i]);
        i = i + 1;
    }
    assert(i == levels@.len() ==> levels@.take(i as int) == levels@);
    out
}

impl OrderBook {
    pub fn new(market_id: u32, tick_size: F64Bits) -> (r: Self)
        ensures
            r@ == blank_book(market_id, tick_size),
            r@.wf(),
    {
        OrderBook {
            market_id,
            tick_size,
            bids: Vec::new(),
            asks: Vec::new(),
            block_number: 0,
            timestamp: 0,
            initialized: false,
        }
    }

    /// Replaces the book with a snapshot. One that does not decode leaves the
    /// book as it was.
    pub fn apply(&mut self, event: &BookEvent) -> (r: Result<(), FeedError>)
        ensures
            match with_snapshot(old(self)@, *event) {
                Ok(book) => r is Ok && final(self)@ == book && final(self)@.wf(),
                Err(fault) => (r matches Err(e) && reports(e, fault)) && final(self)@ == old(self)@,
            },
    {
        let bids: Vec<Level> = match decode_side(&event.long, self.tick_size, true) {
            Ok(levels) => levels,
            Err(e) => {
                return Err(e);
            },
        };
        let asks: Vec<Level> = match decode_side(&event.short, self.tick_size, false) {
            Ok(levels) => levels,
            Err(e) => {
                return Err(e);
            },
        };
        proof {
            ordering::law_sorting_permutes_into_order(
                decoded(event.long, self.tick_size)->Ok_0,
                rank_key(true),
            );
            ordering::law_sorting_permutes_into_order(
                decoded(event.short, self.tick_size)->Ok_0,
                rank_key(false),
            );
        }
        self.bids = bids;
        self.asks = asks;
        self.block_number = event.sync_status.block_number;
        self.timestamp = event.sync_status.timestamp;
        self.initialized = true;
        Ok(())
    }

    pub fn best_bid(&self) -> (r: Option<Level>)
        ensures
            r == first_of(self@.bids),
    {
        if self.bids.len() > 0 {
            Some(self.bids[0])
        } else {
            None
        }
    }

    pub fn best_ask(&self) -> (r: Option<Level>)
        ensures
            r == first_of(self@.asks),
    {
        if self.asks.len() > 0 {
            Some(self.asks[0])
        } else {
            None
        }
    }

    /// Best bid and best ask, where both sides have one.
    pub fn bbo(&self) -> (r: Option<(Level, Level)>)
        ensures
            r == best_pair(self@),
    {
        match self.best_bid() {
            None => None,
            Some(bid) => match self.best_ask() {
                None => None,
                Some(ask) => Some((bid, ask)),
            },
        }
    }

    /// The middle between best bid and best ask.
    pub fn mid_rate(&self) -> (r: Option<F64Bits>)
        ensures
            r == mid_of(self@),
    {
        match self.bbo() {
            None => None,
            Some((bid, ask)) => Some(bid.rate.plus(ask.rate).over(F64Bits(TWO))),
        }
    }

    /// Best ask minus best bid. A crossed book has none.
    pub fn spread(&self) -> (r: Option<F64Bits>)
        ensures
            r == spread_of(self@),
    {
        match self.bbo() {
            None => None,
            Some((bid, ask)) => Some(ask.rate.minus(bid.rate).greater(F64Bits(0))),
        }
    }

    /// At most `n` levels of each side, best first.
    pub fn depth(&self, n: usize) -> (r: BookDepth)
        ensures
            r.bids@ == at_most(self@.bids, n as nat),
            r.asks@ == at_most(self@.asks, n as nat),
            r.block_number == self@.block_number,
            r.timestamp == self@.timestamp,
    {
        BookDepth {
            bids: take_levels(&self.bids, n),
            asks: take_levels(&self.asks, n),
            block_number: self.block_number,
            timestamp: self.timestamp,
        }
    }

    pub fn market_id(&self) -> (r: u32)
        ensures
            r == self@.market_id,
    {
        self.market_id
    }

    pub fn tick_size(&self) -> (r: F64Bits)
        ensures
            r == self@.tick_size,
    {
        self.tick_size
    }

    pub fn block_number(&self) -> (r: u64)
        ensures
            r == self@.block_number,
    {
        self.block_number
    }

    pub fn is_initialized(&self) -> (r: bool)
        ensures
            r == self@.initialized,
    {
        self.initialized
    }

    pub fn bid_levels(&self) -> (r: usize)
        ensures
            r == self@.bids.len(),
    {
        self.bids.len()
    }

    pub fn ask_levels(&self) -> (r: usize)
        ensures
            r == self@.asks.len(),
    {
        self.asks.len()
    }
}

/// Nothing of an earlier snapshot survives a later one.
pub proof fn law_snapshot_replaces_the_book(a: BookModel, b: BookModel, event: BookEvent)
    requires
        a.market_id == b.market_id,
        a.tick_size == b.tick_size,
        with_snapshot(a, event) is Ok,
    ensures
        with_snapshot(a, event) == with_snapshot(b, event),
{
}

/// The best bid is at least as high as every bid, the best ask at most as high
/// as every ask.
pub proof fn law_best_levels_are_extreme(book: BookModel, i: int)
    requires
        book.wf(),
    ensures
        0 <= i < book.bids.len() ==> float_bits::total_rank(book.bids[i].rate)
            <= float_bits::total_rank(book.bids[0].rate),
        0 <= i < book.asks.len() ==> float_bits::total_rank(book.asks[0].rate)
            <= float_bits::total_rank(book.asks[i].rate),
{
    if 0 < i < book.bids.len() {
        assert(rank_key(true)(book.bids[0]) <= rank_key(true)(book.bids[i]));
    }
    if 0 < i < book.asks.len() {
        assert(rank_key(false)(book.asks[0]) <= rank_key(false)(book.asks[i]));
    }
}

/// A spread is never below zero, even in a crossed book.
pub proof fn law_spread_is_not_negative(book: BookModel)
    ensures
        spread_of(book) matches Some(s) ==> !float_bits::less(s, F64Bits(0)) && !float_bits::nan(s),
{
}

/// The mid rate of a book that is not crossed lies between its best bid and its
/// best ask.
pub proof fn law_mid_lies_between_the_best(book: BookModel)
    requires
        best_pair(book) matches Some((bid, ask)) && float_order::at_most(bid.rate, ask.rate)
            && float_bits::finite(bid.rate) && float_bits::finite(ask.rate) && float_bits::finite(
            float_math::sum(bid.rate, bid.rate),
        ) && float_bits::finite(float_math::sum(ask.rate, ask.rate)),
    ensures
        mid_of(book) matches Some(mid) && float_order::at_most(book.bids[0].rate, mid)
            && float_order::at_most(mid, book.asks[0].rate),
{
    float_order::law_mean_lies_between(book.bids[0].rate, book.asks[0].rate);
}

} // verus!
