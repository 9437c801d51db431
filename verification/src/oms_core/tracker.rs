use vstd::prelude::*;
use std::collections::HashMap;

use crate::float_bits::F64Bits;
use crate::keys::map_keys;
use crate::oms_core::error::OmsError;
use crate::oms_core::order_id;
use crate::oms_core::order_id::{OrderId, Side};
use crate::oms_core::types;
use crate::oms_core::types::{LocalOrderStatus, Trade};
use crate::tick_math::conversion;
use crate::tick_math::fixed;
use crate::tick_math::{tick_to_rate, FixedX18};

verus! {

/// One of the account's own orders.
#[derive(Debug, Clone, Copy, PartialEq, Eq, Structural)]
pub struct LocalOrder {
    pub id: OrderId,
    pub side: Side,
    pub tick_index: i16,
    pub original_size: FixedX18,
    pub filled_size: FixedX18,
    pub status: LocalOrderStatus,
}

/// An order as it is when it is placed.
pub open spec fn fresh_order(id: OrderId, size: FixedX18) -> LocalOrder {
    LocalOrder {
        id,
        side: order_id::side_of(id.bits()),
        tick_index: order_id::tick_of(id.bits()),
        original_size: size,
        filled_size: FixedX18(0),
        status: LocalOrderStatus::Open,
    }
}

impl LocalOrder {
    /// What is left to fill.
    pub open spec fn remaining(self) -> FixedX18 {
        FixedX18(fixed::wrapped_sub(self.original_size.0, self.filled_size.0))
    }

    /// Whether nothing more will happen to the order.
    pub open spec fn terminal(self) -> bool {
        self.status == LocalOrderStatus::Filled || self.status == LocalOrderStatus::Cancelled
            || self.status == LocalOrderStatus::ForcedCancelled
    }

    /// The order once it is filled to its full size.
    pub open spec fn fully_filled(self) -> LocalOrder {
        LocalOrder { filled_size: self.original_size, status: LocalOrderStatus::Filled, ..self }
    }

    /// The order once a further part of it is filled.
    pub open spec fn filled_by(self, delta: FixedX18) -> LocalOrder {
        let filled_size = FixedX18(fixed::wrapped_add(self.filled_size.0, delta.0));
        let left = fixed::wrapped_sub(self.original_size.0, filled_size.0);
        LocalOrder {
            filled_size,
            status: if left == 0 {
                LocalOrderStatus::Filled
            } else {
                LocalOrderStatus::PartiallyFilled
            },
            ..self
        }
    }

    fn new(id: OrderId, size: FixedX18) -> (r: Self)
        ensures
            r == fresh_order(id, size),
    {
        LocalOrder {
            id,
            side: id.side(),
            tick_index: id.tick_index(),
            original_size: size,
            filled_size: FixedX18::zero(),
            status: LocalOrderStatus::Open,
        }
    }

    pub fn remaining_size(&self) -> (r: FixedX18)
        ensures
            r == self.remaining(),
    {
        self.original_size - self.filled_size
    }

    pub fn is_terminal(&self) -> (r: bool)
        ensures
            r == self.terminal(),
    {
        match self.status {
            LocalOrderStatus::Filled => true,
            LocalOrderStatus::Cancelled => true,
            LocalOrderStatus::ForcedCancelled => true,
            LocalOrderStatus::Open => false,
            LocalOrderStatus::PartiallyFilled => false,
        }
    }
}

/// The trade of filling part of an order: a resting order fills at the rate of
/// its own tick, and the side gives the sign of the size.
pub open spec fn fill_trade(
    tick_step: u8,
    side: Side,
    tick: i16,
    delta: FixedX18,
    power: F64Bits,
) -> Result<Trade, OmsError> {
    match conversion::rate_of_tick(tick, tick_step, conversion::magnitude_of(power)) {
        Err(e) => Err(OmsError::Math(e)),
        Ok(rate) => types::trade_at(types::signed_for(side, delta), rate),
    }
}

fn build_trade(
    tick_step: u8,
    side: Side,
    tick_index: i16,
    filled_delta: FixedX18,
    power: F64Bits,
) -> (r: Result<Trade, OmsError>)
    requires
        side == Side::Short ==> filled_delta.0 != i128::MIN,
    ensures
        r == fill_trade(tick_step, side, tick_index, filled_delta, power),
{
    match tick_to_rate(tick_index, tick_step, power) {
        Err(e) => Err(OmsError::Math(e)),
        Ok(rate) => Trade::from3(side, filled_delta, rate),
    }
}

/// Orders after the first `n` placements of a batch.
pub open spec fn placed(
    orders: Map<u64, LocalOrder>,
    ids: Seq<OrderId>,
    sizes: Seq<FixedX18>,
    n: nat,
) -> Map<u64, LocalOrder>
    decreases n,
{
    if n == 0 {
        orders
    } else {
        placed(orders, ids, sizes, (n - 1) as nat).insert(
            ids[n - 1].bits(),
            fresh_order(ids[n - 1], sizes[n - 1]),
        )
    }
}

/// Whether a batch of ids lists a raw value.
pub open spec fn lists(ids: Seq<OrderId>, bits: u64) -> bool {
    exists|i: int| 0 <= i < ids.len() && (#[trigger] ids[i]).bits() == bits
}

/// Orders with the listed ones moved to a status; unknown ids are ignored.
pub open spec fn with_status(
    orders: Map<u64, LocalOrder>,
    ids: Seq<OrderId>,
    status: LocalOrderStatus,
) -> Map<u64, LocalOrder> {
    Map::new(
        |bits: u64| orders.contains_key(bits),
        |bits: u64|
            if lists(ids, bits) {
                LocalOrder { status, ..orders[bits] }
            } else {
                orders[bits]
            },
    )
}

/// The raw id of the order `n` places behind the start of a range.
pub open spec fn range_id(side: Side, tick: i16, first: int, n: int) -> u64 {
    order_id::packed(side, tick, first + n) as u64
}

/// Orders after a filled range of `n` indices, and the trades of the account's
/// own orders in it, in index order. Orders of other accounts are skipped. A
/// trade that is not representable ends the walk behind its own order.
pub open spec fn swept(
    orders: Map<u64, LocalOrder>,
    tick_step: u8,
    side: Side,
    tick: i16,
    first: int,
    n: nat,
    power: F64Bits,
) -> (Map<u64, LocalOrder>, Result<Seq<Trade>, OmsError>)
    decreases n,
{
    if n == 0 {
        (orders, Ok(Seq::empty()))
    } else {
        let (done, trades) = swept(orders, tick_step, side, tick, first, (n - 1) as nat, power);
        let bits = range_id(side, tick, first, n - 1);
        match trades {
            Err(e) => (done, Err(e)),
            Ok(seen) => if !done.contains_key(bits) {
                (done, Ok(seen))
            } else {
                let order = done[bits];
                let next = done.insert(bits, order.fully_filled());
                if order.remaining().0 == 0 {
                    (next, Ok(seen))
                } else {
                    match fill_trade(tick_step, side, tick, order.remaining(), power) {
                        Err(e) => (next, Err(e)),
                        Ok(trade) => (next, Ok(seen.push(trade))),
                    }
                }
            },
        }
    }
}

/// Why a pair of ids is no filled range, if it is none.
pub open spec fn range_fault(from: OrderId, to: OrderId) -> Option<OmsError> {
    if order_id::side_of(from.bits()) != order_id::side_of(to.bits()) || order_id::tick_of(
        from.bits(),
    ) != order_id::tick_of(to.bits()) {
        Some(OmsError::InvalidFillRange { from, to })
    } else if order_id::index_of(to.bits()) < order_id::index_of(from.bits()) {
        Some(
            OmsError::InvertedFillRange(
                order_id::index_of(to.bits()) as u64,
                order_id::index_of(from.bits()) as u64,
            ),
        )
    } else {
        None
    }
}

/// What a filled range does to a set of orders.
pub open spec fn sweep(
    orders: Map<u64, LocalOrder>,
    tick_step: u8,
    from: OrderId,
    to: OrderId,
    power: F64Bits,
) -> (Map<u64, LocalOrder>, Result<Seq<Trade>, OmsError>) {
    match range_fault(from, to) {
        Some(e) => (orders, Err(e)),
        None => swept(
            orders,
            tick_step,
            order_id::side_of(from.bits()),
            order_id::tick_of(from.bits()),
            order_id::index_of(from.bits()),
            (order_id::index_of(to.bits()) - order_id::index_of(from.bits()) + 1) as nat,
            power,
        ),
    }
}

/// Every own order in a short range has a remainder that can be negated.
pub open spec fn remainders_have_opposites(
    orders: Map<u64, LocalOrder>,
    side: Side,
    tick: i16,
    first: int,
    last: int,
) -> bool {
    side == Side::Short ==> forall|k: int|
        #![trigger range_id(side, tick, first, k)]
        0 <= k <= last - first && orders.contains_key(range_id(side, tick, first, k)) ==> orders[range_id(
            side,
            tick,
            first,
            k,
        )].remaining().0 != i128::MIN
}

/// Tracks the account's own resting orders of one market against the
/// market-wide event stream.
pub struct OrderTracker {
    orders: HashMap<u64, LocalOrder>,
    tick_step: u8,
}

impl View for OrderTracker {
    type V = Map<u64, LocalOrder>;

    /// Orders by raw id.
    closed spec fn view(&self) -> Map<u64, LocalOrder> {
        self.orders@
    }
}

impl OrderTracker {
    /// Tick step of the market.
    pub closed spec fn step(&self) -> u8 {
        self.tick_step
    }

    /// Each order stands under its own id and carries that id's side and tick.
    pub open spec fn wf(&self) -> bool {
        forall|bits: u64| #[trigger]
            self@.contains_key(bits) ==> {
                &&& self@[bits].id.bits() == bits
                &&& self@[bits].side == order_id::side_of(bits)
                &&& self@[bits].tick_index == order_id::tick_of(bits)
            }
    }

    /// A tracker with no orders.
    pub fn new(tick_step: u8) -> (r: Self)
        ensures
            r.wf(),
            r@ == Map::<u64, LocalOrder>::empty(),
            r.step() == tick_step,
    {
        OrderTracker { orders: HashMap::new(), tick_step }
    }

    /// Records orders that this account placed. A batch of unequal lengths is
    /// refused as a whole.
    pub fn on_placed(&mut self, ids: &[OrderId], sizes: &[FixedX18]) -> (r: Result<(), OmsError>)
        requires
            old(self).wf(),
        ensures
            final(self).wf(),
            final(self).step() == old(self).step(),
            ids@.len() != sizes@.len() ==> final(self)@ == old(self)@ && r == Err::<(), OmsError>(
                OmsError::MismatchedPlacedLengths {
                    ids: ids@.len() as usize,
                    sizes: sizes@.len() as usize,
                },
            ),
            ids@.len() == sizes@.len() ==> r is Ok && final(self)@ == placed(
                old(self)@,
                ids@,
                sizes@,
                ids@.len(),
            ),
    {
        if ids.len() != sizes.len() {
            return Err(OmsError::MismatchedPlacedLengths { ids: ids.len(), sizes: sizes.len() });
        }
        let mut i: usize = 0;
        while i < ids.len()
            invariant
                i <= ids@.len(),
                ids@.len() == sizes@.len(),
                self.wf(),
                self.step() == old(self).step(),
                self@ == placed(old(self)@, ids@, sizes@, i as nat),
            decreases ids@.len() - i,
        {
            let id: OrderId = ids[i];
            self.orders.insert(id.raw(), LocalOrder::new(id, sizes[i]));
            i = i + 1;
        }
        Ok(())
    }

    /// Marks a contiguous range of one tick as fully filled and returns one
    /// trade per own order that had something left. `power` belongs to the
    /// range's tick, as [`tick_to_rate`] takes it.
    pub fn on_filled_range(
        &mut self,
        from: OrderId,
        to: OrderId,
        power: F64Bits,
    ) -> (r: Result<Vec<Trade>, OmsError>)
        requires
            old(self).wf(),
            range_fault(from, to) is None ==> remainders_have_opposites(
                old(self)@,
                order_id::side_of(from.bits()),
                order_id::tick_of(from.bits()),
                order_id::index_of(from.bits()),
                order_id::index_of(to.bits()),
            ),
        ensures
            final(self).wf(),
            final(self).step() == old(self).step(),
            ({
                let (orders, trades) = sweep(old(self)@, old(self).step(), from, to, power);
                &&& final(self)@ == orders
                &&& match trades {
                    Ok(ts) => r matches Ok(v) && v@ == ts,
                    Err(e) => r matches Err(err) && err == e,
                }
            }),
    {
        let (side_from, tick_from, idx_from) = from.unpack();
        let (side_to, tick_to, idx_to) = to.unpack();
        if side_from != side_to || tick_from != tick_to {
            return Err(OmsError::InvalidFillRange { from, to });
        }
        if idx_to < idx_from {
            return Err(OmsError::InvertedFillRange(idx_to, idx_from));
        }
        let mut trades: Vec<Trade> = Vec::new();
        let mut idx: u64 = idx_from;
        let ghost first = idx_from as int;
        let ghost total = (idx_to - idx_from + 1) as nat;
        let ghost before = self@;
        let ghost step = self.step();
        assert(idx_to < order_id::index_span()) by {
            assert(idx_to == order_id::index_of(to.bits()));
        }
        while idx <= idx_to
            invariant
                idx_from <= idx <= idx_to + 1,
                idx_to < order_id::index_span(),
                first == idx_from,
                total == idx_to - idx_from + 1,
                self.wf(),
                self.step() == step,
                self.step() == old(self).step(),
                before == old(self)@,
                remainders_have_opposites(self@, side_from, tick_from, first, idx_to as int),
                range_fault(from, to) is None,
                side_from == order_id::side_of(from.bits()),
                tick_from == order_id::tick_of(from.bits()),
                idx_from == order_id::index_of(from.bits()),
                idx_to == order_id::index_of(to.bits()),
                swept(before, step, side_from, tick_from, first, (idx - idx_from) as nat, power) == (
                    self@,
                    Ok::<Seq<Trade>, OmsError>(trades@),
                ),
            decreases idx_to + 1 - idx,
        {
            let ghost n = (idx - idx_from) as nat;
            let ghost seen = trades@;
            proof {
                order_id::law_unpack_of_packed(side_from, tick_from, idx as int);
            }
            match OrderId::from_parts(side_from, tick_from, idx) {
                Err(e) => {
                    return Err(e);
                },
                Ok(id) => {
                    let key: u64 = id.raw();
                    assert(key == range_id(side_from, tick_from, first, n as int));
                    let known: Option<LocalOrder> = match self.orders.get(&key) {
                        Some(order) => Some(*order),
                        None => None,
                    };
                    match known {
                        None => {},
                        Some(order) => {
                            assert(self@.contains_key(key));
                            let remaining: FixedX18 = order.remaining_size();
                            let mut filled: LocalOrder = order;
                            filled.filled_size = order.original_size;
                            filled.status = LocalOrderStatus::Filled;
                            self.orders.insert(key, filled);
                            if !remaining.is_zero() {
                                match build_trade(
                                    self.tick_step,
                                    order.side,
                                    order.tick_index,
                                    remaining,
                                    power,
                                ) {
                                    Ok(trade) => {
                                        trades.push(trade);
                                    },
                                    Err(e) => {
                                        proof {
                                            lemma_sweep_stops(
                                                before,
                                                step,
                                                side_from,
                                                tick_from,
                                                first,
                                                n + 1,
                                                total,
                                                power,
                                            );
                                        }
                                        return Err(e);
                                    },
                                }
                            }
                        },
                    }
                },
            }
            idx = idx + 1;
        }
        Ok(trades)
    }

    /// Adds an incremental fill to an own order and returns its trade, or
    /// `None` for an order of another account. The fill counts even where its
    /// trade is not representable. `power` belongs to the order's tick, as
    /// [`tick_to_rate`] takes it.
    pub fn on_partially_filled(
        &mut self,
        id: OrderId,
        filled_size_delta: FixedX18,
        power: F64Bits,
    ) -> (r: Result<Option<Trade>, OmsError>)
        requires
            old(self).wf(),
            order_id::side_of(id.bits()) == Side::Short ==> filled_size_delta.0 != i128::MIN,
        ensures
            final(self).wf(),
            final(self).step() == old(self).step(),
            !old(self)@.contains_key(id.bits()) ==> r == Ok::<Option<Trade>, OmsError>(None)
                && final(self)@ == old(self)@,
            old(self)@.contains_key(id.bits()) ==> {
                let order = old(self)@[id.bits()];
                &&& final(self)@ == old(self)@.insert(id.bits(), order.filled_by(filled_size_delta))
                &&& match fill_trade(
                    old(self).step(),
                    order.side,
                    order.tick_index,
                    filled_size_delta,
                    power,
                ) {
                    Ok(trade) => r == Ok::<Option<Trade>, OmsError>(Some(trade)),
                    Err(e) => r == Err::<Option<Trade>, OmsError>(e),
                }
            },
    {
        let key: u64 = id.raw();
        let known: Option<LocalOrder> = match self.orders.get(&key) {
            Some(order) => Some(*order),
            None => None,
        };
        match known {
            None => Ok(None),
            Some(order) => {
                assert(self@.contains_key(key));
                let mut next: LocalOrder = order;
                next.filled_size = order.filled_size + filled_size_delta;
                next.status = if next.remaining_size().is_zero() {
                    LocalOrderStatus::Filled
                } else {
                    LocalOrderStatus::PartiallyFilled
                };
                self.orders.insert(key, next);
                match build_trade(
                    self.tick_step,
                    order.side,
                    order.tick_index,
                    filled_size_delta,
                    power,
                ) {
                    Ok(trade) => Ok(Some(trade)),
                    Err(e) => Err(e),
                }
            },
        }
    }

    /// Moves the listed own orders to a status.
    fn set_status(&mut self, ids: &[OrderId], status: LocalOrderStatus)
        requires
            old(self).wf(),
        ensures
            final(self).wf(),
            final(self).step() == old(self).step(),
            final(self)@ == with_status(old(self)@, ids@, status),
    {
        let ghost before = self@;
        let mut i: usize = 0;
        while i < ids.len()
            invariant
                i <= ids@.len(),
                self.wf(),
                self.step() == old(self).step(),
                before == old(self)@,
                self@ =~= with_status(before, ids@.take(i as int), status),
            decreases ids@.len() - i,
        {
            let key: u64 = ids[i].raw();
            let ghost current = self@;
            let known: Option<LocalOrder> = match self.orders.get(&key) {
                Some(order) => Some(*order),
                None => None,
            };
            match known {
                None => {},
                Some(order) => {
                    assert(self@.contains_key(key));
                    let mut next: LocalOrder = order;
                    next.status = status;
                    self.orders.insert(key, next);
                },
            }
            proof {
                let head = ids@.take(i as int);
                let longer = ids@.take(i + 1);
                assert forall|bits: u64| lists(longer, bits) == (lists(head, bits) || bits == key) by {
                    if lists(head, bits) {
                        let k = choose|k: int| 0 <= k < head.len() && (#[trigger] head[k]).bits() == bits;
                        assert(longer[k].bits() == bits);
                    }
                    if bits == key {
                        assert(longer[i as int].bits() == bits);
                    }
                    if lists(longer, bits) && bits != key {
                        let k = choose|k: int| 0 <= k < longer.len() && (#[trigger] longer[k]).bits() == bits;
                        assert(head[k].bits() == bits);
                    }
                }
                assert(self@ =~= with_status(before, longer, status));
            }
            i = i + 1;
        }
        assert(ids@.take(i as int) == ids@);
    }

    /// Cancellation by the user.
    pub fn on_cancelled(&mut self, ids: &[OrderId])
        requires
            old(self).wf(),
        ensures
            final(self).wf(),
            final(self).step() == old(self).step(),
            final(self)@ == with_status(old(self)@, ids@, LocalOrderStatus::Cancelled),
    {
        self.set_status(ids, LocalOrderStatus::Cancelled);
    }

    /// Removal by the protocol's purge.
    pub fn on_forced_cancelled(&mut self, ids: &[OrderId])
        requires
            old(self).wf(),
        ensures
            final(self).wf(),
            final(self).step() == old(self).step(),
            final(self)@ == with_status(old(self)@, ids@, LocalOrderStatus::ForcedCancelled),
    {
        self.set_status(ids, LocalOrderStatus::ForcedCancelled);
    }

    /// An own order, if it is known.
    pub fn get(&self, id: OrderId) -> (r: Option<&LocalOrder>)
        ensures
            match r {
                Some(order) => self@.contains_key(id.bits()) && *order == self@[id.bits()],
                None => !self@.contains_key(id.bits()),
            },
    {
        self.orders.get(&id.raw())
    }

    /// The orders that are not terminal, each once, in no particular order.
    pub fn open_orders(&self) -> (r: Vec<LocalOrder>)
        requires
            self.wf(),
        ensures
            forall|order: LocalOrder| #[trigger]
                r@.contains(order) <==> exists|bits: u64| #[trigger]
                    self@.contains_key(bits) && self@[bits] == order && !order.terminal(),
            r@.no_duplicates(),
    {
        let keys: Vec<u64> = map_keys(&self.orders);
        let mut out: Vec<LocalOrder> = Vec::new();
        let mut i: usize = 0;
        while i < keys.len()
            invariant
                i <= keys.len(),
                self.wf(),
                keys@.no_duplicates(),
                keys@.to_set() == self@.dom(),
                forall|j: int|
                    0 <= j < out@.len() ==> (exists|k: int|
                        0 <= k < i && #[trigger] keys@[k] == (#[trigger] out@[j]).id.bits() && self@[keys@[k]]
                            == out@[j] && !out@[j].terminal()),
                forall|k: int|
                    0 <= k < i && !self@[#[trigger] keys@[k]].terminal() ==> out@.contains(self@[keys@[k]]),
                out@.no_duplicates(),
            decreases keys.len() - i,
        {
            let key: u64 = keys[i];
            assert(keys@.to_set().contains(key));
            assert(self@.contains_key(key));
            match self.orders.get(&key) {
                None => {},
                Some(order) => {
                    if !order.is_terminal() {
                        let ghost shown = out@;
                        out.push(*order);
                        proof {
                            assert(out@[shown.len() as int] == *order);
                            assert(order.id.bits() == keys@[i as int]);
                            assert forall|k: int|
                                0 <= k < i + 1 && !self@[#[trigger] keys@[k]].terminal() implies out@.contains(
                                self@[keys@[k]],
                            ) by {
                                if k < i {
                                    let j = choose|j: int| 0 <= j < shown.len() && shown[j] == self@[keys@[k]];
                                    assert(out@[j] == self@[keys@[k]]);
                                }
                            }
                            assert forall|j: int| 0 <= j < shown.len() implies shown[j] != *order by {
                                let k = choose|k: int|
                                    0 <= k < i && keys@[k] == shown[j].id.bits() && self@[keys@[k]] == shown[j];
                                assert(keys@[k] != keys@[i as int]);
                            }
                        }
                    }
                },
            }
            i = i + 1;
        }
        proof {
            assert forall|order: LocalOrder| #[trigger] out@.contains(order) <==> exists|bits: u64| #[trigger]
                self@.contains_key(bits) && self@[bits] == order && !order.terminal() by {
                if out@.contains(order) {
                    let j = choose|j: int| 0 <= j < out@.len() && out@[j] == order;
                    let k = choose|k: int|
                        0 <= k < i && keys@[k] == out@[j].id.bits() && self@[keys@[k]] == out@[j];
                    assert(keys@.to_set().contains(keys@[k]));
                    assert(self@.contains_key(keys@[k]));
                }
                if exists|bits: u64| #[trigger]
                    self@.contains_key(bits) && self@[bits] == order && !order.terminal() {
                    let bits = choose|bits: u64| #[trigger]
                        self@.contains_key(bits) && self@[bits] == order && !order.terminal();
                    assert(keys@.to_set().contains(bits));
                    let k = choose|k: int| 0 <= k < keys@.len() && keys@[k] == bits;
                    assert(!self@[keys@[k]].terminal());
                }
            }
        }
        out
    }

    /// Forgets an order. The tracker never prunes on its own.
    pub fn forget(&mut self, id: OrderId)
        requires
            old(self).wf(),
        ensures
            final(self).wf(),
            final(self).step() == old(self).step(),
            final(self)@ == old(self)@.remove(id.bits()),
    {
        self.orders.remove(&id.raw());
    }
}

proof fn lemma_sweep_stops(
    orders: Map<u64, LocalOrder>,
    tick_step: u8,
    side: Side,
    tick: i16,
    first: int,
    n: nat,
    total: nat,
    power: F64Bits,
)
    requires
        n <= total,
        swept(orders, tick_step, side, tick, first, n, power).1 is Err,
    ensures
        swept(orders, tick_step, side, tick, first, total, power) == swept(
            orders,
            tick_step,
            side,
            tick,
            first,
            n,
            power,
        ),
    decreases total,
{
    if n < total {
        lemma_sweep_stops(orders, tick_step, side, tick, first, n, (total - 1) as nat, power);
    }
}

/// A filled range fills exactly the account's own orders in it: each keeps its
/// size and has nothing left, and no other order changes.
pub proof fn law_filled_range_fills_own_orders(
    orders: Map<u64, LocalOrder>,
    tick_step: u8,
    side: Side,
    tick: i16,
    first: int,
    n: nat,
    power: F64Bits,
)
    requires
        swept(orders, tick_step, side, tick, first, n, power).1 is Ok,
    ensures
        ({
            let after = swept(orders, tick_step, side, tick, first, n, power).0;
            &&& after.dom() == orders.dom()
            &&& forall|bits: u64| #[trigger]
                orders.contains_key(bits) ==> after[bits] == (if in_range(side, tick, first, n, bits) {
                    orders[bits].fully_filled()
                } else {
                    orders[bits]
                })
        }),
    decreases n,
{
    if n > 0 {
        let m = (n - 1) as nat;
        law_filled_range_fills_own_orders(orders, tick_step, side, tick, first, m, power);
        let done = swept(orders, tick_step, side, tick, first, m, power).0;
        let after = swept(orders, tick_step, side, tick, first, n, power).0;
        let bits = range_id(side, tick, first, m as int);
        assert(after.dom() =~= orders.dom());
        assert forall|b: u64| #[trigger] orders.contains_key(b) implies after[b] == (if in_range(
            side,
            tick,
            first,
            n,
            b,
        ) {
            orders[b].fully_filled()
        } else {
            orders[b]
        }) by {
            assert(in_range(side, tick, first, n, b) == (in_range(side, tick, first, m, b) || b == bits)) by {
                if in_range(side, tick, first, n, b) {
                    let k = choose|k: int| 0 <= k < n && range_id(side, tick, first, k) == b;
                    if k < m {
                        assert(range_id(side, tick, first, k) == b);
                    }
                }
                if in_range(side, tick, first, m, b) {
                    let k = choose|k: int| 0 <= k < m && range_id(side, tick, first, k) == b;
                    assert(range_id(side, tick, first, k) == b);
                }
            }
        }
    }
}

/// Whether a raw id belongs to a range of `n` indices.
pub open spec fn in_range(side: Side, tick: i16, first: int, n: nat, bits: u64) -> bool {
    exists|k: int| 0 <= k < n && #[trigger] range_id(side, tick, first, k) == bits
}

/// Partial fills accumulate: two of them are one of their sum, and the order
/// counts as filled exactly when nothing is left.
pub proof fn law_partial_fills_accumulate(order: LocalOrder, a: FixedX18, b: FixedX18)
    ensures
        order.filled_by(a).filled_by(b) == order.filled_by(FixedX18(fixed::wrapped_add(a.0, b.0))),
        order.filled_by(a).status == LocalOrderStatus::Filled <==> order.filled_by(a).remaining().0 == 0,
{
}

proof fn lemma_placing_keeps(
    orders: Map<u64, LocalOrder>,
    ids: Seq<OrderId>,
    sizes: Seq<FixedX18>,
    n: nat,
    bits: u64,
)
    requires
        orders.contains_key(bits),
    ensures
        placed(orders, ids, sizes, n).contains_key(bits),
    decreases n,
{
    if n > 0 {
        lemma_placing_keeps(orders, ids, sizes, (n - 1) as nat, bits);
    }
}

proof fn lemma_sweeping_keeps(
    orders: Map<u64, LocalOrder>,
    tick_step: u8,
    side: Side,
    tick: i16,
    first: int,
    n: nat,
    power: F64Bits,
    bits: u64,
)
    requires
        orders.contains_key(bits),
    ensures
        swept(orders, tick_step, side, tick, first, n, power).0.contains_key(bits),
    decreases n,
{
    if n > 0 {
        lemma_sweeping_keeps(orders, tick_step, side, tick, first, (n - 1) as nat, power, bits);
    }
}

/// Only forgetting drops an order: a tracked id stays tracked through
/// placements, filled ranges (those that end in an error too), partial fills and
/// cancellations, and forgetting one order leaves every other as it was.
pub proof fn law_only_forgetting_drops_an_order(
    orders: Map<u64, LocalOrder>,
    bits: u64,
    ids: Seq<OrderId>,
    sizes: Seq<FixedX18>,
    status: LocalOrderStatus,
    tick_step: u8,
    from: OrderId,
    to: OrderId,
    power: F64Bits,
    id: OrderId,
    delta: FixedX18,
)
    requires
        orders.contains_key(bits),
    ensures
        placed(orders, ids, sizes, ids.len()).contains_key(bits),
        sweep(orders, tick_step, from, to, power).0.contains_key(bits),
        orders.insert(id.bits(), orders[id.bits()].filled_by(delta)).contains_key(bits),
        with_status(orders, ids, status).contains_key(bits),
        !orders.remove(id.bits()).contains_key(id.bits()),
        bits != id.bits() ==> orders.remove(id.bits()).contains_key(bits) && orders.remove(id.bits())[bits]
            == orders[bits],
{
    lemma_placing_keeps(orders, ids, sizes, ids.len(), bits);
    if range_fault(from, to) is None {
        lemma_sweeping_keeps(
            orders,
            tick_step,
            order_id::side_of(from.bits()),
            order_id::tick_of(from.bits()),
            order_id::index_of(from.bits()),
            (order_id::index_of(to.bits()) - order_id::index_of(from.bits()) + 1) as nat,
            power,
            bits,
        );
    }
}

} // verus!
