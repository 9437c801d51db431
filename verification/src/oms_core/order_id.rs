use vstd::prelude::*;

use crate::oms_core::error::OmsError;

verus! {

/// Long pays fixed and receives floating; short the reverse.
#[derive(Debug, Clone, Copy, PartialEq, Eq, Structural, Hash)]
pub enum Side {
    Long,
    Short,
}

impl Side {
    /// The other side.
    pub open spec fn other(self) -> Side {
        match self {
            Side::Long => Side::Short,
            Side::Short => Side::Long,
        }
    }

    /// The side's bit in a packed id.
    pub open spec fn bit(self) -> int {
        match self {
            Side::Long => 0,
            Side::Short => 1,
        }
    }

    pub fn opposite(self) -> (r: Self)
        ensures
            r == self.other(),
    {
        match self {
            Side::Long => Side::Short,
            Side::Short => Side::Long,
        }
    }

    /// A long order is swept from the highest tick down, a short order from
    /// the lowest tick up.
    pub fn sweeps_tick_top_down(self) -> (r: bool)
        ensures
            r == (self == Side::Long),
    {
        match self {
            Side::Long => true,
            Side::Short => false,
        }
    }
}

/// The number of order indices in a tick, `2^40`.
pub open spec fn index_span() -> int {
    0x100_0000_0000
}

/// The rank of a tick on its side, best tick first: from the highest down for
/// a long order, from the lowest up for a short one.
pub open spec fn tick_rank(tick: i16, side: Side) -> int {
    match side {
        Side::Long => 32767 - tick,
        Side::Short => tick + 32768,
    }
}

/// The tick of a rank, the inverse of [`tick_rank`].
pub open spec fn rank_tick(rank: int, side: Side) -> i16 {
    match side {
        Side::Long => (32767 - rank) as i16,
        Side::Short => (rank - 32768) as i16,
    }
}

/// The packed id: marker in bit 63, side in bit 56, tick rank in bits 40 to
/// 55, order index below.
pub open spec fn packed(side: Side, tick: i16, index: int) -> int {
    0x8000_0000_0000_0000 + side.bit() * 0x100_0000_0000_0000 + tick_rank(tick, side) * index_span()
        + index
}

/// The side of a packed id.
pub open spec fn side_of(bits: u64) -> Side {
    if (bits as int / 0x100_0000_0000_0000) % 2 == 1 {
        Side::Short
    } else {
        Side::Long
    }
}

/// The tick of a packed id.
pub open spec fn tick_of(bits: u64) -> i16 {
    rank_tick((bits as int / 0x100_0000_0000) % 0x1_0000, side_of(bits))
}

/// The order index of a packed id.
pub open spec fn index_of(bits: u64) -> int {
    bits as int % 0x100_0000_0000
}

/// Whether a raw value carries the initialized marker.
pub open spec fn marked(bits: u64) -> bool {
    bits >= 0x8000_0000_0000_0000
}

/// Maps a tick to its rank on a side.
fn encode_tick_index(tick_index: i16, side: Side) -> (r: u16)
    ensures
        r == tick_rank(tick_index, side),
{
    let encoded: u16 = (#[verifier::truncate] (tick_index as u16)) ^ 0x8000;
    assert(encoded == tick_index + 32768) by (bit_vector)
        requires
            encoded == (tick_index as u16) ^ 0x8000,
    ;
    if side.sweeps_tick_top_down() {
        assert(!encoded == 65535 - encoded) by (bit_vector);
        !encoded
    } else {
        encoded
    }
}

/// Maps a rank on a side back to its tick.
fn decode_tick_index(encoded: u16, side: Side) -> (r: i16)
    ensures
        r == rank_tick(encoded as int, side),
{
    let e: u16 = if side.sweeps_tick_top_down() {
        assert(!encoded == 65535 - encoded) by (bit_vector);
        !encoded
    } else {
        encoded
    };
    let tick: i16 = #[verifier::truncate] ((e ^ 0x8000) as i16);
    assert(tick == e - 32768) by (bit_vector)
        requires
            tick == (e ^ 0x8000) as i16,
    ;
    tick
}

/// A resting order's packed identifier. Among ids of one side, a lower raw
/// value has the higher book priority.
#[derive(Debug, Clone, Copy, PartialEq, Eq, Structural, PartialOrd, Ord, Hash)]
pub struct OrderId(u64);

/// The id with the given raw value.
pub closed spec fn id_with_bits(bits: u64) -> OrderId {
    OrderId(bits)
}

impl OrderId {
    /// The raw packed value.
    pub closed spec fn bits(self) -> u64 {
        self.0
    }

    /// Packs an id; an index of more than 40 bits is refused.
    pub fn from_parts(side: Side, tick_index: i16, order_index: u64) -> (r: Result<Self, OmsError>)
        ensures
            order_index >= index_span() ==> r == Err::<OrderId, OmsError>(
                OmsError::OrderIndexOverflow(order_index),
            ),
            order_index < index_span() ==> (r matches Ok(id) && id.bits() == packed(
                side,
                tick_index,
                order_index as int,
            )),
    {
        if order_index > 0xff_ffff_ffff {
            return Err(OmsError::OrderIndexOverflow(order_index));
        }
        let encoded_tick: u64 = encode_tick_index(tick_index, side) as u64;
        let side_bit: u64 = match side {
            Side::Long => 0,
            Side::Short => 1,
        };
        let bits: u64 = (((side_bit << 16) | encoded_tick) << 40) | order_index | 0x8000_0000_0000_0000;
        assert(bits == 0x8000_0000_0000_0000 + side_bit * 0x100_0000_0000_0000 + encoded_tick
            * 0x100_0000_0000 + order_index) by (bit_vector)
            requires
                bits == (((side_bit << 16) | encoded_tick) << 40) | order_index | 0x8000_0000_0000_0000,
                side_bit <= 1,
                encoded_tick <= 0xffff,
                order_index <= 0xff_ffff_ffff,
        ;
        Ok(OrderId(bits))
    }

    /// Side, tick and order index.
    pub fn unpack(self) -> (r: (Side, i16, u64))
        ensures
            r.0 == side_of(self.bits()),
            r.1 == tick_of(self.bits()),
            r.2 == index_of(self.bits()),
    {
        (self.side(), self.tick_index(), self.order_index())
    }

    pub fn side(self) -> (r: Side)
        ensures
            r == side_of(self.bits()),
    {
        let bits: u64 = self.0;
        assert((bits >> 56) & 1 == (bits / 0x100_0000_0000_0000) % 2) by (bit_vector);
        if (bits >> 56) & 1 == 1 {
            Side::Short
        } else {
            Side::Long
        }
    }

    pub fn tick_index(self) -> (r: i16)
        ensures
            r == tick_of(self.bits()),
    {
        let bits: u64 = self.0;
        assert((bits >> 40) & 0xffff == (bits / 0x100_0000_0000) % 0x1_0000) by (bit_vector);
        let encoded: u16 = ((bits >> 40) & 0xffff) as u16;
        decode_tick_index(encoded, self.side())
    }

    pub fn order_index(self) -> (r: u64)
        ensures
            r == index_of(self.bits()),
            r < index_span(),
    {
        let bits: u64 = self.0;
        assert(bits & 0xff_ffff_ffff == bits % 0x100_0000_0000) by (bit_vector);
        bits & 0xff_ffff_ffff
    }

    pub fn is_initialized(self) -> (r: bool)
        ensures
            r == marked(self.bits()),
    {
        let bits: u64 = self.0;
        assert((bits & 0x8000_0000_0000_0000 != 0) == (bits >= 0x8000_0000_0000_0000)) by (bit_vector);
        bits & 0x8000_0000_0000_0000 != 0
    }

    /// The raw packed value.
    pub fn raw(self) -> (r: u64)
        ensures
            r == self.bits(),
    {
        self.0
    }
}

/// An id from its packed value: any value that carries the marker.
impl TryFrom<u64> for OrderId {
    type Error = OmsError;

    fn try_from(raw: u64) -> (r: Result<Self, OmsError>) {
        assert((raw & 0x8000_0000_0000_0000 == 0) == (raw < 0x8000_0000_0000_0000)) by (bit_vector);
        if raw & 0x8000_0000_0000_0000 == 0 {
            return Err(OmsError::OrderIdNotInitialized(raw));
        }
        Ok(OrderId(raw))
    }
}

impl vstd::std_specs::convert::TryFromSpecImpl<u64> for OrderId {
    open spec fn obeys_try_from_spec() -> bool {
        true
    }

    open spec fn try_from_spec(raw: u64) -> Result<Self, OmsError> {
        if marked(raw) {
            Ok(id_with_bits(raw))
        } else {
            Err(OmsError::OrderIdNotInitialized(raw))
        }
    }
}

/// An id is its raw value: equal raw values are equal ids.
pub proof fn law_id_is_its_bits(a: OrderId, b: OrderId, raw: u64)
    ensures
        id_with_bits(raw).bits() == raw,
        a.bits() == b.bits() ==> a == b,
{
}

/// Ranking a tick loses nothing.
pub proof fn law_tick_rank_round_trips(tick: i16, side: Side)
    ensures
        0 <= tick_rank(tick, side) < 0x1_0000,
        rank_tick(tick_rank(tick, side), side) == tick,
{
}

/// Packing and unpacking gives the parts back, and a packed id is initialized.
pub proof fn law_unpack_of_packed(side: Side, tick: i16, index: int)
    requires
        0 <= index < index_span(),
    ensures
        ({
            let bits = packed(side, tick, index) as u64;
            &&& bits == packed(side, tick, index)
            &&& marked(bits)
            &&& side_of(bits) == side
            &&& tick_of(bits) == tick
            &&& index_of(bits) == index
        }),
{
    let rank = tick_rank(tick, side);
    let bits = packed(side, tick, index);
    assert(bits / 0x100_0000_0000_0000 == 0x80 + side.bit());
    assert(bits / 0x100_0000_0000 == 0x80_0000 + side.bit() * 0x1_0000 + rank);
    assert((0x80_0000 + side.bit() * 0x1_0000 + rank) % 0x1_0000 == rank);
    assert(bits % 0x100_0000_0000 == index);
}

/// Unpacking and packing gives the raw value back, for a marked value whose
/// unused bits are clear.
pub proof fn law_packed_of_unpack(bits: u64)
    requires
        marked(bits),
        bits < 0x8200_0000_0000_0000,
    ensures
        packed(side_of(bits), tick_of(bits), index_of(bits)) == bits,
{
    let low = bits as int % 0x100_0000_0000;
    let mid = bits as int / 0x100_0000_0000;
    assert(mid / 0x1_0000 == bits as int / 0x100_0000_0000_0000);
    assert(bits == mid * 0x100_0000_0000 + low);
}

/// Within a side a lower raw value is a higher priority: the better tick wins,
/// and within a tick the earlier order.
pub proof fn law_raw_order_is_book_priority(
    side: Side,
    tick_a: i16,
    index_a: int,
    tick_b: i16,
    index_b: int,
)
    requires
        0 <= index_a < index_span(),
        0 <= index_b < index_span(),
    ensures
        packed(side, tick_a, index_a) < packed(side, tick_b, index_b) <==> {
            ||| side == Side::Long && tick_a > tick_b
            ||| side == Side::Short && tick_a < tick_b
            ||| tick_a == tick_b && index_a < index_b
        },
{
}

} // verus!
