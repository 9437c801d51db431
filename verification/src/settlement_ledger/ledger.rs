use vstd::prelude::*;
use std::collections::HashMap;

use crate::keys::map_keys;
use crate::settlement_ledger::error::LedgerError;
use crate::settlement_ledger::types;
use crate::settlement_ledger::types::{FIndexRecord, Fill, PayFee, SettlementResult, SubPeriod};
use crate::tick_math::fixed;
use crate::tick_math::math;
use crate::tick_math::math::unsigned_magnitude;
use crate::tick_math::{mul_div_up, FixedX18, MathError};

verus! {

/// What the ledger knows of one market.
#[verifier::ext_equal]
pub struct MarketModel {
    /// Fills after the checkpoint, in tag order, first recorded first.
    pub fills: Seq<Fill>,
    /// Index records by tag.
    pub findex: Map<u32, FIndexRecord>,
    /// Size held from the checkpoint on.
    pub size: FixedX18,
    pub checkpoint: u32,
}

impl MarketModel {
    pub open spec fn wf(self) -> bool {
        &&& tags_ascend(self.fills)
        &&& forall|i: int| 0 <= i < self.fills.len() ==> self.checkpoint < (#[trigger] self.fills[i]).f_tag
        &&& forall|t: u32| #[trigger]
            self.findex.contains_key(t) ==> self.findex[t].f_tag == t && self.checkpoint <= t
    }
}

/// Fills stand in the order of their tags.
pub open spec fn tags_ascend(fills: Seq<Fill>) -> bool {
    forall|i: int, j: int| 0 <= i <= j < fills.len() ==> (#[trigger] fills[i]).f_tag <= (#[trigger] fills[j]).f_tag
}

/// The fills up to and including a tag.
pub open spec fn fills_through(fills: Seq<Fill>, tag: u32) -> Seq<Fill> {
    fills.filter(|f: Fill| f.f_tag <= tag)
}

/// The fills after a tag.
pub open spec fn fills_after(fills: Seq<Fill>, tag: u32) -> Seq<Fill> {
    fills.filter(|f: Fill| f.f_tag > tag)
}

/// A size after a run of fills.
pub open spec fn merged(size: FixedX18, fills: Seq<Fill>) -> FixedX18
    decreases fills.len(),
{
    if fills.len() == 0 {
        size
    } else {
        FixedX18(
            fixed::wrapped_add(merged(size, fills.drop_last()).0, fills.last().size_delta.0),
        )
    }
}

/// The size held once every fill up to and including `tag` is merged.
pub open spec fn size_held(size: FixedX18, fills: Seq<Fill>, tag: u32) -> FixedX18 {
    merged(size, fills_through(fills, tag))
}

/// The distinct fill tags strictly between `start` and `upto`, in fill order.
pub open spec fn inner_tags(fills: Seq<Fill>, start: u32, upto: u32) -> Seq<u32>
    decreases fills.len(),
{
    if fills.len() == 0 {
        Seq::empty()
    } else {
        let rest = inner_tags(fills.drop_last(), start, upto);
        let tag = fills.last().f_tag;
        if start < tag < upto && !rest.contains(tag) {
            rest.push(tag)
        } else {
            rest
        }
    }
}

/// The tags that bound the sub-periods of a settlement.
pub open spec fn boundaries(fills: Seq<Fill>, start: u32, upto: u32) -> Seq<u32> {
    seq![start] + inner_tags(fills, start, upto) + seq![upto]
}

/// What a constant size earns and owes between two index records.
pub open spec fn settlement_of(size: FixedX18, last: FIndexRecord, current: FIndexRecord) -> Result<
    PayFee,
    LedgerError,
> {
    if last.floating_index == current.floating_index && last.fee_index == current.fee_index {
        Ok(types::nothing())
    } else {
        let floating = fixed::wrapped_sub(current.floating_index.0, last.floating_index.0);
        let fee = fixed::wrapped_sub(current.fee_index.0, last.fee_index.0);
        match math::floor_outcome(size.0 * floating, FixedX18::SCALE as int) {
            Err(e) => Err(LedgerError::Math(e)),
            Ok(payment) => if fee < 0 {
                Err(
                    LedgerError::FeeIndexDecreased {
                        last_f_tag: last.f_tag,
                        current_f_tag: current.f_tag,
                    },
                )
            } else {
                match math::up_outcome(
                    math::magnitude(size.0 as int) * fee,
                    FixedX18::SCALE as int,
                ) {
                    Err(e) => Err(LedgerError::Math(e)),
                    Ok(owed) => if owed > i128::MAX {
                        Err(LedgerError::Math(MathError::Overflow))
                    } else {
                        Ok(PayFee { payment: FixedX18(payment), fee: FixedX18(owed as i128) })
                    },
                }
            },
        }
    }
}

/// What a constant size earns and owes between two tags.
pub open spec fn window_settlement(
    findex: Map<u32, FIndexRecord>,
    size: FixedX18,
    start: u32,
    end: u32,
) -> Result<PayFee, LedgerError> {
    if !findex.contains_key(start) {
        Err(LedgerError::MissingFIndexRecord(start))
    } else if !findex.contains_key(end) {
        Err(LedgerError::MissingFIndexRecord(end))
    } else {
        settlement_of(size, findex[start], findex[end])
    }
}

/// The first `n` sub-periods between consecutive `tags`, each priced at the
/// size held before its own fills, or the first error in order.
pub open spec fn priced(m: MarketModel, tags: Seq<u32>, n: nat) -> Result<Seq<SubPeriod>, LedgerError>
    decreases n,
{
    if n == 0 {
        Ok(Seq::empty())
    } else {
        match priced(m, tags, (n - 1) as nat) {
            Err(e) => Err(e),
            Ok(done) => {
                let start = tags[n - 1];
                let end = tags[n as int];
                let size = size_held(m.size, m.fills, start);
                match window_settlement(m.findex, size, start, end) {
                    Err(e) => Err(e),
                    Ok(result) => Ok(
                        done.push(
                            SubPeriod { start_f_tag: start, end_f_tag: end, size_held: size, result },
                        ),
                    ),
                }
            },
        }
    }
}

/// Sum of the settlements of a run of sub-periods.
pub open spec fn total_of(periods: Seq<SubPeriod>) -> PayFee
    decreases periods.len(),
{
    if periods.len() == 0 {
        types::nothing()
    } else {
        types::sum_of(total_of(periods.drop_last()), periods.last().result)
    }
}

/// The sub-periods of settling a market up to a tag, or why it cannot settle.
pub open spec fn settlement_periods(m: MarketModel, upto: u32) -> Result<Seq<SubPeriod>, LedgerError> {
    if upto < m.checkpoint {
        Err(LedgerError::NonMonotonicSettlement { checkpoint: m.checkpoint, upto })
    } else if upto == m.checkpoint {
        Ok(Seq::empty())
    } else {
        let tags = boundaries(m.fills, m.checkpoint, upto);
        priced(m, tags, (tags.len() - 1) as nat)
    }
}

/// A market once settled up to a tag.
pub open spec fn settled(m: MarketModel, upto: u32) -> MarketModel {
    if upto == m.checkpoint {
        m
    } else {
        MarketModel {
            fills: fills_after(m.fills, upto),
            findex: m.findex.restrict(Set::new(|t: u32| t >= upto)),
            size: size_held(m.size, m.fills, upto),
            checkpoint: upto,
        }
    }
}

/// A market once a fill is recorded, or why the fill is refused. A fill on the
/// checkpoint's own tag has no elapsed window to price and is merged at once.
pub open spec fn with_fill(m: MarketModel, fill: Fill) -> Result<MarketModel, LedgerError> {
    if fill.f_tag < m.checkpoint {
        Err(LedgerError::FillBeforeCheckpoint(fill.f_tag))
    } else if fill.f_tag == m.checkpoint {
        Ok(
            MarketModel {
                size: FixedX18(fixed::wrapped_add(m.size.0, fill.size_delta.0)),
                ..m
            },
        )
    } else {
        Ok(
            MarketModel {
                fills: fills_through(m.fills, fill.f_tag).push(fill) + fills_after(m.fills, fill.f_tag),
                ..m
            },
        )
    }
}

/// A market once an index record is recorded, or why the record is refused.
pub open spec fn with_findex(m: MarketModel, record: FIndexRecord) -> Result<MarketModel, LedgerError> {
    if record.f_tag < m.checkpoint {
        Err(LedgerError::FIndexRecordBeforeCheckpoint(record.f_tag))
    } else if m.findex.contains_key(record.f_tag) && m.findex[record.f_tag] != record {
        Err(LedgerError::ConflictingFIndexRecord(record.f_tag))
    } else {
        Ok(MarketModel { findex: m.findex.insert(record.f_tag, record), ..m })
    }
}

proof fn lemma_filter_all(s: Seq<Fill>, pred: spec_fn(Fill) -> bool)
    requires
        forall|i: int| 0 <= i < s.len() ==> pred(#[trigger] s[i]),
    ensures
        s.filter(pred) == s,
    decreases s.len(),
{
    reveal(Seq::filter);
    if s.len() > 0 {
        lemma_filter_all(s.drop_last(), pred);
        assert(s.drop_last().push(s.last()) == s);
        assert(pred(s[s.len() - 1]));
    }
}

proof fn lemma_filter_none(s: Seq<Fill>, pred: spec_fn(Fill) -> bool)
    requires
        forall|i: int| 0 <= i < s.len() ==> !pred(#[trigger] s[i]),
    ensures
        s.filter(pred) == Seq::<Fill>::empty(),
    decreases s.len(),
{
    reveal(Seq::filter);
    if s.len() > 0 {
        lemma_filter_none(s.drop_last(), pred);
        assert(!pred(s[s.len() - 1]));
    }
}

/// In tag order, a cut between tags separates the fills through a tag from the
/// fills after it.
proof fn lemma_cut(fills: Seq<Fill>, cut: int, tag: u32)
    requires
        0 <= cut <= fills.len(),
        forall|i: int| 0 <= i < cut ==> (#[trigger] fills[i]).f_tag <= tag,
        forall|i: int| cut <= i < fills.len() ==> (#[trigger] fills[i]).f_tag > tag,
    ensures
        fills_through(fills, tag) == fills.take(cut),
        fills_after(fills, tag) == fills.skip(cut),
{
    let through = |f: Fill| f.f_tag <= tag;
    let after = |f: Fill| f.f_tag > tag;
    assert(fills == fills.take(cut) + fills.skip(cut));
    Seq::filter_distributes_over_add(fills.take(cut), fills.skip(cut), through);
    Seq::filter_distributes_over_add(fills.take(cut), fills.skip(cut), after);
    lemma_filter_all(fills.take(cut), through);
    lemma_filter_none(fills.skip(cut), through);
    lemma_filter_none(fills.take(cut), after);
    lemma_filter_all(fills.skip(cut), after);
    assert(fills.take(cut) + Seq::<Fill>::empty() == fills.take(cut));
    assert(Seq::<Fill>::empty() + fills.skip(cut) == fills.skip(cut));
}

proof fn lemma_inner_tags_bounded(fills: Seq<Fill>, start: u32, upto: u32, bound: u32)
    requires
        forall|i: int| 0 <= i < fills.len() ==> (#[trigger] fills[i]).f_tag <= bound,
    ensures
        forall|t: u32| #[trigger] inner_tags(fills, start, upto).contains(t) ==> t <= bound,
    decreases fills.len(),
{
    if fills.len() > 0 {
        lemma_inner_tags_bounded(fills.drop_last(), start, upto, bound);
        assert(fills[fills.len() - 1].f_tag <= bound);
        let rest = inner_tags(fills.drop_last(), start, upto);
        assert forall|t: u32| #[trigger] inner_tags(fills, start, upto).contains(t) implies t <= bound by {
            let all = inner_tags(fills, start, upto);
            let k = choose|k: int| 0 <= k < all.len() && all[k] == t;
            if k < rest.len() {
                assert(rest[k] == t);
                assert(rest.contains(t));
            }
        }
    }
}

/// Fills at or past the target add no inner tag.
proof fn lemma_inner_tags_tail(fills: Seq<Fill>, cut: int, start: u32, upto: u32)
    requires
        0 <= cut <= fills.len(),
        forall|i: int| cut <= i < fills.len() ==> (#[trigger] fills[i]).f_tag >= upto,
    ensures
        inner_tags(fills, start, upto) == inner_tags(fills.take(cut), start, upto),
    decreases fills.len(),
{
    if cut == fills.len() {
        assert(fills.take(cut) == fills);
    } else {
        assert(fills.drop_last().take(cut) == fills.take(cut));
        assert(fills[fills.len() - 1].f_tag >= upto);
        lemma_inner_tags_tail(fills.drop_last(), cut, start, upto);
    }
}

/// Inner tags of a prefix come first among the inner tags of the whole.
proof fn lemma_inner_tags_prefix(fills: Seq<Fill>, cut: int, start: u32, upto: u32)
    requires
        0 <= cut <= fills.len(),
    ensures
        inner_tags(fills.take(cut), start, upto).len() <= inner_tags(fills, start, upto).len(),
        inner_tags(fills.take(cut), start, upto) == inner_tags(fills, start, upto).take(
            inner_tags(fills.take(cut), start, upto).len() as int,
        ),
    decreases fills.len(),
{
    if cut == fills.len() {
        assert(fills.take(cut) == fills);
    } else {
        assert(fills.drop_last().take(cut) == fills.take(cut));
        lemma_inner_tags_prefix(fills.drop_last(), cut, start, upto);
    }
}

/// Per-market history and the running checkpoint.
struct MarketLedger {
    fills: Vec<Fill>,
    findex: HashMap<u32, FIndexRecord>,
    size_at_checkpoint: FixedX18,
    checkpoint_f_tag: u32,
}

impl View for MarketLedger {
    type V = MarketModel;

    closed spec fn view(&self) -> MarketModel {
        MarketModel {
            fills: self.fills@,
            findex: self.findex@,
            size: self.size_at_checkpoint,
            checkpoint: self.checkpoint_f_tag,
        }
    }
}

/// What a constant size earns and owes between two index records.
fn calc_settlement(signed_size: FixedX18, last: &FIndexRecord, current: &FIndexRecord) -> (r: Result<
    PayFee,
    LedgerError,
>)
    ensures
        r == settlement_of(signed_size, *last, *current),
{
    if last.floating_index == current.floating_index && last.fee_index == current.fee_index {
        return Ok(PayFee::zero());
    }
    let delta_floating: FixedX18 = current.floating_index - last.floating_index;
    let payment: FixedX18 = match signed_size.mul_floor(delta_floating) {
        Ok(p) => p,
        Err(e) => {
            return Err(LedgerError::Math(e));
        },
    };
    let delta_fee: FixedX18 = current.fee_index - last.fee_index;
    if delta_fee.is_negative() {
        return Err(
            LedgerError::FeeIndexDecreased { last_f_tag: last.f_tag, current_f_tag: current.f_tag },
        );
    }
    match mul_div_up(
        unsigned_magnitude(signed_size.0),
        delta_fee.0 as u128,
        FixedX18::SCALE as u128,
    ) {
        Err(e) => Err(LedgerError::Math(e)),
        Ok(owed) => if owed > i128::MAX as u128 {
            Err(LedgerError::Math(MathError::Overflow))
        } else {
            Ok(PayFee { payment, fee: FixedX18(owed as i128) })
        },
    }
}

impl MarketLedger {
    fn new(initial_size: FixedX18, checkpoint_f_tag: u32) -> (r: Self)
        ensures
            r@ == (MarketModel {
                fills: Seq::empty(),
                findex: Map::empty(),
                size: initial_size,
                checkpoint: checkpoint_f_tag,
            }),
    {
        MarketLedger {
            fills: Vec::new(),
            findex: HashMap::new(),
            size_at_checkpoint: initial_size,
            checkpoint_f_tag,
        }
    }

    fn record_fill(&mut self, fill: Fill) -> (r: Result<(), LedgerError>)
        requires
            old(self)@.wf(),
        ensures
            final(self)@.wf(),
            match with_fill(old(self)@, fill) {
                Ok(m) => r is Ok && final(self)@ == m,
                Err(e) => r == Err::<(), LedgerError>(e) && final(self)@ == old(self)@,
            },
    {
        if fill.f_tag < self.checkpoint_f_tag {
            return Err(LedgerError::FillBeforeCheckpoint(fill.f_tag));
        }
        if fill.f_tag == self.checkpoint_f_tag {
            self.size_at_checkpoint = self.size_at_checkpoint + fill.size_delta;
            return Ok(());
        }
        let mut pos: usize = 0;
        while pos < self.fills.len() && self.fills[pos].f_tag <= fill.f_tag
            invariant
                pos <= self.fills.len(),
                forall|i: int| 0 <= i < pos ==> (#[trigger] self.fills@[i]).f_tag <= fill.f_tag,
            decreases self.fills.len() - pos,
        {
            pos = pos + 1;
        }
        let ghost before = self.fills@;
        proof {
            assert(tags_ascend(before));
            assert forall|i: int| pos <= i < before.len() implies (#[trigger] before[i]).f_tag > fill.f_tag by {
                assert(before[pos as int].f_tag <= before[i].f_tag);
            }
            lemma_cut(before, pos as int, fill.f_tag);
        }
        self.fills.insert(pos, fill);
        assert(self.fills@ == before.take(pos as int).push(fill) + before.skip(pos as int));
        Ok(())
    }

    fn record_findex(&mut self, record: FIndexRecord) -> (r: Result<(), LedgerError>)
        requires
            old(self)@.wf(),
        ensures
            final(self)@.wf(),
            match with_findex(old(self)@, record) {
                Ok(m) => r is Ok && final(self)@ == m,
                Err(e) => r == Err::<(), LedgerError>(e) && final(self)@ == old(self)@,
            },
    {
        if record.f_tag < self.checkpoint_f_tag {
            return Err(LedgerError::FIndexRecordBeforeCheckpoint(record.f_tag));
        }
        match self.findex.get(&record.f_tag) {
            Some(existing) => {
                if *existing != record {
                    return Err(LedgerError::ConflictingFIndexRecord(record.f_tag));
                }
                assert(self.findex@.insert(record.f_tag, record) == self.findex@);
                return Ok(());
            },
            None => {},
        }
        self.findex.insert(record.f_tag, record);
        Ok(())
    }

    /// Drops the index records of settled windows.
    fn drop_findex_before(&mut self, upto_f_tag: u32)
        ensures
            final(self)@ == (MarketModel {
                findex: old(self)@.findex.restrict(Set::new(|t: u32| t >= upto_f_tag)),
                ..old(self)@
            }),
    {
        let tags: Vec<u32> = map_keys(&self.findex);
        let ghost all = self.findex@;
        let mut i: usize = 0;
        while i < tags.len()
            invariant
                i <= tags.len(),
                tags@.no_duplicates(),
                tags@.to_set() == all.dom(),
                forall|t: u32| #[trigger]
                    self.findex@.contains_key(t) ==> all.contains_key(t) && self.findex@[t] == all[t],
                forall|t: u32| all.contains_key(t) && t >= upto_f_tag ==> self.findex@.contains_key(t),
                forall|k: int|
                    0 <= k < i && tags@[k] < upto_f_tag ==> !self.findex@.contains_key(#[trigger] tags@[k]),
                self.fills == old(self).fills,
                self.size_at_checkpoint == old(self).size_at_checkpoint,
                self.checkpoint_f_tag == old(self).checkpoint_f_tag,
            decreases tags.len() - i,
        {
            let tag: u32 = tags[i];
            if tag < upto_f_tag {
                self.findex.remove(&tag);
            }
            i = i + 1;
        }
        proof {
            let kept = all.restrict(Set::new(|t: u32| t >= upto_f_tag));
            assert forall|t: u32| self.findex@.contains_key(t) implies kept.contains_key(t) by {
                assert(tags@.to_set().contains(t));
                let k = choose|k: int| 0 <= k < tags@.len() && tags@[k] == t;
                assert(tags@[k] == t);
            }
            assert(self.findex@ =~= kept);
        }
    }

    /// Settles up to `upto_f_tag`; on an error nothing changes.
    fn settle_to(&mut self, market_id: u32, upto_f_tag: u32) -> (r: Result<
        SettlementResult,
        LedgerError,
    >)
        requires
            old(self)@.wf(),
        ensures
            final(self)@.wf(),
            match settlement_periods(old(self)@, upto_f_tag) {
                Ok(periods) => {
                    &&& r matches Ok(res)
                    &&& res.market_id == market_id
                    &&& res.start_f_tag == old(self)@.checkpoint
                    &&& res.end_f_tag == upto_f_tag
                    &&& res.sub_periods@ == periods
                    &&& res.total == total_of(periods)
                    &&& final(self)@ == settled(old(self)@, upto_f_tag)
                },
                Err(e) => r matches Err(err) && err == e && final(self)@ == old(self)@,
            },
    {
        let start_f_tag: u32 = self.checkpoint_f_tag;
        if upto_f_tag < start_f_tag {
            return Err(
                LedgerError::NonMonotonicSettlement { checkpoint: start_f_tag, upto: upto_f_tag },
            );
        }
        let mut sub_periods: Vec<SubPeriod> = Vec::new();
        let mut total: PayFee = PayFee::zero();
        if upto_f_tag == start_f_tag {
            return Ok(
                SettlementResult {
                    market_id,
                    start_f_tag,
                    end_f_tag: upto_f_tag,
                    total,
                    sub_periods,
                },
            );
        }
        let ghost m = self@;
        let ghost fills = self.fills@;
        let ghost tags = boundaries(fills, start_f_tag, upto_f_tag);
        let mut start: u32 = start_f_tag;
        let mut size: FixedX18 = self.size_at_checkpoint;
        let mut folded: usize = 0;
        proof {
            assert(fills.take(0) == Seq::<Fill>::empty());
            assert(tags[0] == start_f_tag);
            lemma_cut(fills, 0, start_f_tag);
        }
        while start < upto_f_tag
            invariant
                *self == *old(self),
                m == self@,
                m.wf(),
                fills == self.fills@,
                start_f_tag == self.checkpoint_f_tag,
                start_f_tag < upto_f_tag,
                tags == boundaries(fills, start_f_tag, upto_f_tag),
                start_f_tag <= start <= upto_f_tag,
                folded <= fills.len(),
                forall|i: int| 0 <= i < folded ==> (#[trigger] fills[i]).f_tag <= start,
                forall|i: int| folded <= i < fills.len() ==> (#[trigger] fills[i]).f_tag > start,
                size == merged(m.size, fills.take(folded as int)),
                start < upto_f_tag ==> sub_periods@.len() == inner_tags(
                    fills.take(folded as int),
                    start_f_tag,
                    upto_f_tag,
                ).len(),
                start == upto_f_tag ==> sub_periods@.len() == tags.len() - 1,
                sub_periods@.len() < tags.len(),
                tags[sub_periods@.len() as int] == start,
                priced(m, tags, sub_periods@.len()) == Ok::<Seq<SubPeriod>, LedgerError>(sub_periods@),
                total == total_of(sub_periods@),
            decreases upto_f_tag - start,
        {
            let end: u32 = if folded < self.fills.len() && self.fills[folded].f_tag < upto_f_tag {
                self.fills[folded].f_tag
            } else {
                upto_f_tag
            };
            let ghost k = sub_periods@.len();
            let ghost inner = inner_tags(fills, start_f_tag, upto_f_tag);
            let ghost prefix = inner_tags(fills.take(folded as int), start_f_tag, upto_f_tag);
            let ghost from = folded as int;
            proof {
                lemma_cut(fills, from, start);
                assert(size == size_held(m.size, m.fills, start));
                lemma_inner_tags_bounded(fills.take(from), start_f_tag, upto_f_tag, start);
                lemma_inner_tags_prefix(fills, from, start_f_tag, upto_f_tag);
                assert(prefix.len() == k);
                if end < upto_f_tag {
                    let next = fills.take(from + 1);
                    assert(next.drop_last() == fills.take(from));
                    assert(next.last() == fills[from]);
                    assert(inner_tags(next, start_f_tag, upto_f_tag) == prefix.push(end));
                    lemma_inner_tags_prefix(fills, from + 1, start_f_tag, upto_f_tag);
                    assert(inner.take(k as int + 1) == prefix.push(end));
                    assert(inner[k as int] == prefix.push(end)[k as int]);
                    assert(tags[k as int + 1] == end);
                } else {
                    assert forall|i: int| from <= i < fills.len() implies (#[trigger] fills[i]).f_tag
                        >= upto_f_tag by {
                        assert(fills[from].f_tag <= fills[i].f_tag);
                    }
                    lemma_inner_tags_tail(fills, from, start_f_tag, upto_f_tag);
                    assert(inner.len() == k);
                    assert(tags[k as int + 1] == end);
                }
            }
            let last: FIndexRecord = match self.findex.get(&start) {
                Some(record) => *record,
                None => {
                    proof {
                        lemma_priced_stops(m, tags, k + 1, (tags.len() - 1) as nat);
                    }
                    return Err(LedgerError::MissingFIndexRecord(start));
                },
            };
            let current: FIndexRecord = match self.findex.get(&end) {
                Some(record) => *record,
                None => {
                    proof {
                        lemma_priced_stops(m, tags, k + 1, (tags.len() - 1) as nat);
                    }
                    return Err(LedgerError::MissingFIndexRecord(end));
                },
            };
            let result: PayFee = match calc_settlement(size, &last, &current) {
                Ok(result) => result,
                Err(e) => {
                    proof {
                        lemma_priced_stops(m, tags, k + 1, (tags.len() - 1) as nat);
                    }
                    return Err(e);
                },
            };
            total = total.add(result);
            let period: SubPeriod = SubPeriod {
                start_f_tag: start,
                end_f_tag: end,
                size_held: size,
                result,
            };
            let ghost periods = sub_periods@;
            sub_periods.push(period);
            assert(sub_periods@.drop_last() == periods);
            while folded < self.fills.len() && self.fills[folded].f_tag == end
                invariant
                    fills == self.fills@,
                    from <= folded <= fills.len(),
                    tags_ascend(fills),
                    start < end <= upto_f_tag,
                    start_f_tag <= start,
                    prefix == inner_tags(fills.take(from), start_f_tag, upto_f_tag),
                    !prefix.contains(end),
                    folded == from ==> (from < fills.len() ==> fills[from].f_tag >= end),
                    forall|i: int| from <= i < folded ==> (#[trigger] fills[i]).f_tag == end,
                    size == merged(m.size, fills.take(folded as int)),
                    inner_tags(fills.take(folded as int), start_f_tag, upto_f_tag) == (if folded > from
                        && end < upto_f_tag {
                        prefix.push(end)
                    } else {
                        prefix
                    }),
                decreases self.fills.len() - folded,
            {
                proof {
                    let next = fills.take(folded + 1);
                    assert(next.drop_last() == fills.take(folded as int));
                    assert(next.last() == fills[folded as int]);
                    assert(prefix.push(end)[prefix.len() as int] == end);
                    assert(prefix.push(end).contains(end));
                }
                size = size + self.fills[folded].size_delta;
                folded = folded + 1;
            }
            proof {
                assert forall|i: int| folded <= i < fills.len() implies (#[trigger] fills[i]).f_tag > end by {
                    assert(fills[from].f_tag <= fills[i].f_tag);
                    assert(fills[folded as int].f_tag <= fills[i].f_tag);
                }
            }
            start = end;
        }
        proof {
            lemma_cut(fills, folded as int, upto_f_tag);
        }
        let rest: Vec<Fill> = self.fills.split_off(folded);
        self.fills = rest;
        self.size_at_checkpoint = size;
        self.checkpoint_f_tag = upto_f_tag;
        self.drop_findex_before(upto_f_tag);
        proof {
            assert(self@.fills == fills.skip(folded as int));
            assert(self@ == settled(m, upto_f_tag));
        }
        Ok(SettlementResult { market_id, start_f_tag, end_f_tag: upto_f_tag, total, sub_periods })
    }
}

/// An error in one window is the outcome of every longer run.
proof fn lemma_priced_stops(m: MarketModel, tags: Seq<u32>, n: nat, total: nat)
    requires
        n <= total,
        priced(m, tags, n) is Err,
    ensures
        priced(m, tags, total) == priced(m, tags, n),
    decreases total,
{
    if n < total {
        lemma_priced_stops(m, tags, n, (total - 1) as nat);
    }
}

/// Per-market settlement of the floating leg and the protocol fee.
pub struct SettlementLedger {
    markets: HashMap<u32, MarketLedger>,
}

impl View for SettlementLedger {
    type V = Map<u32, MarketModel>;

    closed spec fn view(&self) -> Map<u32, MarketModel> {
        self.markets@.map_values(|l: MarketLedger| l@)
    }
}

impl SettlementLedger {
    /// Every market's history is in order and starts at its checkpoint.
    pub open spec fn wf(&self) -> bool {
        forall|id: u32| #[trigger] self@.contains_key(id) ==> self@[id].wf()
    }

    /// A ledger with no market.
    pub fn new() -> (r: Self)
        ensures
            r.wf(),
            r@ == Map::<u32, MarketModel>::empty(),
    {
        let r = SettlementLedger { markets: HashMap::new() };
        assert(r@ =~= Map::<u32, MarketModel>::empty());
        r
    }

    /// Registers a market with the size it holds as of a tag, forgetting
    /// whatever was known of it.
    pub fn init_market(&mut self, market_id: u32, initial_size: FixedX18, as_of_f_tag: u32)
        requires
            old(self).wf(),
        ensures
            final(self).wf(),
            final(self)@ == old(self)@.insert(
                market_id,
                (MarketModel {
                    fills: Seq::empty(),
                    findex: Map::empty(),
                    size: initial_size,
                    checkpoint: as_of_f_tag,
                }),
            ),
    {
        self.markets.insert(market_id, MarketLedger::new(initial_size, as_of_f_tag));
        proof {
            let fresh = MarketModel {
                fills: Seq::empty(),
                findex: Map::empty(),
                size: initial_size,
                checkpoint: as_of_f_tag,
            };
            assert(self@ =~= old(self)@.insert(market_id, fresh));
        }
    }

    /// Records a fill. One on the checkpoint's own tag is merged at once; a
    /// later one waits for the next settlement.
    pub fn record_fill(&mut self, market_id: u32, fill: Fill) -> (r: Result<(), LedgerError>)
        requires
            old(self).wf(),
        ensures
            final(self).wf(),
            !old(self)@.contains_key(market_id) ==> r == Err::<(), LedgerError>(
                LedgerError::UnknownMarket(market_id),
            ) && final(self)@ == old(self)@,
            old(self)@.contains_key(market_id) ==> match with_fill(old(self)@[market_id], fill) {
                Ok(m) => r is Ok && final(self)@ == old(self)@.insert(market_id, m),
                Err(e) => r == Err::<(), LedgerError>(e) && final(self)@ == old(self)@,
            },
    {
        match self.markets.remove(&market_id) {
            None => {
                assert(self@ =~= old(self)@);
                Err(LedgerError::UnknownMarket(market_id))
            },
            Some(ledger) => {
                let mut ledger = ledger;
                assert(old(self)@.contains_key(market_id) && old(self)@[market_id] == ledger@);
                let r = ledger.record_fill(fill);
                self.markets.insert(market_id, ledger);
                assert(self@ =~= old(self)@.insert(market_id, ledger@));
                proof {
                    if r is Err {
                        assert(self@ =~= old(self)@);
                    }
                }
                r
            },
        }
    }

    /// Records the exact index published at a tag. Recording it again is a
    /// no-op; a different record for a known tag is refused.
    pub fn record_findex(&mut self, market_id: u32, record: FIndexRecord) -> (r: Result<
        (),
        LedgerError,
    >)
        requires
            old(self).wf(),
        ensures
            final(self).wf(),
            !old(self)@.contains_key(market_id) ==> r == Err::<(), LedgerError>(
                LedgerError::UnknownMarket(market_id),
            ) && final(self)@ == old(self)@,
            old(self)@.contains_key(market_id) ==> match with_findex(old(self)@[market_id], record) {
                Ok(m) => r is Ok && final(self)@ == old(self)@.insert(market_id, m),
                Err(e) => r == Err::<(), LedgerError>(e) && final(self)@ == old(self)@,
            },
    {
        match self.markets.remove(&market_id) {
            None => {
                assert(self@ =~= old(self)@);
                Err(LedgerError::UnknownMarket(market_id))
            },
            Some(ledger) => {
                let mut ledger = ledger;
                assert(old(self)@.contains_key(market_id) && old(self)@[market_id] == ledger@);
                let r = ledger.record_findex(record);
                self.markets.insert(market_id, ledger);
                assert(self@ =~= old(self)@.insert(market_id, ledger@));
                proof {
                    if r is Err {
                        assert(self@ =~= old(self)@);
                    }
                }
                r
            },
        }
    }

    /// Computes payment and fee from the checkpoint to `upto_f_tag` and moves
    /// the checkpoint there. Every sub-period boundary needs its exact index
    /// record; on any error the ledger is unchanged.
    pub fn settle_to(&mut self, market_id: u32, upto_f_tag: u32) -> (r: Result<
        SettlementResult,
        LedgerError,
    >)
        requires
            old(self).wf(),
        ensures
            final(self).wf(),
            !old(self)@.contains_key(market_id) ==> (r matches Err(e) && e == LedgerError::UnknownMarket(
                market_id,
            )) && final(self)@ == old(self)@,
            old(self)@.contains_key(market_id) ==> match settlement_periods(
                old(self)@[market_id],
                upto_f_tag,
            ) {
                Ok(periods) => {
                    &&& r matches Ok(res)
                    &&& res.market_id == market_id
                    &&& res.start_f_tag == old(self)@[market_id].checkpoint
                    &&& res.end_f_tag == upto_f_tag
                    &&& res.sub_periods@ == periods
                    &&& res.total == total_of(periods)
                    &&& final(self)@ == old(self)@.insert(
                        market_id,
                        settled(old(self)@[market_id], upto_f_tag),
                    )
                },
                Err(e) => (r matches Err(err) && err == e) && final(self)@ == old(self)@,
            },
    {
        match self.markets.remove(&market_id) {
            None => {
                assert(self@ =~= old(self)@);
                Err(LedgerError::UnknownMarket(market_id))
            },
            Some(ledger) => {
                let mut ledger = ledger;
                assert(old(self)@.contains_key(market_id) && old(self)@[market_id] == ledger@);
                let r = ledger.settle_to(market_id, upto_f_tag);
                self.markets.insert(market_id, ledger);
                assert(self@ =~= old(self)@.insert(market_id, ledger@));
                proof {
                    if r is Err {
                        assert(self@ =~= old(self)@);
                    }
                }
                r
            },
        }
    }

    /// The size held as of the market's checkpoint.
    pub fn position_size(&self, market_id: u32) -> (r: Option<FixedX18>)
        ensures
            r == (if self@.contains_key(market_id) {
                Some(self@[market_id].size)
            } else {
                None
            }),
    {
        match self.markets.get(&market_id) {
            Some(ledger) => Some(ledger.size_at_checkpoint),
            None => None,
        }
    }

    /// The tag up to which the market is settled.
    pub fn checkpoint(&self, market_id: u32) -> (r: Option<u32>)
        ensures
            r == (if self@.contains_key(market_id) {
                Some(self@[market_id].checkpoint)
            } else {
                None
            }),
    {
        match self.markets.get(&market_id) {
            Some(ledger) => Some(ledger.checkpoint_f_tag),
            None => None,
        }
    }
}

impl Default for SettlementLedger {
    fn default() -> (r: Self)
        ensures
            r.wf(),
            r@ == Map::<u32, MarketModel>::empty(),
    {
        SettlementLedger::new()
    }
}

/// An index that did not move pays nothing and costs nothing, whatever the size.
pub proof fn law_unmoved_index_settles_to_nothing(
    size: FixedX18,
    last: FIndexRecord,
    current: FIndexRecord,
)
    requires
        last.floating_index == current.floating_index,
        last.fee_index == current.fee_index,
    ensures
        settlement_of(size, last, current) == Ok::<PayFee, LedgerError>(types::nothing()),
{
}

/// Both legs round in the protocol's favour: the payment is never above its
/// exact value, the fee never below it, and neither is off by a whole unit.
pub proof fn law_rounding_favours_the_protocol(
    size: FixedX18,
    last: FIndexRecord,
    current: FIndexRecord,
)
    requires
        settlement_of(size, last, current) is Ok,
    ensures
        ({
            let paid = settlement_of(size, last, current)->Ok_0;
            let floating = fixed::wrapped_sub(current.floating_index.0, last.floating_index.0);
            let fee = fixed::wrapped_sub(current.fee_index.0, last.fee_index.0);
            let exact_fee = math::magnitude(size.0 as int) * fee;
            &&& paid.payment.0 * FixedX18::SCALE <= size.0 * floating < (paid.payment.0 + 1)
                * FixedX18::SCALE
            &&& (paid.fee.0 - 1) * FixedX18::SCALE < exact_fee <= paid.fee.0 * FixedX18::SCALE
            &&& paid.fee.0 >= 0
        }),
{
    let scale = FixedX18::SCALE as int;
    let floating = fixed::wrapped_sub(current.floating_index.0, last.floating_index.0);
    let fee = fixed::wrapped_sub(current.fee_index.0, last.fee_index.0);
    let exact_fee = math::magnitude(size.0 as int) * fee;
    if last.floating_index == current.floating_index && last.fee_index == current.fee_index {
        assert(size.0 * floating == 0) by (nonlinear_arith)
            requires
                floating == 0,
        ;
        assert(exact_fee == 0) by (nonlinear_arith)
            requires
                fee == 0,
                exact_fee == math::magnitude(size.0 as int) * fee,
        ;
    } else {
        math::law_rounding_directions(size.0 * floating, scale);
        math::law_rounding_directions(exact_fee, scale);
        assert(exact_fee >= 0) by (nonlinear_arith)
            requires
                fee >= 0,
                math::magnitude(size.0 as int) >= 0,
                exact_fee == math::magnitude(size.0 as int) * fee,
        ;
    }
}

proof fn lemma_merged_concat(size: FixedX18, first: Seq<Fill>, second: Seq<Fill>)
    ensures
        merged(merged(size, first), second) == merged(size, first + second),
    decreases second.len(),
{
    if second.len() == 0 {
        assert(first + second == first);
    } else {
        lemma_merged_concat(size, first, second.drop_last());
        assert((first + second).drop_last() == first + second.drop_last());
        assert((first + second).last() == second.last());
    }
}

proof fn lemma_cut_point(fills: Seq<Fill>, tag: u32) -> (cut: int)
    requires
        tags_ascend(fills),
    ensures
        0 <= cut <= fills.len(),
        forall|i: int| 0 <= i < cut ==> (#[trigger] fills[i]).f_tag <= tag,
        forall|i: int| cut <= i < fills.len() ==> (#[trigger] fills[i]).f_tag > tag,
    decreases fills.len(),
{
    if fills.len() == 0 {
        0
    } else if fills.last().f_tag > tag {
        let rest = fills.drop_last();
        let cut = lemma_cut_point(rest, tag);
        assert forall|i: int| 0 <= i < cut implies (#[trigger] fills[i]).f_tag <= tag by {
            assert(rest[i].f_tag <= tag);
        }
        assert forall|i: int| cut <= i < fills.len() implies (#[trigger] fills[i]).f_tag > tag by {
            if i < rest.len() {
                assert(rest[i].f_tag > tag);
            }
        }
        cut
    } else {
        assert forall|i: int| 0 <= i < fills.len() implies (#[trigger] fills[i]).f_tag <= tag by {
            assert(fills[i].f_tag <= fills[fills.len() - 1].f_tag);
        }
        fills.len() as int
    }
}

/// Settling in two steps leaves the market as settling in one: same size, same
/// pending fills, same records, same checkpoint.
pub proof fn law_two_settlements_end_where_one_does(m: MarketModel, mid: u32, upto: u32)
    requires
        m.wf(),
        m.checkpoint <= mid <= upto,
    ensures
        settled(settled(m, mid), upto) == settled(m, upto),
{
    let a = lemma_cut_point(m.fills, mid);
    let b = lemma_cut_point(m.fills, upto);
    lemma_cut(m.fills, a, mid);
    lemma_cut(m.fills, b, upto);
    if mid == m.checkpoint || mid == upto {
    } else {
        assert(a <= b) by {
            if b < a {
                assert(m.fills[b].f_tag <= mid);
            }
        }
        let later = m.fills.skip(a);
        lemma_cut(later, b - a, upto);
        assert(m.fills.take(b) == m.fills.take(a) + later.take(b - a));
        assert(later.skip(b - a) == m.fills.skip(b));
        lemma_merged_concat(m.size, m.fills.take(a), later.take(b - a));
        assert(settled(settled(m, mid), upto).findex =~= settled(m, upto).findex);
    }
}

/// The sub-periods of a settlement tile the window: they start at the
/// checkpoint, end at the target, and each begins where the previous one ends
/// and before it ends itself. Inside the window they meet exactly at the tags of
/// the pending fills, once at each.
pub proof fn law_sub_periods_tile_the_window(m: MarketModel, upto: u32)
    requires
        m.wf(),
        m.checkpoint < upto,
        settlement_periods(m, upto) is Ok,
    ensures
        ({
            let periods = settlement_periods(m, upto)->Ok_0;
            &&& periods.len() > 0
            &&& periods[0].start_f_tag == m.checkpoint
            &&& periods[periods.len() - 1].end_f_tag == upto
            &&& forall|i: int|
                0 < i < periods.len() ==> (#[trigger] periods[i]).start_f_tag == periods[i - 1].end_f_tag
            &&& forall|i: int|
                0 <= i < periods.len() ==> (#[trigger] periods[i]).start_f_tag < periods[i].end_f_tag
            &&& forall|tag: u32| #[trigger]
                meets_at(periods, tag) <==> m.checkpoint < tag < upto && has_fill_at(m.fills, tag)
            &&& forall|i: int|
                0 <= i < periods.len() ==> (#[trigger] periods[i]).size_held == size_held(
                    m.size,
                    m.fills,
                    periods[i].start_f_tag,
                )
        }),
{
    let tags = boundaries(m.fills, m.checkpoint, upto);
    let inner = inner_tags(m.fills, m.checkpoint, upto);
    let periods = settlement_periods(m, upto)->Ok_0;
    lemma_priced_shape(m, tags, (tags.len() - 1) as nat);
    lemma_boundaries_ascend(m.fills, m.checkpoint, upto);
    lemma_inner_tags_distinct(m.fills, m.checkpoint, upto);
    assert forall|k: int| 0 <= k < inner.len() implies m.checkpoint < #[trigger] inner[k] < upto by {
        assert(inner.contains(inner[k]));
        lemma_inner_tag_has_fill(m.fills, m.checkpoint, upto, inner[k]);
    }
    assert forall|i: int| 0 <= i < periods.len() implies (#[trigger] periods[i]).start_f_tag
        < periods[i].end_f_tag by {
        assert(tags[i] <= tags[i + 1]);
        if i > 0 {
            assert(tags[i] == inner[i - 1]);
        }
        if i + 1 < tags.len() - 1 {
            assert(tags[i + 1] == inner[i]);
        }
        if 0 < i && i + 1 < tags.len() - 1 {
            assert(inner[i - 1] != inner[i]);
        }
    }
    assert forall|tag: u32| #[trigger] meets_at(periods, tag) <==> m.checkpoint < tag < upto && has_fill_at(
        m.fills,
        tag,
    ) by {
        if meets_at(periods, tag) {
            let i = choose|i: int| 0 < i < periods.len() && (#[trigger] periods[i]).start_f_tag == tag;
            assert(inner[i - 1] == tag);
            assert(inner.contains(tag));
            lemma_inner_tag_has_fill(m.fills, m.checkpoint, upto, tag);
        }
        if m.checkpoint < tag < upto && has_fill_at(m.fills, tag) {
            lemma_fill_is_inner(m.fills, m.checkpoint, upto, tag);
            let k = choose|k: int| 0 <= k < inner.len() && inner[k] == tag;
            assert(tags[k + 1] == tag);
            assert(periods[k + 1].start_f_tag == tag);
        }
    }
}

/// Whether two neighbouring sub-periods meet at a tag.
pub open spec fn meets_at(periods: Seq<SubPeriod>, tag: u32) -> bool {
    exists|i: int| 0 < i < periods.len() && (#[trigger] periods[i]).start_f_tag == tag
}

/// Whether a fill has a tag.
pub open spec fn has_fill_at(fills: Seq<Fill>, tag: u32) -> bool {
    exists|i: int| 0 <= i < fills.len() && (#[trigger] fills[i]).f_tag == tag
}

/// Inner tags are listed once each.
proof fn lemma_inner_tags_distinct(fills: Seq<Fill>, start: u32, upto: u32)
    ensures
        inner_tags(fills, start, upto).no_duplicates(),
    decreases fills.len(),
{
    if fills.len() > 0 {
        lemma_inner_tags_distinct(fills.drop_last(), start, upto);
        let rest = inner_tags(fills.drop_last(), start, upto);
        let all = inner_tags(fills, start, upto);
        assert forall|i: int, j: int| 0 <= i < all.len() && 0 <= j < all.len() && i != j implies all[i]
            != all[j] by {
            if i == rest.len() {
                assert(rest.contains(rest[j]));
            }
            if j == rest.len() {
                assert(rest.contains(rest[i]));
            }
        }
    }
}

/// The tag of a fill inside the window is an inner tag.
proof fn lemma_fill_is_inner(fills: Seq<Fill>, start: u32, upto: u32, tag: u32)
    requires
        start < tag < upto,
        has_fill_at(fills, tag),
    ensures
        inner_tags(fills, start, upto).contains(tag),
    decreases fills.len(),
{
    let i = choose|i: int| 0 <= i < fills.len() && (#[trigger] fills[i]).f_tag == tag;
    let rest = inner_tags(fills.drop_last(), start, upto);
    let all = inner_tags(fills, start, upto);
    if fills.last().f_tag == tag {
        if !rest.contains(tag) {
            assert(all[rest.len() as int] == tag);
        }
    } else {
        assert(fills.drop_last()[i].f_tag == tag);
        lemma_fill_is_inner(fills.drop_last(), start, upto, tag);
        let k = choose|k: int| 0 <= k < rest.len() && rest[k] == tag;
        assert(all[k] == tag);
    }
}

proof fn lemma_priced_shape(m: MarketModel, tags: Seq<u32>, n: nat)
    requires
        n < tags.len(),
        priced(m, tags, n) is Ok,
    ensures
        ({
            let periods = priced(m, tags, n)->Ok_0;
            &&& periods.len() == n
            &&& forall|i: int|
                0 <= i < n ==> (#[trigger] periods[i]).start_f_tag == tags[i] && periods[i].end_f_tag
                    == tags[i + 1] && periods[i].size_held == size_held(m.size, m.fills, tags[i])
        }),
    decreases n,
{
    if n > 0 {
        lemma_priced_shape(m, tags, (n - 1) as nat);
    }
}

/// Every inner tag is the tag of a fill and lies strictly inside the window.
proof fn lemma_inner_tag_has_fill(fills: Seq<Fill>, start: u32, upto: u32, tag: u32)
    requires
        inner_tags(fills, start, upto).contains(tag),
    ensures
        start < tag < upto,
        exists|i: int| 0 <= i < fills.len() && (#[trigger] fills[i]).f_tag == tag,
    decreases fills.len(),
{
    if fills.len() > 0 {
        let rest = inner_tags(fills.drop_last(), start, upto);
        let all = inner_tags(fills, start, upto);
        let k = choose|k: int| 0 <= k < all.len() && all[k] == tag;
        if k < rest.len() {
            assert(rest[k] == tag);
            lemma_inner_tag_has_fill(fills.drop_last(), start, upto, tag);
            let i = choose|i: int|
                0 <= i < fills.drop_last().len() && (#[trigger] fills.drop_last()[i]).f_tag == tag;
            assert(fills[i].f_tag == tag);
        } else {
            assert(fills[fills.len() - 1].f_tag == tag);
        }
    }
}

/// Widening the window past its last fill tag adds that tag and nothing else.
proof fn lemma_inner_tags_widen(fills: Seq<Fill>, start: u32, mid: u32, upto: u32)
    requires
        tags_ascend(fills),
        start < mid < upto,
        forall|i: int| 0 <= i < fills.len() ==> (#[trigger] fills[i]).f_tag <= mid,
    ensures
        inner_tags(fills, start, upto) == (if fills.len() > 0 && fills.last().f_tag == mid {
            inner_tags(fills, start, mid).push(mid)
        } else {
            inner_tags(fills, start, mid)
        }),
    decreases fills.len(),
{
    if fills.len() > 0 {
        let rest = fills.drop_last();
        assert(tags_ascend(rest));
        lemma_inner_tags_widen(rest, start, mid, upto);
        assert(fills[fills.len() - 1].f_tag <= mid);
        let wide = inner_tags(rest, start, upto);
        let narrow = inner_tags(rest, start, mid);
        if narrow.contains(mid) {
            lemma_inner_tag_has_fill(rest, start, mid, mid);
        }
        if rest.len() > 0 {
            assert(fills[rest.len() - 1].f_tag <= fills[fills.len() - 1].f_tag);
        }
        if fills.last().f_tag == mid {
            if rest.len() > 0 && rest.last().f_tag == mid {
                assert(wide[wide.len() - 1] == mid);
                assert(wide.contains(mid));
            }
        } else {
            assert(wide == narrow);
        }
    }
}

/// The inner tags of a run of fills that is cut at a tag.
proof fn lemma_inner_tags_concat(first: Seq<Fill>, second: Seq<Fill>, start: u32, mid: u32, upto: u32)
    requires
        start < mid < upto,
        forall|i: int| 0 <= i < first.len() ==> (#[trigger] first[i]).f_tag <= mid,
        forall|i: int| 0 <= i < second.len() ==> (#[trigger] second[i]).f_tag > mid,
    ensures
        inner_tags(first + second, start, upto) == inner_tags(first, start, upto) + inner_tags(
            second,
            mid,
            upto,
        ),
    decreases second.len(),
{
    if second.len() == 0 {
        assert(first + second == first);
        assert(inner_tags(second, mid, upto) == Seq::<u32>::empty());
        assert(inner_tags(first, start, upto) + Seq::<u32>::empty() == inner_tags(first, start, upto));
    } else {
        let shorter = second.drop_last();
        assert((first + second).drop_last() == first + shorter);
        assert((first + second).last() == second.last());
        lemma_inner_tags_concat(first, shorter, start, mid, upto);
        lemma_inner_tags_bounded(first, start, upto, mid);
        let a = inner_tags(first, start, upto);
        let b = inner_tags(shorter, mid, upto);
        let tag = second.last().f_tag;
        assert(second[second.len() - 1].f_tag > mid);
        assert((a + b).contains(tag) <==> b.contains(tag)) by {
            if b.contains(tag) {
                let k = choose|k: int| 0 <= k < b.len() && b[k] == tag;
                assert((a + b)[a.len() + k] == tag);
            }
            if (a + b).contains(tag) {
                let k = choose|k: int| 0 <= k < (a + b).len() && (a + b)[k] == tag;
                if k < a.len() {
                    assert(a[k] == tag);
                    assert(a.contains(tag));
                } else {
                    assert(b[k - a.len()] == tag);
                }
            }
        }
        assert((a + b).push(tag) == a + b.push(tag));
    }
}

/// Past the cut, a settled market prices as the unsettled one does.
proof fn lemma_settled_prices_alike(m: MarketModel, mid: u32, start: u32, end: u32)
    requires
        m.wf(),
        m.checkpoint < mid <= start <= end,
    ensures
        size_held(settled(m, mid).size, settled(m, mid).fills, start) == size_held(
            m.size,
            m.fills,
            start,
        ),
        forall|size: FixedX18| #[trigger]
            window_settlement(settled(m, mid).findex, size, start, end) == window_settlement(
                m.findex,
                size,
                start,
                end,
            ),
{
    let a = lemma_cut_point(m.fills, mid);
    let b = lemma_cut_point(m.fills, start);
    lemma_cut(m.fills, a, mid);
    lemma_cut(m.fills, b, start);
    assert(a <= b) by {
        if b < a {
            assert(m.fills[b].f_tag <= mid);
        }
    }
    let later = m.fills.skip(a);
    lemma_cut(later, b - a, start);
    assert(m.fills.take(b) == m.fills.take(a) + later.take(b - a));
    lemma_merged_concat(m.size, m.fills.take(a), later.take(b - a));
}

/// Pricing reads only the tags of the sub-periods it prices.
proof fn lemma_priced_prefix(m: MarketModel, tags: Seq<u32>, longer: Seq<u32>, n: nat)
    requires
        n < tags.len() <= longer.len(),
        forall|i: int| 0 <= i < tags.len() ==> tags[i] == longer[i],
    ensures
        priced(m, tags, n) == priced(m, longer, n),
    decreases n,
{
    if n > 0 {
        lemma_priced_prefix(m, tags, longer, (n - 1) as nat);
    }
}

/// Two runs of sub-periods, or the first error.
pub open spec fn in_turn(
    first: Result<Seq<SubPeriod>, LedgerError>,
    second: Result<Seq<SubPeriod>, LedgerError>,
) -> Result<Seq<SubPeriod>, LedgerError> {
    match first {
        Err(e) => Err(e),
        Ok(a) => match second {
            Err(e) => Err(e),
            Ok(b) => Ok(a + b),
        },
    }
}

proof fn lemma_priced_concat(
    m: MarketModel,
    mid: u32,
    head: Seq<u32>,
    tail: Seq<u32>,
    n: nat,
)
    requires
        m.wf(),
        m.checkpoint < mid,
        head.len() > 0,
        head.last() == mid,
        n < tail.len(),
        tail[0] == mid,
        forall|i: int| 0 <= i < tail.len() ==> mid <= #[trigger] tail[i],
        forall|i: int, j: int| 0 <= i <= j < tail.len() ==> #[trigger] tail[i] <= #[trigger] tail[j],
    ensures
        priced(m, head + tail.skip(1), (head.len() - 1 + n) as nat) == in_turn(
            priced(m, head, (head.len() - 1) as nat),
            priced(settled(m, mid), tail, n),
        ),
    decreases n,
{
    let all = head + tail.skip(1);
    let h = (head.len() - 1) as nat;
    lemma_priced_prefix(m, head, all, h);
    if n == 0 {
        match priced(m, head, h) {
            Ok(a) => assert(a + Seq::<SubPeriod>::empty() == a),
            Err(_) => {},
        }
    } else {
        lemma_priced_concat(m, mid, head, tail, (n - 1) as nat);
        let start = tail[n - 1];
        let end = tail[n as int];
        assert(all[h + n - 1] == start) by {
            if n == 1 {
                assert(all[h as int] == head[h as int]);
            }
        }
        assert(all[(h + n) as int] == end);
        lemma_settled_prices_alike(m, mid, start, end);
        match (priced(m, head, h), priced(settled(m, mid), tail, (n - 1) as nat)) {
            (Ok(a), Ok(b)) => {
                let size = size_held(m.size, m.fills, start);
                match window_settlement(m.findex, size, start, end) {
                    Ok(result) => {
                        let p = SubPeriod { start_f_tag: start, end_f_tag: end, size_held: size, result };
                        assert((a + b).push(p) == a + b.push(p));
                    },
                    Err(_) => {},
                }
            },
            _ => {},
        }
    }
}

proof fn lemma_inner_tags_ascend(fills: Seq<Fill>, start: u32, upto: u32)
    requires
        tags_ascend(fills),
    ensures
        ({
            let tags = inner_tags(fills, start, upto);
            forall|i: int, j: int| 0 <= i <= j < tags.len() ==> #[trigger] tags[i] <= #[trigger] tags[j]
        }),
    decreases fills.len(),
{
    if fills.len() > 0 {
        let rest = fills.drop_last();
        assert(tags_ascend(rest));
        lemma_inner_tags_ascend(rest, start, upto);
        let last = fills.last().f_tag;
        assert forall|i: int| 0 <= i < rest.len() implies (#[trigger] rest[i]).f_tag <= last by {
            assert(fills[i].f_tag <= fills[fills.len() - 1].f_tag);
        }
        lemma_inner_tags_bounded(rest, start, upto, last);
        let tags = inner_tags(rest, start, upto);
        assert forall|i: int| 0 <= i < tags.len() implies #[trigger] tags[i] <= last by {
            assert(tags.contains(tags[i]));
        }
    }
}

/// The boundaries over two runs of fills, the first of which ends at `mid`.
proof fn lemma_boundaries_concat(
    first: Seq<Fill>,
    second: Seq<Fill>,
    start: u32,
    mid: u32,
    upto: u32,
)
    requires
        start < mid < upto,
        tags_ascend(first),
        first.len() > 0,
        first.last().f_tag == mid,
        forall|i: int| 0 <= i < second.len() ==> (#[trigger] second[i]).f_tag > mid,
    ensures
        boundaries(first + second, start, upto) == boundaries(first, start, mid) + boundaries(
            second,
            mid,
            upto,
        ).skip(1),
{
    assert forall|i: int| 0 <= i < first.len() implies (#[trigger] first[i]).f_tag <= mid by {
        assert(first[i].f_tag <= first[first.len() - 1].f_tag);
    }
    lemma_inner_tags_concat(first, second, start, mid, upto);
    lemma_inner_tags_widen(first, start, mid, upto);
    lemma_rejoin(start, inner_tags(first, start, mid), mid, inner_tags(second, mid, upto), upto);
}

/// The boundaries of a window that is cut at a fill's tag.
proof fn lemma_boundaries_cut(fills: Seq<Fill>, start: u32, mid: u32, upto: u32, k: int)
    requires
        tags_ascend(fills),
        start < mid < upto,
        0 <= k < fills.len(),
        fills[k].f_tag == mid,
    ensures
        boundaries(fills, start, upto) == boundaries(fills, start, mid) + boundaries(
            fills_after(fills, mid),
            mid,
            upto,
        ).skip(1),
        tags_ascend(fills_after(fills, mid)),
{
    let c = lemma_cut_point(fills, mid);
    lemma_cut(fills, c, mid);
    let first = fills.take(c);
    let second = fills.skip(c);
    assert(tags_ascend(first));
    assert(tags_ascend(second)) by {
        assert forall|i: int, j: int| 0 <= i <= j < second.len() implies (#[trigger] second[i]).f_tag <= (
        #[trigger] second[j]).f_tag by {
            assert(fills[c + i].f_tag <= fills[c + j].f_tag);
        }
    }
    assert(first.last().f_tag == mid) by {
        assert(fills[k].f_tag <= fills[c - 1].f_tag);
    }
    assert forall|i: int| 0 <= i < second.len() implies (#[trigger] second[i]).f_tag > mid by {
        assert(fills[c + i].f_tag > mid);
    }
    lemma_boundaries_concat(first, second, start, mid, upto);
    lemma_inner_tags_tail(fills, c, start, mid);
    assert(fills =~= first + second);
}

proof fn lemma_rejoin(start: u32, inner: Seq<u32>, mid: u32, outer: Seq<u32>, upto: u32)
    ensures
        seq![start] + (inner.push(mid) + outer) + seq![upto] == (seq![start] + inner + seq![mid]) + (
        seq![mid] + outer + seq![upto]).skip(1),
{
    assert((seq![mid] + outer + seq![upto]).skip(1) =~= outer + seq![upto]);
    assert(seq![start] + (inner.push(mid) + outer) + seq![upto] =~= (seq![start] + inner + seq![mid]) + (
    outer + seq![upto]));
}

/// Boundaries ascend from the start of their window to its end.
proof fn lemma_boundaries_ascend(fills: Seq<Fill>, start: u32, upto: u32)
    requires
        tags_ascend(fills),
        start <= upto,
    ensures
        ({
            let tags = boundaries(fills, start, upto);
            forall|i: int, j: int| 0 <= i <= j < tags.len() ==> #[trigger] tags[i] <= #[trigger] tags[j]
        }),
{
    let inner = inner_tags(fills, start, upto);
    let tags = boundaries(fills, start, upto);
    lemma_inner_tags_ascend(fills, start, upto);
    assert forall|k: int| 0 <= k < inner.len() implies start <= #[trigger] inner[k] <= upto by {
        assert(inner.contains(inner[k]));
        lemma_inner_tag_has_fill(fills, start, upto, inner[k]);
    }
    assert forall|k: int| 0 <= k < inner.len() implies #[trigger] tags[k + 1] == inner[k] by {}
    assert forall|i: int, j: int| 0 <= i <= j < tags.len() implies #[trigger] tags[i] <= #[trigger] tags[j] by {
        if 0 < i < tags.len() - 1 {
            assert(tags[i] == inner[i - 1]);
        }
        if 0 < j < tags.len() - 1 {
            assert(tags[j] == inner[j - 1]);
        }
    }
}

/// The total of two runs of sub-periods is the sum of their totals.
proof fn lemma_totals_add(first: Seq<SubPeriod>, second: Seq<SubPeriod>)
    ensures
        total_of(first + second) == types::sum_of(total_of(first), total_of(second)),
    decreases second.len(),
{
    if second.len() == 0 {
        assert(first + second == first);
    } else {
        assert((first + second).drop_last() == first + second.drop_last());
        lemma_totals_add(first, second.drop_last());
    }
}

/// Settling can stop on the way at any fill's tag: settling up to it and then
/// on to the target gives the sub-periods, in turn, of settling to the target
/// at once, fails as it does, and adds up to the same total.
pub proof fn law_stopping_at_a_fill_changes_nothing(m: MarketModel, mid: u32, upto: u32)
    requires
        m.wf(),
        mid < upto,
        exists|i: int| 0 <= i < m.fills.len() && (#[trigger] m.fills[i]).f_tag == mid,
    ensures
        settlement_periods(m, upto) == in_turn(
            settlement_periods(m, mid),
            settlement_periods(settled(m, mid), upto),
        ),
        settlement_periods(m, upto) is Ok ==> total_of(settlement_periods(m, upto)->Ok_0) == types::sum_of(
            total_of(settlement_periods(m, mid)->Ok_0),
            total_of(settlement_periods(settled(m, mid), upto)->Ok_0),
        ),
{
    let k = choose|i: int| 0 <= i < m.fills.len() && (#[trigger] m.fills[i]).f_tag == mid;
    lemma_boundaries_cut(m.fills, m.checkpoint, mid, upto, k);
    let head = boundaries(m.fills, m.checkpoint, mid);
    let tail = boundaries(fills_after(m.fills, mid), mid, upto);
    lemma_boundaries_ascend(fills_after(m.fills, mid), mid, upto);
    assert(tail[0] == mid);
    assert forall|i: int| 0 <= i < tail.len() implies mid <= #[trigger] tail[i] by {
        assert(tail[0] <= tail[i]);
    }
    lemma_priced_concat(m, mid, head, tail, (tail.len() - 1) as nat);
    lemma_totals_add(settlement_periods(m, mid)->Ok_0, settlement_periods(settled(m, mid), upto)->Ok_0);
}

} // verus!
