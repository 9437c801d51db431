//! What a settlement pays and leaves behind, in plain arithmetic.

use vstd::prelude::*;

use crate::settlement_ledger::error::LedgerError;
use crate::settlement_ledger::ledger;
use crate::settlement_ledger::ledger::MarketModel;
use crate::settlement_ledger::types::{FIndexRecord, Fill, PayFee, SubPeriod};
use crate::tick_math::accuracy;
use crate::tick_math::FixedX18;

verus! {

/// What the fills up to and including a tag add, together.
pub open spec fn added_through(fills: Seq<Fill>, tag: u32) -> int
    decreases fills.len(),
{
    if fills.len() == 0 {
        0
    } else {
        added_through(fills.drop_last(), tag) + (if fills.last().f_tag <= tag {
            fills.last().size_delta.0 as int
        } else {
            0
        })
    }
}

/// Whether a size stays in range while the fills up to a tag are merged one by one.
pub open spec fn sizes_fit(size: FixedX18, fills: Seq<Fill>, tag: u32) -> bool {
    forall|n: int|
        0 <= n <= fills.len() ==> i128::MIN <= size.0 + #[trigger] added_through(fills.take(n), tag) <= i128::MAX
}

/// The size held at a tag is the size at the checkpoint and every fill up to and
/// including that tag, together.
pub proof fn law_the_size_held_is_every_fill_so_far(size: FixedX18, fills: Seq<Fill>, tag: u32)
    requires
        sizes_fit(size, fills, tag),
    ensures
        ledger::size_held(size, fills, tag).0 == size.0 + added_through(fills, tag),
    decreases fills.len(),
{
    reveal(Seq::filter);
    assert(fills.take(fills.len() as int) =~= fills);
    if fills.len() > 0 {
        let front = fills.drop_last();
        assert forall|n: int| 0 <= n <= front.len() implies i128::MIN <= size.0 + #[trigger] added_through(
            front.take(n),
            tag,
        ) <= i128::MAX by {
            assert(front.take(n) =~= fills.take(n));
        }
        law_the_size_held_is_every_fill_so_far(size, front, tag);
        assert(i128::MIN <= size.0 + added_through(fills.take(fills.len() as int), tag) <= i128::MAX);
        let through = ledger::fills_through(fills, tag);
        let before = ledger::fills_through(front, tag);
        if fills.last().f_tag <= tag {
            assert(through == before.push(fills.last()));
            assert(through.drop_last() =~= before);
        } else {
            assert(through == before);
        }
    }
}

/// What a constant size earns and owes between two records: the size times the move
/// of the floating index, rounded down, and the magnitude of the size times the move
/// of the fee index, rounded up.
pub proof fn law_a_period_pays_its_index_moves(size: FixedX18, last: FIndexRecord, current: FIndexRecord)
    requires
        i128::MIN <= current.floating_index.0 - last.floating_index.0 <= i128::MAX,
        i128::MIN <= current.fee_index.0 - last.fee_index.0 <= i128::MAX,
    ensures
        ({
            let floating = current.floating_index.0 - last.floating_index.0;
            let fee = current.fee_index.0 - last.fee_index.0;
            let magnitude = if size.0 < 0 {
                -(size.0 as int)
            } else {
                size.0 as int
            };
            let scale: int = 1_000_000_000_000_000_000;
            let paid = ledger::settlement_of(size, last, current);
            let payable = -(i128::MAX + 1) * scale < size.0 * floating < (i128::MAX + 1) * scale;
            &&& paid matches Ok(r) ==> {
                &&& r.payment.0 * scale <= size.0 * floating < (r.payment.0 + 1) * scale
                &&& (r.fee.0 - 1) * scale < magnitude * fee <= r.fee.0 * scale
                &&& r.fee.0 >= 0
            }
            &&& paid is Ok <==> payable && fee >= 0 && magnitude * fee <= i128::MAX * scale
            &&& payable && fee < 0 ==> paid == Err::<PayFee, LedgerError>(
                LedgerError::FeeIndexDecreased { last_f_tag: last.f_tag, current_f_tag: current.f_tag },
            )
        }),
{
    let floating = current.floating_index.0 - last.floating_index.0;
    let fee = current.fee_index.0 - last.fee_index.0;
    let scale: int = 1_000_000_000_000_000_000;
    let magnitude = crate::tick_math::math::magnitude(size.0 as int);
    let n = size.0 * floating;
    accuracy::law_roundings_are_what_they_are_called(n, scale);
    if fee >= 0 {
        let owed = magnitude * fee;
        assert(owed >= 0) by (nonlinear_arith)
            requires
                owed == magnitude * fee,
                magnitude >= 0,
                fee >= 0,
        ;
        accuracy::law_unsigned_roundings_are_what_they_are_called(owed, scale);
    }
    if floating == 0 {
        assert(n == 0) by (nonlinear_arith)
            requires
                n == size.0 * floating,
                floating == 0,
        ;
    }
    if fee == 0 {
        assert(magnitude * fee == 0) by (nonlinear_arith)
            requires
                fee == 0,
        ;
    }
}

proof fn lemma_priced(m: MarketModel, tags: Seq<u32>, n: nat, i: int)
    requires
        n < tags.len(),
        ledger::priced(m, tags, n) is Ok,
        0 <= i < n,
    ensures
        ledger::priced(m, tags, n)->Ok_0.len() == n,
        ({
            let p = ledger::priced(m, tags, n)->Ok_0[i];
            &&& p.start_f_tag == tags[i]
            &&& p.end_f_tag == tags[i + 1]
            &&& p.size_held == ledger::size_held(m.size, m.fills, tags[i])
            &&& m.findex.contains_key(tags[i])
            &&& m.findex.contains_key(tags[i + 1])
            &&& ledger::settlement_of(p.size_held, m.findex[tags[i]], m.findex[tags[i + 1]]) == Ok::<
                PayFee,
                LedgerError,
            >(p.result)
        }),
    decreases n,
{
    let k = (n - 1) as nat;
    if i < k {
        lemma_priced(m, tags, k, i);
    } else if k > 0 {
        lemma_priced(m, tags, k, 0);
    }
}

/// Each sub-period of a settlement pays the index moves between the records of its
/// two ends, at the size held at its start.
pub proof fn law_each_sub_period_pays_between_its_records(m: MarketModel, upto: u32, i: int)
    requires
        ledger::settlement_periods(m, upto) is Ok,
        0 <= i < ledger::settlement_periods(m, upto)->Ok_0.len(),
        sizes_fit(m.size, m.fills, ledger::settlement_periods(m, upto)->Ok_0[i].start_f_tag),
    ensures
        ({
            let p = ledger::settlement_periods(m, upto)->Ok_0[i];
            &&& m.findex.contains_key(p.start_f_tag)
            &&& m.findex.contains_key(p.end_f_tag)
            &&& p.size_held.0 == m.size.0 + added_through(m.fills, p.start_f_tag)
            &&& ledger::settlement_of(p.size_held, m.findex[p.start_f_tag], m.findex[p.end_f_tag]) == Ok::<
                PayFee,
                LedgerError,
            >(p.result)
        }),
{
    let tags = ledger::boundaries(m.fills, m.checkpoint, upto);
    lemma_priced(m, tags, (tags.len() - 1) as nat, 0);
    lemma_priced(m, tags, (tags.len() - 1) as nat, i);
    law_the_size_held_is_every_fill_so_far(
        m.size,
        m.fills,
        ledger::settlement_periods(m, upto)->Ok_0[i].start_f_tag,
    );
}

/// The payments of a run of sub-periods, together.
pub open spec fn payments_of(periods: Seq<SubPeriod>) -> int
    decreases periods.len(),
{
    if periods.len() == 0 {
        0
    } else {
        payments_of(periods.drop_last()) + periods.last().result.payment.0
    }
}

/// The fees of a run of sub-periods, together.
pub open spec fn fees_of(periods: Seq<SubPeriod>) -> int
    decreases periods.len(),
{
    if periods.len() == 0 {
        0
    } else {
        fees_of(periods.drop_last()) + periods.last().result.fee.0
    }
}

/// The total of a settlement is its sub-periods, together, leg by leg.
pub proof fn law_a_settlement_pays_all_its_sub_periods(periods: Seq<SubPeriod>)
    requires
        forall|n: int|
            0 <= n <= periods.len() ==> {
                &&& i128::MIN <= #[trigger] payments_of(periods.take(n)) <= i128::MAX
                &&& i128::MIN <= fees_of(periods.take(n)) <= i128::MAX
            },
    ensures
        ledger::total_of(periods).payment.0 == payments_of(periods),
        ledger::total_of(periods).fee.0 == fees_of(periods),
    decreases periods.len(),
{
    assert(periods.take(periods.len() as int) =~= periods);
    if periods.len() > 0 {
        let front = periods.drop_last();
        assert forall|n: int| 0 <= n <= front.len() implies {
            &&& i128::MIN <= #[trigger] payments_of(front.take(n)) <= i128::MAX
            &&& i128::MIN <= fees_of(front.take(n)) <= i128::MAX
        } by {
            assert(front.take(n) =~= periods.take(n));
            assert(i128::MIN <= payments_of(periods.take(n)) <= i128::MAX);
        }
        law_a_settlement_pays_all_its_sub_periods(front);
        assert(i128::MIN <= payments_of(periods.take(periods.len() as int)) <= i128::MAX);
    }
}

/// Settling moves the checkpoint to its target and keeps what lies beyond: the size
/// with every fill so far, the fills and the records that are still needed.
pub proof fn law_settling_keeps_what_lies_beyond(m: MarketModel, upto: u32, fill: Fill, tag: u32)
    requires
        m.wf(),
        m.checkpoint <= upto,
        sizes_fit(m.size, m.fills, upto),
    ensures
        ({
            let after = ledger::settled(m, upto);
            &&& after.checkpoint == upto
            &&& after.size.0 == m.size.0 + added_through(m.fills, upto)
            &&& after.fills.contains(fill) <==> m.fills.contains(fill) && fill.f_tag > upto
            &&& after.findex.contains_key(tag) <==> m.findex.contains_key(tag) && tag >= upto
            &&& after.findex.contains_key(tag) ==> after.findex[tag] == m.findex[tag]
        }),
{
    law_the_size_held_is_every_fill_so_far(m.size, m.fills, upto);
    lemma_filter_members(m.fills, upto, fill);
    if upto == m.checkpoint {
        lemma_nothing_added(m.fills, upto);
        if m.fills.contains(fill) {
            let i = choose|i: int| 0 <= i < m.fills.len() && m.fills[i] == fill;
            assert(m.checkpoint < m.fills[i].f_tag);
        }
    }
}

proof fn lemma_nothing_added(fills: Seq<Fill>, tag: u32)
    requires
        forall|i: int| 0 <= i < fills.len() ==> tag < (#[trigger] fills[i]).f_tag,
    ensures
        added_through(fills, tag) == 0,
    decreases fills.len(),
{
    if fills.len() > 0 {
        let front = fills.drop_last();
        assert forall|i: int| 0 <= i < front.len() implies tag < (#[trigger] front[i]).f_tag by {
            assert(front[i] == fills[i]);
        }
        lemma_nothing_added(front, tag);
        assert(tag < fills[fills.len() - 1].f_tag);
    }
}

proof fn lemma_filter_members(fills: Seq<Fill>, tag: u32, fill: Fill)
    ensures
        ledger::fills_after(fills, tag).contains(fill) <==> fills.contains(fill) && fill.f_tag > tag,
    decreases fills.len(),
{
    reveal(Seq::filter);
    if fills.len() > 0 {
        let front = fills.drop_last();
        let last = fills.last();
        lemma_filter_members(front, tag, fill);
        let (before, after) = (ledger::fills_after(front, tag), ledger::fills_after(fills, tag));
        assert(fills.contains(fill) <==> front.contains(fill) || fill == last) by {
            if front.contains(fill) {
                let i = choose|i: int| 0 <= i < front.len() && front[i] == fill;
                assert(fills[i] == fill);
            }
            if fill == last {
                assert(fills[fills.len() - 1] == fill);
            }
            if fills.contains(fill) && fill != last {
                let i = choose|i: int| 0 <= i < fills.len() && fills[i] == fill;
                assert(front[i] == fill);
            }
        }
        if last.f_tag > tag {
            assert(after == before.push(last));
            assert(after.contains(fill) <==> before.contains(fill) || fill == last) by {
                if before.contains(fill) {
                    let i = choose|i: int| 0 <= i < before.len() && before[i] == fill;
                    assert(after[i] == fill);
                }
                if fill == last {
                    assert(after[after.len() - 1] == fill);
                }
                if after.contains(fill) && fill != last {
                    let i = choose|i: int| 0 <= i < after.len() && after[i] == fill;
                    assert(before[i] == fill);
                }
            }
        } else {
            assert(after == before);
        }
    }
}

/// A fill before the checkpoint is refused. One at the checkpoint changes the size at
/// once. A later one waits, and changes the size held from its own tag on and not
/// before.
pub proof fn law_a_fill_counts_from_its_tag_on(m: MarketModel, fill: Fill, tag: u32)
    requires
        m.wf(),
        m.checkpoint <= tag,
    ensures
        fill.f_tag < m.checkpoint ==> ledger::with_fill(m, fill) == Err::<MarketModel, LedgerError>(
            LedgerError::FillBeforeCheckpoint(fill.f_tag),
        ),
        fill.f_tag >= m.checkpoint ==> ledger::with_fill(m, fill) is Ok,
        ledger::with_fill(m, fill) matches Ok(after) ==> {
            &&& after.checkpoint == m.checkpoint
            &&& after.findex == m.findex
            &&& i128::MIN <= m.size.0 + fill.size_delta.0 <= i128::MAX ==> after.size.0 + added_through(
                after.fills,
                tag,
            ) == m.size.0 + added_through(m.fills, tag) + (if fill.f_tag <= tag {
                fill.size_delta.0 as int
            } else {
                0
            })
        },
{
    if fill.f_tag > m.checkpoint {
        let head = ledger::fills_through(m.fills, fill.f_tag);
        let tail = ledger::fills_after(m.fills, fill.f_tag);
        lemma_added_concat(head.push(fill), tail, tag);
        assert(head.push(fill).drop_last() =~= head);
        lemma_added_split(m.fills, fill.f_tag, tag);
    }
}

proof fn lemma_added_concat(a: Seq<Fill>, b: Seq<Fill>, tag: u32)
    ensures
        added_through(a + b, tag) == added_through(a, tag) + added_through(b, tag),
    decreases b.len(),
{
    if b.len() == 0 {
        assert(a + b =~= a);
    } else {
        assert((a + b).drop_last() =~= a + b.drop_last());
        assert((a + b).last() == b.last());
        lemma_added_concat(a, b.drop_last(), tag);
    }
}

proof fn lemma_added_split(fills: Seq<Fill>, cut: u32, tag: u32)
    ensures
        added_through(fills, tag) == added_through(ledger::fills_through(fills, cut), tag) + added_through(
            ledger::fills_after(fills, cut),
            tag,
        ),
    decreases fills.len(),
{
    reveal(Seq::filter);
    if fills.len() > 0 {
        let front = fills.drop_last();
        lemma_added_split(front, cut, tag);
        let (a, b) = (ledger::fills_through(front, cut), ledger::fills_after(front, cut));
        if fills.last().f_tag <= cut {
            assert(ledger::fills_through(fills, cut) == a.push(fills.last()));
            assert(a.push(fills.last()).drop_last() =~= a);
        } else {
            assert(ledger::fills_after(fills, cut) == b.push(fills.last()));
            assert(b.push(fills.last()).drop_last() =~= b);
        }
    }
}

/// A record before the checkpoint is refused, and so is one that contradicts what is
/// known. Any other is known from then on, and no other record changes.
pub proof fn law_a_record_is_kept_unless_it_conflicts(m: MarketModel, record: FIndexRecord, tag: u32)
    ensures
        record.f_tag < m.checkpoint ==> ledger::with_findex(m, record) == Err::<MarketModel, LedgerError>(
            LedgerError::FIndexRecordBeforeCheckpoint(record.f_tag),
        ),
        record.f_tag >= m.checkpoint && m.findex.contains_key(record.f_tag) && m.findex[record.f_tag] != record
            ==> ledger::with_findex(m, record) == Err::<MarketModel, LedgerError>(
            LedgerError::ConflictingFIndexRecord(record.f_tag),
        ),
        record.f_tag >= m.checkpoint && (!m.findex.contains_key(record.f_tag) || m.findex[record.f_tag]
            == record) ==> ledger::with_findex(m, record) is Ok,
        ledger::with_findex(m, record) matches Ok(after) ==> {
            &&& after.findex.contains_key(record.f_tag) && after.findex[record.f_tag] == record
            &&& tag != record.f_tag ==> after.findex.contains_key(tag) == m.findex.contains_key(tag)
            &&& tag != record.f_tag && m.findex.contains_key(tag) ==> after.findex[tag] == m.findex[tag]
            &&& after.fills == m.fills
            &&& after.size == m.size
            &&& after.checkpoint == m.checkpoint
        },
{
}

/// A settlement runs forward only, and one to the checkpoint itself does nothing.
pub proof fn law_settlement_runs_forward(m: MarketModel, upto: u32)
    ensures
        upto < m.checkpoint ==> ledger::settlement_periods(m, upto) == Err::<Seq<SubPeriod>, LedgerError>(
            LedgerError::NonMonotonicSettlement { checkpoint: m.checkpoint, upto },
        ),
        upto == m.checkpoint ==> ledger::settlement_periods(m, upto) == Ok::<Seq<SubPeriod>, LedgerError>(
            Seq::empty(),
        ) && ledger::settled(m, upto) == m,
        upto > m.checkpoint && !m.findex.contains_key(m.checkpoint) ==> ledger::settlement_periods(m, upto)
            is Err,
        upto > m.checkpoint && !m.findex.contains_key(upto) ==> ledger::settlement_periods(m, upto) is Err,
{
    if upto > m.checkpoint {
        let tags = ledger::boundaries(m.fills, m.checkpoint, upto);
        let n = (tags.len() - 1) as nat;
        if ledger::priced(m, tags, n) is Ok {
            lemma_priced(m, tags, n, 0);
            lemma_priced(m, tags, n, n - 1);
        }
    }
}

} // verus!
