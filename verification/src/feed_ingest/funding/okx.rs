use vstd::prelude::*;

use crate::feed_ingest::event::{FundingRateEvent, Venue};
use crate::feed_ingest::funding::json;
use crate::feed_ingest::funding::json::{append_joined, json_text};
use crate::float_bits::F64Bits;
use crate::text;
use crate::text::{parse_u64, same_text};

verus! {

/// One subscription argument.
pub open spec fn argument(inst_id: Seq<char>) -> Seq<char> {
    "{\"channel\":\"funding-rate\",\"instId\":"@ + json::json_literal(inst_id) + "}"@
}

/// Subscription arguments of a list of instruments.
pub open spec fn arguments(symbols: Seq<String>) -> Seq<Seq<char>> {
    symbols.map_values(|s: String| argument(s@))
}

/// The request that subscribes to the funding rates of a list of instruments.
pub fn subscribe_request(symbols: &Vec<String>) -> (r: String)
    ensures
        r@ == "{\"args\":["@ + json::joined(arguments(symbols@), ","@) + "],\"op\":\"subscribe\"}"@,
{
    let mut args: String = String::new();
    let mut i: usize = 0;
    assert(arguments(symbols@.take(0)) =~= Seq::<Seq<char>>::empty());
    while i < symbols.len()
        invariant
            i <= symbols@.len(),
            args@ == json::joined(arguments(symbols@.take(i as int)), ","@),
        decreases symbols@.len() - i,
    {
        let mut arg: String = "{\"channel\":\"funding-rate\",\"instId\":".to_owned();
        let quoted: String = json_text(symbols[i].as_str());
        arg.append(quoted.as_str());
        arg.append("}");
        append_joined(
            &mut args,
            i,
            ",",
            arg.as_str(),
            Ghost(arguments(symbols@.take(i as int))),
        );
        assert(arguments(symbols@.take(i + 1)) =~= arguments(symbols@.take(i as int)).push(arg@));
        i = i + 1;
    }
    assert(symbols@.take(i as int) == symbols@);
    let mut request: String = "{\"args\":[".to_owned();
    request.append(args.as_str());
    request.append("],\"op\":\"subscribe\"}");
    request
}

/// Whether a message is the bare heartbeat reply, which is no JSON.
pub fn is_pong(message: &str) -> (r: bool)
    ensures
        r == (message@ == "pong"@),
{
    same_text(message, "pong")
}

/// One entry of a funding-rate message.
#[derive(Debug, Clone)]
pub struct FundingEntry {
    pub inst_id: String,
    /// The funding rate, where its text is a number.
    pub funding_rate: Option<F64Bits>,
    /// Unix milliseconds, as text.
    pub funding_time: String,
    /// Unix milliseconds, as text.
    pub next_funding_time: String,
}

/// A time field: zero where it is no number.
pub open spec fn time_of(field: Seq<char>) -> int {
    match text::unsigned_value(field, u64::MAX as nat) {
        Some(v) => v as int,
        None => 0,
    }
}

fn read_time(field: &str) -> (r: u64)
    ensures
        r == time_of(field@),
{
    match parse_u64(field) {
        Some(v) => v,
        None => 0,
    }
}

/// The settlement interval in seconds: the distance of the two times, or zero
/// where they do not ascend.
pub open spec fn interval_of(entry: FundingEntry) -> int {
    let next = time_of(entry.next_funding_time@);
    let this = time_of(entry.funding_time@);
    if next > this {
        (next - this) / 1000
    } else {
        0
    }
}

/// The funding rate that an entry announces.
pub open spec fn entry_event(entry: FundingEntry, now_ms: u64) -> Option<FundingRateEvent> {
    match entry.funding_rate {
        None => None,
        Some(rate) => Some(
            FundingRateEvent {
                venue: Venue::Okx,
                symbol: entry.inst_id,
                rate,
                interval_secs: interval_of(entry) as u64,
                next_funding_ts: time_of(entry.next_funding_time@) as u64,
                fetched_at_ms: now_ms,
            },
        ),
    }
}

/// The funding rates of the first `n` entries; an entry with a bad rate is
/// skipped.
pub open spec fn entry_events(entries: Seq<FundingEntry>, now_ms: u64, n: nat) -> Seq<FundingRateEvent>
    decreases n,
{
    if n == 0 {
        Seq::empty()
    } else {
        let rest = entry_events(entries, now_ms, (n - 1) as nat);
        match entry_event(entries[n - 1], now_ms) {
            Some(event) => rest.push(event),
            None => rest,
        }
    }
}

/// The funding rates that a message announces: those of the funding-rate
/// channel's entries. An acknowledgement has no channel or no entries.
pub open spec fn announced(
    channel: Option<String>,
    entries: Option<Vec<FundingEntry>>,
    now_ms: u64,
) -> Seq<FundingRateEvent> {
    match (channel, entries) {
        (Some(c), Some(list)) => if c@ == "funding-rate"@ {
            entry_events(list@, now_ms, list@.len())
        } else {
            Seq::empty()
        },
        _ => Seq::empty(),
    }
}

fn read_entry(entry: &FundingEntry, now_ms: u64) -> (r: Option<FundingRateEvent>)
    ensures
        r == entry_event(*entry, now_ms),
{
    match entry.funding_rate {
        None => None,
        Some(rate) => {
            let next: u64 = read_time(entry.next_funding_time.as_str());
            let this: u64 = read_time(entry.funding_time.as_str());
            let interval_secs: u64 = if next > this {
                (next - this) / 1000
            } else {
                0
            };
            Some(
                FundingRateEvent {
                    venue: Venue::Okx,
                    symbol: entry.inst_id.clone(),
                    rate,
                    interval_secs,
                    next_funding_ts: next,
                    fetched_at_ms: now_ms,
                },
            )
        },
    }
}

/// Takes a message and gives the funding rates that it announces, in order.
pub fn dispatch(channel: Option<String>, entries: Option<Vec<FundingEntry>>, now_ms: u64) -> (r: Vec<
    FundingRateEvent,
>)
    ensures
        r@ == announced(channel, entries, now_ms),
{
    let mut out: Vec<FundingRateEvent> = Vec::new();
    let c: String = match channel {
        Some(c) => c,
        None => {
            return out;
        },
    };
    if !same_text(c.as_str(), "funding-rate") {
        return out;
    }
    let list: Vec<FundingEntry> = match entries {
        Some(list) => list,
        None => {
            return out;
        },
    };
    let mut i: usize = 0;
    while i < list.len()
        invariant
            i <= list@.len(),
            out@ == entry_events(list@, now_ms, i as nat),
        decreases list@.len() - i,
    {
        match read_entry(&list[i], now_ms) {
            Some(event) => {
                out.push(event);
            },
            None => {},
        }
        i = i + 1;
    }
    out
}

} // verus!
