//! Choosing the candidates to scan and sorting their indices into the
//! oversold and overbought buckets.

use vstd::prelude::*;

use crate::price::{decimal_value, parse_price};
use crate::rsi::{above, avg_gain, avg_loss, below, rsi_reading, RsiReading, DEFAULT_PERIOD};

verus! {

/// The number of candidates scanned when no other limit is given.
pub const DEFAULT_LIMIT: usize = 100;

/// The oversold threshold when none is given: 30 points, in hundredths.
pub const DEFAULT_LOW: u64 = 3000;

/// The overbought threshold when none is given: 70 points, in hundredths.
pub const DEFAULT_HIGH: u64 = 7000;

/// Why a whole run stops.
#[derive(Clone, Copy, Debug, PartialEq, Eq, Structural)]
pub enum ScreenError {
    /// The listing response held no list of candidates.
    CandidateListError,
}

/// What came of one symbol's scan.
#[derive(Clone, Copy, Debug, PartialEq, Eq, Structural)]
pub enum SymbolOutcome {
    /// Its price series could not be fetched or read.
    FetchFailed,
    /// Its series held fewer points than the period.
    TooShort,
    /// The averages behind its index at the last point.
    Rsi(RsiReading),
}

/// The two buckets of a run, each in the order the symbols were processed.
#[derive(Clone, Debug)]
pub struct ScreenReport {
    pub oversold: Vec<(String, RsiReading)>,
    pub overbought: Vec<(String, RsiReading)>,
}

/// The symbols present in a listing, in order, at most `limit` of them.
pub open spec fn present_symbols(entries: Seq<Option<String>>, limit: nat) -> Seq<String>
    decreases entries.len(),
{
    if entries.len() == 0 {
        seq![]
    } else {
        let prev = present_symbols(entries.drop_last(), limit);
        match entries.last() {
            Some(sym) => if prev.len() < limit {
                prev.push(sym)
            } else {
                prev
            },
            None => prev,
        }
    }
}

/// The entries whose index lies strictly below `low` hundredths, in order.
pub open spec fn oversold_of(results: Seq<(String, SymbolOutcome)>, low: u64) -> Seq<
    (String, RsiReading),
>
    decreases results.len(),
{
    if results.len() == 0 {
        seq![]
    } else {
        let prev = oversold_of(results.drop_last(), low);
        let (sym, outcome) = results.last();
        match outcome {
            SymbolOutcome::Rsi(r) => if below(r.avg_gain as nat, r.avg_loss as nat, low as nat) {
                prev.push((sym, r))
            } else {
                prev
            },
            _ => prev,
        }
    }
}

/// The entries whose index lies strictly above `high` hundredths, in order.
pub open spec fn overbought_of(results: Seq<(String, SymbolOutcome)>, high: u64) -> Seq<
    (String, RsiReading),
>
    decreases results.len(),
{
    if results.len() == 0 {
        seq![]
    } else {
        let prev = overbought_of(results.drop_last(), high);
        let (sym, outcome) = results.last();
        match outcome {
            SymbolOutcome::Rsi(r) => if above(r.avg_gain as nat, r.avg_loss as nat, high as nat) {
                prev.push((sym, r))
            } else {
                prev
            },
            _ => prev,
        }
    }
}

/// The settings of a run.
#[derive(Clone, Copy, Debug, PartialEq, Eq, Structural)]
pub struct ScreenConfig {
    /// How many candidates to scan at most.
    pub limit: usize,
    /// The smoothing period of the index; at least 1.
    pub period: usize,
    /// Indices strictly below this, in hundredths, are oversold.
    pub low: u64,
    /// Indices strictly above this, in hundredths, are overbought.
    pub high: u64,
}

impl Default for ScreenConfig {
    fn default() -> (r: Self)
        ensures
            r.limit == DEFAULT_LIMIT,
            r.period == DEFAULT_PERIOD,
            r.low == DEFAULT_LOW,
            r.high == DEFAULT_HIGH,
    {
        ScreenConfig { limit: DEFAULT_LIMIT, period: DEFAULT_PERIOD, low: DEFAULT_LOW, high: DEFAULT_HIGH }
    }
}

/// The prices of the candle closes that read as prices, in order; a close
/// that is missing or does not read as a price is passed over.
pub open spec fn readable_closes(fields: Seq<Option<String>>) -> Seq<u64>
    decreases fields.len(),
{
    if fields.len() == 0 {
        seq![]
    } else {
        let prev = readable_closes(fields.drop_last());
        match fields.last() {
            Some(text) => match decimal_value(text@) {
                Some(v) => if v <= u64::MAX {
                    prev.push(v as u64)
                } else {
                    prev
                },
                None => prev,
            },
            None => prev,
        }
    }
}

/// What a symbol's scan comes to, given the close fields of its candles
/// (`None` where the response held no list of candles).
pub open spec fn outcome_of(list: Option<Seq<Option<String>>>, period: nat) -> SymbolOutcome {
    match list {
        None => SymbolOutcome::FetchFailed,
        Some(fields) => {
            let c = readable_closes(fields);
            if c.len() < period || c.len() == 0 {
                SymbolOutcome::TooShort
            } else {
                let n = (c.len() - 1) as nat;
                SymbolOutcome::Rsi(
                    RsiReading {
                        avg_gain: avg_gain(c, period, n) as u128,
                        avg_loss: avg_loss(c, period, n) as u128,
                    },
                )
            }
        },
    }
}

/// Reads the close fields of a symbol's candles as fixed-point prices.
pub fn closes_from_candles(fields: &Vec<Option<String>>) -> (r: Vec<u64>)
    ensures
        r@ == readable_closes(fields@),
{
    let mut closes: Vec<u64> = Vec::new();
    let mut i: usize = 0;
    while i < fields.len()
        invariant
            i <= fields@.len(),
            closes@ == readable_closes(fields@.take(i as int)),
        decreases fields@.len() - i,
    {
        assert(fields@.take(i as int + 1).drop_last() == fields@.take(i as int));
        match &fields[i] {
            Some(text) => {
                match parse_price(text.as_str()) {
                    Some(v) => closes.push(v),
                    None => {},
                }
            },
            None => {},
        }
        i = i + 1;
    }
    assert(fields@.take(fields@.len() as int) == fields@);
    closes
}

/// Scans one symbol: reads its closes and computes the index at the last one.
pub fn symbol_outcome(list: &Option<Vec<Option<String>>>, period: usize) -> (r: SymbolOutcome)
    requires
        period >= 1,
    ensures
        r == outcome_of(
            match list {
                Some(v) => Some(v@),
                None => None,
            },
            period as nat,
        ),
        r matches SymbolOutcome::Rsi(rd) ==> rd.wf(),
{
    match list {
        None => SymbolOutcome::FetchFailed,
        Some(fields) => {
            let closes = closes_from_candles(fields);
            match rsi_reading(&closes, period) {
                None => SymbolOutcome::TooShort,
                Some(rd) => SymbolOutcome::Rsi(rd),
            }
        },
    }
}

/// Every entry of the oversold bucket has an index below `low` and every
/// entry of the overbought bucket one above `high`; with `low <= high` no
/// reading can stand in both buckets.
pub proof fn law_buckets_respect_thresholds(
    results: Seq<(String, SymbolOutcome)>,
    low: u64,
    high: u64,
)
    ensures
        forall|i: int|
            0 <= i < oversold_of(results, low).len() ==> below(
                (#[trigger] oversold_of(results, low)[i]).1.avg_gain as nat,
                oversold_of(results, low)[i].1.avg_loss as nat,
                low as nat,
            ),
        forall|i: int|
            0 <= i < overbought_of(results, high).len() ==> above(
                (#[trigger] overbought_of(results, high)[i]).1.avg_gain as nat,
                overbought_of(results, high)[i].1.avg_loss as nat,
                high as nat,
            ),
        low <= high ==> forall|g: nat, l: nat| !(#[trigger] below(g, l, low as nat) && #[trigger] above(
            g,
            l,
            high as nat,
        )),
    decreases results.len(),
{
    if results.len() > 0 {
        let rest = results.drop_last();
        law_buckets_respect_thresholds(rest, low, high);
        let lo = oversold_of(results, low);
        let hi = overbought_of(results, high);
        assert forall|i: int| 0 <= i < lo.len() implies below(
            (#[trigger] lo[i]).1.avg_gain as nat,
            lo[i].1.avg_loss as nat,
            low as nat,
        ) by {
            if i < oversold_of(rest, low).len() {
                assert(lo[i] == oversold_of(rest, low)[i]);
            }
        }
        assert forall|i: int| 0 <= i < hi.len() implies above(
            (#[trigger] hi[i]).1.avg_gain as nat,
            hi[i].1.avg_loss as nat,
            high as nat,
        ) by {
            if i < overbought_of(rest, high).len() {
                assert(hi[i] == overbought_of(rest, high)[i]);
            }
        }
    }
    if low <= high {
        assert forall|g: nat, l: nat| !(#[trigger] below(g, l, low as nat) && #[trigger] above(
            g,
            l,
            high as nat,
        )) by {
            if g + l > 0 {
                assert((low as nat) * (g + l) <= (high as nat) * (g + l)) by (nonlinear_arith)
                    requires
                        low <= high,
                ;
            }
        }
    }
}

/// Picks the candidates of a listing: `None` where the response held no list,
/// else the symbols of the entries that have one, in order, at most `limit`.
pub fn select_candidates(list: &Option<Vec<Option<String>>>, limit: usize) -> (r: Result<
    Vec<String>,
    ScreenError,
>)
    ensures
        list.is_none() <==> r == Err::<Vec<String>, ScreenError>(ScreenError::CandidateListError),
        list matches Some(entries) ==> (r matches Ok(syms) && syms@ == present_symbols(
            entries@,
            limit as nat,
        )),
{
    match list {
        None => Err(ScreenError::CandidateListError),
        Some(entries) => {
            let mut syms: Vec<String> = Vec::new();
            let mut i: usize = 0;
            while i < entries.len()
                invariant
                    i <= entries@.len(),
                    syms@ == present_symbols(entries@.take(i as int), limit as nat),
                    syms@.len() <= limit,
                decreases entries@.len() - i,
            {
                assert(entries@.take(i as int + 1).drop_last() == entries@.take(i as int));
                match &entries[i] {
                    Some(sym) => {
                        if syms.len() < limit {
                            syms.push(sym.clone());
                        }
                    },
                    None => {},
                }
                i = i + 1;
            }
            assert(entries@.take(entries@.len() as int) == entries@);
            Ok(syms)
        },
    }
}

/// Sorts the outcomes of a run into its two buckets: an index below `low` is
/// oversold, one above `high` overbought; failures, short series and indices
/// in between are left out.
pub fn classify(results: &Vec<(String, SymbolOutcome)>, low: u64, high: u64) -> (r: ScreenReport)
    requires
        forall|i: int|
            0 <= i < results@.len() ==> ((#[trigger] results@[i]).1 matches SymbolOutcome::Rsi(
                rd,
            ) ==> rd.wf()),
    ensures
        r.oversold@ == oversold_of(results@, low),
        r.overbought@ == overbought_of(results@, high),
{
    let mut oversold: Vec<(String, RsiReading)> = Vec::new();
    let mut overbought: Vec<(String, RsiReading)> = Vec::new();
    let mut i: usize = 0;
    while i < results.len()
        invariant
            i <= results@.len(),
            forall|i: int|
                0 <= i < results@.len() ==> ((#[trigger] results@[i]).1 matches SymbolOutcome::Rsi(
                    rd,
                ) ==> rd.wf()),
            oversold@ == oversold_of(results@.take(i as int), low),
            overbought@ == overbought_of(results@.take(i as int), high),
        decreases results@.len() - i,
    {
        assert(results@.take(i as int + 1).drop_last() == results@.take(i as int));
        let (sym, outcome) = &results[i];
        match outcome {
            SymbolOutcome::Rsi(rd) => {
                if rd.is_below(low) {
                    oversold.push((sym.clone(), *rd));
                }
                if rd.is_above(high) {
                    overbought.push((sym.clone(), *rd));
                }
            },
            _ => {},
        }
        i = i + 1;
    }
    assert(results@.take(results@.len() as int) == results@);
    ScreenReport { oversold, overbought }
}

} // verus!
