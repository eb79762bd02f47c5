//! The cumulative market-versus-flat-rate settlement walk.

use vstd::prelude::*;
use crate::align::{RecordWithPrice, all_rp_wf};
use crate::units::VALUE_LIMIT;

verus! {

/// Longest settlement series supported; keeps the minor-unit accumulators
/// far from `i128` overflow.
pub const MAX_SERIES_LEN: usize = 100_000_000;

/// Per-step bound on either accumulator increment: a price or rate mantissa
/// below `10^13` times an energy mantissa below `10^11`.
pub const STEP_LIMIT: i128 = 10_000_000_000_000_000_000_000_000;

/// One settlement row: the record's instant and exact inputs, and the
/// running totals after this record. The cumulative fields carry the
/// minor-unit accumulator verbatim; read in currency major units their
/// scale is `10^-12` (the two inputs' scales plus the cents-to-major shift),
/// so the single final division by one hundred is a reinterpretation, never
/// a rounding step.
#[derive(Debug, Clone, Copy, PartialEq, Eq, Structural)]
pub struct CumulativeComparisonData {
    pub date_time: i64,
    pub market_price_for_hour: i64,
    pub energy: u64,
    pub cumulative_market_price: i128,
    pub cumulative_set_price: i128,
}

/// Market cost of the first `n` records: the exact sum of price times
/// energy.
pub open spec fn market_sum(s: Seq<RecordWithPrice>, n: int) -> int
    decreases n,
{
    if n <= 0 {
        0
    } else {
        market_sum(s, n - 1) + s[n - 1].price * s[n - 1].record.energy
    }
}

/// Flat-rate cost of the first `n` records: the reference rate (major units
/// per kWh) turned into cents and multiplied by each energy.
pub open spec fn flat_sum(s: Seq<RecordWithPrice>, rate: int, n: int) -> int
    decreases n,
{
    if n <= 0 {
        0
    } else {
        flat_sum(s, rate, n - 1) + (rate * 100) * s[n - 1].record.energy
    }
}

/// `|p * e| <= pb * eb` for `|p| <= pb`, `0 <= e <= eb`.
proof fn lemma_mul_bound(p: int, e: int, pb: int, eb: int)
    requires
        -pb <= p <= pb,
        0 <= e <= eb,
        0 <= pb,
    ensures
        -(pb * eb) <= p * e <= pb * eb,
{
    if p >= 0 {
        vstd::arithmetic::mul::lemma_mul_upper_bound(p, pb, e, eb);
        vstd::arithmetic::mul::lemma_mul_nonnegative(p, e);
        vstd::arithmetic::mul::lemma_mul_nonnegative(pb, eb);
    } else {
        vstd::arithmetic::mul::lemma_mul_inequality(p, 0, e);
        vstd::arithmetic::mul::lemma_mul_by_zero_is_zero(e);
        vstd::arithmetic::mul::lemma_mul_inequality(-pb, p, e);
        vstd::arithmetic::mul::lemma_mul_unary_negation(pb, e);
        vstd::arithmetic::mul::lemma_mul_upper_bound(pb, pb, e, eb);
        vstd::arithmetic::mul::lemma_mul_nonnegative(pb, eb);
    }
}

/// Walk aligned records in order, keeping exact running market and flat-rate
/// accumulators in minor currency units, and emit one row per record with
/// the post-increment totals. An empty input yields an empty output.
/// The output is a function of the input sequence and the rate alone:
/// re-running the walk on the same sequence reproduces it exactly.
pub fn cumulative_price_by_day(records: Vec<RecordWithPrice>, contract_price: i64) -> (out: Vec<
    CumulativeComparisonData,
>)
    requires
        all_rp_wf(records@),
        -VALUE_LIMIT < contract_price < VALUE_LIMIT,
        records@.len() <= MAX_SERIES_LEN,
    ensures
        out@.len() == records@.len(),
        forall|i: int|
            0 <= i < out@.len() ==> {
                let o = #[trigger] out@[i];
                o.date_time == records@[i].record.instant && o.market_price_for_hour
                    == records@[i].price && o.energy == records@[i].record.energy
                    && o.cumulative_market_price == market_sum(records@, i + 1)
                    && o.cumulative_set_price == flat_sum(records@, contract_price as int, i + 1)
            },
{
    let mut out: Vec<CumulativeComparisonData> = Vec::new();
    let mut market: i128 = 0;
    let mut flat: i128 = 0;
    let mut i: usize = 0;
    while i < records.len()
        invariant
            i <= records@.len() <= MAX_SERIES_LEN,
            all_rp_wf(records@),
            -VALUE_LIMIT < contract_price < VALUE_LIMIT,
            market == market_sum(records@, i as int),
            flat == flat_sum(records@, contract_price as int, i as int),
            -(i as int * STEP_LIMIT) <= market <= i as int * STEP_LIMIT,
            -(i as int * STEP_LIMIT) <= flat <= i as int * STEP_LIMIT,
            out@.len() == i,
            forall|j: int|
                0 <= j < i ==> {
                    let o = #[trigger] out@[j];
                    o.date_time == records@[j].record.instant && o.market_price_for_hour
                        == records@[j].price && o.energy == records@[j].record.energy
                        && o.cumulative_market_price == market_sum(records@, j + 1)
                        && o.cumulative_set_price == flat_sum(
                        records@,
                        contract_price as int,
                        j + 1,
                    )
                },
        decreases records@.len() - i,
    {
        let r = records[i];
        assert(records@[i as int].wf());
        proof {
            lemma_mul_bound(
                r.price as int,
                r.record.energy as int,
                VALUE_LIMIT as int,
                VALUE_LIMIT as int,
            );
            lemma_mul_bound(
                contract_price as int * 100,
                r.record.energy as int,
                100 * VALUE_LIMIT as int,
                VALUE_LIMIT as int,
            );
        }
        let market_inc = (r.price as i128) * (r.record.energy as i128);
        let flat_inc = ((contract_price as i128) * 100) * (r.record.energy as i128);
        market = market + market_inc;
        flat = flat + flat_inc;
        out.push(
            CumulativeComparisonData {
                date_time: r.record.instant,
                market_price_for_hour: r.price,
                energy: r.record.energy,
                cumulative_market_price: market,
                cumulative_set_price: flat,
            },
        );
        i = i + 1;
    }
    out
}

} // verus!
