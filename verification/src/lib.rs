//! Reconciliation of interval energy readings against hourly spot prices:
//! normalization of raw rows into canonical records, calendar-day binning
//! with order statistics, backward-looking price alignment, and a cumulative
//! market-versus-flat-rate settlement series.

pub mod align;
pub mod bins;
pub mod datebin;
pub mod errors;
pub mod instant;
pub mod laws;
pub mod record;
pub mod settlement;
pub mod sorting;
pub mod units;

use vstd::prelude::*;
use crate::align::{HourlyPrice, all_aligned, all_prices_wf, aligned_of, with_prices};
use crate::bins::{Bins, belongs_to, flatten_bins, has_bin_for};
use crate::datebin::{DateBin, all_wf, lemma_filter_preserves_wf};
use crate::errors::EnergyError;
use crate::record::CanonicalRecord;
use crate::settlement::{
    CumulativeComparisonData, MAX_SERIES_LEN, cumulative_price_by_day, flat_sum, market_sum,
};
use crate::sorting::sort_by_key;
use crate::units::VALUE_LIMIT;

verus! {

broadcast use vstd::seq_lib::group_to_multiset_ensures;

/// Whether a record's instant lies in the inclusive query window.
pub open spec fn in_window(r: CanonicalRecord, start: int, end: int) -> bool {
    start <= r.instant <= end
}

/// The records of the batch inside the inclusive window, in order.
pub open spec fn windowed(records: Seq<CanonicalRecord>, start: int, end: int) -> Seq<
    CanonicalRecord,
> {
    records.filter(|x: CanonicalRecord| in_window(x, start, end))
}

/// The characterization `Bins::from` establishes: well-formed bins strictly
/// ascending by date, each holding exactly the batch's records of its own
/// day stably sorted by energy, together a partition of the batch.
pub open spec fn day_partition(bins: Seq<DateBin>, records: Seq<CanonicalRecord>) -> bool {
    &&& forall|i: int| 0 <= i < bins.len() ==> (#[trigger] bins[i]).wf()
    &&& forall|i: int, j: int| 0 <= i < j < bins.len() ==> bins[i].date < bins[j].date
    &&& forall|i: int|
        0 <= i < bins.len() ==> (#[trigger] bins[i]).records@ == sort_by_key(
            records.filter(|x: CanonicalRecord| belongs_to(x, bins[i].date)),
        )
    &&& forall|i: int| 0 <= i < bins.len() ==> (#[trigger] bins[i]).records@.len() > 0
    &&& forall|k: int| 0 <= k < records.len() ==> has_bin_for(bins, #[trigger] records[k])
    &&& flatten_bins(bins).to_multiset() == records.to_multiset()
}

/// Row-by-row relation between a settlement output and its aligned input.
pub open spec fn settlement_rows(
    out: Seq<CumulativeComparisonData>,
    aligned: Seq<crate::align::RecordWithPrice>,
    rate: int,
) -> bool {
    &&& out.len() == aligned.len()
    &&& forall|i: int|
        0 <= i < out.len() ==> {
            let o = #[trigger] out[i];
            o.date_time == aligned[i].record.instant && o.market_price_for_hour == aligned[i].price
                && o.energy == aligned[i].record.energy && o.cumulative_market_price == market_sum(
                aligned,
                i + 1,
            ) && o.cumulative_set_price == flat_sum(aligned, rate, i + 1)
        }
}

/// Keep the records whose instant lies in the inclusive window.
fn filter_window(records: &Vec<CanonicalRecord>, start: i64, end: i64) -> (out: Vec<
    CanonicalRecord,
>)
    requires
        all_wf(records@),
    ensures
        out@ == records@.filter(|x: CanonicalRecord| in_window(x, start as int, end as int)),
{
    let ghost pred = |x: CanonicalRecord| in_window(x, start as int, end as int);
    let mut out: Vec<CanonicalRecord> = Vec::new();
    let mut k: usize = 0;
    proof {
        reveal(Seq::filter);
    }
    while k < records.len()
        invariant
            k <= records@.len(),
            pred == (|x: CanonicalRecord| in_window(x, start as int, end as int)),
            out@ == records@.take(k as int).filter(pred),
        decreases records@.len() - k,
    {
        proof {
            reveal(Seq::filter);
            assert(records@.take(k + 1).drop_last() =~= records@.take(k as int));
            assert(records@.take(k + 1).last() == records@[k as int]);
        }
        let rec = records[k];
        if rec.instant >= start && rec.instant <= end {
            out.push(rec);
        }
        k = k + 1;
    }
    proof {
        assert(records@.take(records@.len() as int) =~= records@);
    }
    out
}

/// The whole settlement query: filter the batch to the inclusive window,
/// bin it by Helsinki calendar day, align every binned record to its
/// effective spot price, and walk the aligned records chronologically into
/// a cumulative comparison series. Either the full series is produced, or
/// the first failure aborts the request with no partial rows.
pub fn get_data(
    records: Vec<CanonicalRecord>,
    prices: &Vec<HourlyPrice>,
    start_time: i64,
    end_time: i64,
    contract_price: i64,
) -> (r: Result<Vec<CumulativeComparisonData>, EnergyError>)
    requires
        all_wf(records@),
        all_prices_wf(prices@),
        -VALUE_LIMIT < contract_price < VALUE_LIMIT,
        records@.len() <= MAX_SERIES_LEN,
    ensures
        exists|bins: Seq<DateBin>|
            {
                &&& #[trigger] day_partition(
                    bins,
                    windowed(records@, start_time as int, end_time as int),
                )
                &&& (r is Ok <==> all_aligned(flatten_bins(bins), prices@))
                &&& (r matches Ok(v) ==> settlement_rows(
                    v@,
                    sort_by_key(aligned_of(flatten_bins(bins), prices@)),
                    contract_price as int,
                ))
                &&& (r matches Err(e) ==> e is MissingPriceForInterval)
            },
{
    let filtered = filter_window(&records, start_time, end_time);
    proof {
        broadcast use vstd::seq_lib::group_filter_ensures;

        lemma_filter_preserves_wf(
            records@,
            |x: CanonicalRecord| in_window(x, start_time as int, end_time as int),
        );
    }
    let ghost filtered_seq = filtered@;
    let bins = Bins::from(filtered);
    let aligned = match with_prices(prices, &bins) {
        Ok(v) => v,
        Err(e) => {
            proof {
                assert(filtered_seq == windowed(records@, start_time as int, end_time as int));
                assert(day_partition(
                    bins.bins@,
                    windowed(records@, start_time as int, end_time as int),
                ));
            }
            return Err(e);
        },
    };
    proof {
        crate::sorting::lemma_sort_by_key_props(aligned_of(flatten_bins(bins.bins@), prices@));
        assert(flatten_bins(bins.bins@).to_multiset().len() == filtered_seq.to_multiset().len());
        assert(flatten_bins(bins.bins@).len() == filtered_seq.len());
        assert(aligned@.len() == flatten_bins(bins.bins@).len());
        assert(filtered_seq == windowed(records@, start_time as int, end_time as int));
        assert(day_partition(bins.bins@, windowed(records@, start_time as int, end_time as int)));
    }
    let series = cumulative_price_by_day(aligned, contract_price);
    proof {
        assert(settlement_rows(
            series@,
            sort_by_key(aligned_of(flatten_bins(bins.bins@), prices@)),
            contract_price as int,
        ));
    }
    Ok(series)
}

} // verus!
