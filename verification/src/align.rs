//! Matching each record to the spot price effective for its interval.

use vstd::prelude::*;
use crate::bins::{Bins, flatten_bins};
use crate::datebin::DateBin;
use crate::errors::EnergyError;
use crate::instant::{effective_hour, effective_hour_spec};
use crate::record::CanonicalRecord;
use crate::sorting::{HasKey, sort_by_key, sort_vec};
use crate::units::VALUE_LIMIT;

verus! {

/// One hourly spot price: the UTC start of its clock hour in epoch seconds,
/// and the price in cents per kWh as a scaled mantissa.
#[derive(Debug, Clone, Copy, PartialEq, Eq, Structural)]
pub struct HourlyPrice {
    pub time: i64,
    pub price: i64,
}

impl HourlyPrice {
    pub open spec fn wf(self) -> bool {
        -VALUE_LIMIT < self.price < VALUE_LIMIT
    }
}

pub open spec fn all_prices_wf(s: Seq<HourlyPrice>) -> bool {
    forall|i: int| 0 <= i < s.len() ==> (#[trigger] s[i]).wf()
}

/// The first listed price for the hour starting at `t`.
pub open spec fn price_for(prices: Seq<HourlyPrice>, t: int) -> Option<i64>
    decreases prices.len(),
{
    if prices.len() == 0 {
        None
    } else if prices[0].time == t {
        Some(prices[0].price)
    } else {
        price_for(prices.drop_first(), t)
    }
}

proof fn lemma_price_for_wf(prices: Seq<HourlyPrice>, t: int)
    requires
        all_prices_wf(prices),
    ensures
        price_for(prices, t) matches Some(p) ==> -VALUE_LIMIT < p < VALUE_LIMIT,
    decreases prices.len(),
{
    if prices.len() == 0 {
    } else if prices[0].time == t {
        assert(prices[0].wf());
    } else {
        assert(all_prices_wf(prices.drop_first())) by {
            assert(forall|i: int|
                0 <= i < prices.len() - 1 ==> prices.drop_first()[i] == prices[i + 1]);
        }
        lemma_price_for_wf(prices.drop_first(), t);
    }
}

/// Look up the price for hour `t` in the table.
fn lookup_price(prices: &Vec<HourlyPrice>, t: i64) -> (r: Option<i64>)
    ensures
        r == price_for(prices@, t as int),
{
    let mut i: usize = 0;
    proof {
        assert(prices@.skip(0) =~= prices@);
    }
    while i < prices.len()
        invariant
            i <= prices@.len(),
            price_for(prices@, t as int) == price_for(prices@.skip(i as int), t as int),
        decreases prices@.len() - i,
    {
        proof {
            assert(prices@.skip(i as int).drop_first() =~= prices@.skip(i + 1));
            assert(prices@.skip(i as int)[0] == prices@[i as int]);
        }
        if prices[i].time == t {
            return Some(prices[i].price);
        }
        i = i + 1;
    }
    proof {
        assert(prices@.skip(prices@.len() as int) =~= Seq::<HourlyPrice>::empty());
    }
    None
}

/// A record paired with its matched spot price (cents per kWh, scaled).
#[derive(Debug, Clone, Copy, PartialEq, Eq, Structural)]
pub struct RecordWithPrice {
    pub record: CanonicalRecord,
    pub price: i64,
}

impl RecordWithPrice {
    pub open spec fn wf(self) -> bool {
        &&& self.record.wf()
        &&& -VALUE_LIMIT < self.price < VALUE_LIMIT
    }

    pub fn new(record: CanonicalRecord, price: i64) -> (r: Self)
        ensures
            r.record == record,
            r.price == price,
    {
        RecordWithPrice { record, price }
    }
}

impl HasKey for RecordWithPrice {
    open spec fn skey(&self) -> int {
        self.record.instant as int
    }

    fn key_le(&self, other: &Self) -> (b: bool) {
        self.record.instant <= other.record.instant
    }
}

pub open spec fn all_rp_wf(s: Seq<RecordWithPrice>) -> bool {
    forall|i: int| 0 <= i < s.len() ==> (#[trigger] s[i]).wf()
}

/// The spot price effective for record `r`, if one is listed.
pub open spec fn effective_price(prices: Seq<HourlyPrice>, r: CanonicalRecord) -> Option<i64> {
    price_for(prices, effective_hour_spec(r.resolution, r.instant as int))
}

/// Every record's effective hour has a listed price.
pub open spec fn all_aligned(recs: Seq<CanonicalRecord>, prices: Seq<HourlyPrice>) -> bool {
    forall|i: int| 0 <= i < recs.len() ==> (#[trigger] effective_price(prices, recs[i])) is Some
}

/// The records mapped to their effective prices, in order.
pub open spec fn aligned_of(recs: Seq<CanonicalRecord>, prices: Seq<HourlyPrice>) -> Seq<
    RecordWithPrice,
> {
    recs.map(
        |i: int, r: CanonicalRecord|
            RecordWithPrice { record: r, price: effective_price(prices, r)->Some_0 },
    )
}

/// Match every binned record to its effective spot price and return the
/// aligned records stably sorted ascending by instant. If any record's
/// effective hour has no listed price, the whole alignment fails with that
/// hour, and no partial result is produced.
#[verifier::rlimit(60)]
pub fn with_prices(prices: &Vec<HourlyPrice>, bins: &Bins) -> (r: Result<
    Vec<RecordWithPrice>,
    EnergyError,
>)
    requires
        bins.wf(),
        all_prices_wf(prices@),
    ensures
        r is Ok <==> all_aligned(flatten_bins(bins.bins@), prices@),
        r matches Ok(v) ==> v@ == sort_by_key(aligned_of(flatten_bins(bins.bins@), prices@))
            && all_rp_wf(v@),
        r matches Err(e) ==> (e matches EnergyError::MissingPriceForInterval(t) && exists|i: int|
            0 <= i < flatten_bins(bins.bins@).len() && effective_hour_spec(
                (#[trigger] flatten_bins(bins.bins@)[i]).resolution,
                flatten_bins(bins.bins@)[i].instant as int,
            ) == t && price_for(prices@, t as int) is None),
{
    let mut out: Vec<RecordWithPrice> = Vec::new();
    let mut bi: usize = 0;
    while bi < bins.bins.len()
        invariant
            bi <= bins.bins@.len(),
            bins.wf(),
            all_prices_wf(prices@),
            out@ == aligned_of(flatten_bins(bins.bins@.take(bi as int)), prices@),
            all_aligned(flatten_bins(bins.bins@.take(bi as int)), prices@),
            all_rp_wf(out@),
        decreases bins.bins@.len() - bi,
    {
        let bin = &bins.bins[bi];
        let ghost prefix = flatten_bins(bins.bins@.take(bi as int));
        let mut ri: usize = 0;
        while ri < bin.records.len()
            invariant
                ri <= bin.records@.len(),
                bins.wf(),
                bi < bins.bins@.len(),
                bin == &bins.bins@[bi as int],
                all_prices_wf(prices@),
                prefix == flatten_bins(bins.bins@.take(bi as int)),
                out@ == aligned_of(prefix + bin.records@.take(ri as int), prices@),
                all_aligned(prefix + bin.records@.take(ri as int), prices@),
                all_rp_wf(out@),
            decreases bin.records@.len() - ri,
        {
            let rec = bin.records[ri];
            assert(rec.wf()) by {
                assert(bins.bins@[bi as int].wf());
            }
            let eff = effective_hour(rec.resolution, rec.instant);
            let ghost cur = prefix + bin.records@.take(ri as int);
            match lookup_price(prices, eff) {
                Some(p) => {
                    out.push(RecordWithPrice { record: rec, price: p });
                    proof {
                        lemma_price_for_wf(prices@, eff as int);
                        assert(cur.push(rec) =~= prefix + bin.records@.take(ri + 1));
                        assert(out@ =~= aligned_of(cur.push(rec), prices@)) by {
                            assert(aligned_of(cur.push(rec), prices@).len() == cur.len() + 1);
                            assert(forall|j: int|
                                0 <= j < cur.len() ==> cur.push(rec)[j] == cur[j]);
                            assert(cur.push(rec)[cur.len() as int] == rec);
                        }
                        assert(all_aligned(cur.push(rec), prices@)) by {
                            assert(forall|j: int|
                                0 <= j < cur.len() ==> cur.push(rec)[j] == cur[j]);
                            assert(cur.push(rec)[cur.len() as int] == rec);
                        }
                    }
                },
                None => {
                    proof {
                        // the unmatched record stands in the flattened whole
                        lemma_flatten_index(bins.bins@, bi as int, ri as int);
                        let w = flatten_bins(bins.bins@);
                        assert(0 <= prefix.len() + ri < w.len());
                        assert(w[prefix.len() + ri] == rec);
                        assert(effective_price(prices@, rec) is None);
                        assert(!all_aligned(w, prices@)) by {
                            assert(effective_price(prices@, w[prefix.len() + ri]) is None);
                        }
                    }
                    return Err(EnergyError::MissingPriceForInterval(eff));
                },
            }
            ri = ri + 1;
        }
        proof {
            assert(bins.bins@.take(bi + 1).drop_last() =~= bins.bins@.take(bi as int));
            assert(bins.bins@.take(bi + 1).last() == bins.bins@[bi as int]);
            assert(bin.records@.take(bin.records@.len() as int) =~= bin.records@);
            assert(flatten_bins(bins.bins@.take(bi + 1)) == prefix + bin.records@);
        }
        bi = bi + 1;
    }
    proof {
        assert(bins.bins@.take(bins.bins@.len() as int) =~= bins.bins@);
    }
    let ghost aligned = out@;
    sort_vec(&mut out);
    proof {
        crate::sorting::lemma_sort_by_key_props(aligned);
        assert forall|i: int| 0 <= i < out@.len() implies (#[trigger] out@[i]).wf() by {
            assert(out@.contains(out@[i]));
            assert(aligned.contains(out@[i]));
            let k = choose|k: int| 0 <= k < aligned.len() && aligned[k] == out@[i];
            assert(aligned[k].wf());
        }
    }
    Ok(out)
}

/// Where a bin's record stands in the flattened whole.
proof fn lemma_flatten_index(bins: Seq<DateBin>, bi: int, ri: int)
    requires
        0 <= bi < bins.len(),
        0 <= ri < bins[bi].records@.len(),
    ensures
        flatten_bins(bins).len() >= flatten_bins(bins.take(bi)).len() + bins[bi].records@.len(),
        flatten_bins(bins)[flatten_bins(bins.take(bi)).len() + ri] == bins[bi].records@[ri],
    decreases bins.len(),
{
    if bi == bins.len() - 1 {
        assert(bins.drop_last() =~= bins.take(bi));
        assert(flatten_bins(bins) == flatten_bins(bins.take(bi)) + bins[bi].records@);
    } else {
        let dl = bins.drop_last();
        assert(dl.take(bi) =~= bins.take(bi));
        assert(dl[bi] == bins[bi]);
        lemma_flatten_index(dl, bi, ri);
        assert(flatten_bins(bins) == flatten_bins(dl) + bins.last().records@);
        assert(flatten_bins(bins)[flatten_bins(dl.take(bi)).len() + ri] == flatten_bins(
            dl,
        )[flatten_bins(dl.take(bi)).len() + ri]);
    }
}

} // verus!
