//! Partitioning a record batch into calendar-day bins.

use vstd::prelude::*;
use vstd::multiset::Multiset;
use crate::datebin::{DateBin, all_wf, lemma_filter_preserves_wf};
use crate::instant::{helsinki_day, helsinki_day_of};
use crate::record::CanonicalRecord;
use crate::sorting::{
    HasKey, lemma_sort_by_key_props, lemma_sort_by_key_unique, sort_by_key, sort_vec,
    sorted_by_key, unique_keys,
};

verus! {

broadcast use vstd::seq_lib::group_to_multiset_ensures, vstd::multiset::group_multiset_axioms;

impl HasKey for i64 {
    open spec fn skey(&self) -> int {
        *self as int
    }

    fn key_le(&self, other: &Self) -> (b: bool) {
        *self <= *other
    }
}

/// The Helsinki calendar day a record belongs to, derived from its UTC
/// instant under the fixed reference zone.
pub open spec fn day_of(r: CanonicalRecord) -> int {
    helsinki_day_of(r.instant as int)
}

/// Membership test a bin's records satisfy.
pub open spec fn belongs_to(r: CanonicalRecord, day: i64) -> bool {
    day_of(r) == day as int
}

/// Some listed day is `r`'s day.
pub open spec fn some_day_listed(r: CanonicalRecord, days: Seq<i64>) -> bool {
    exists|g: int| 0 <= g < days.len() && belongs_to(r, days[g])
}

/// Some record of the batch falls on day `d`.
pub open spec fn day_has_record(records: Seq<CanonicalRecord>, d: i64) -> bool {
    exists|k: int| 0 <= k < records.len() && belongs_to(records[k], d)
}

/// Some bin's date is `r`'s day.
pub open spec fn has_bin_for(bins: Seq<DateBin>, r: CanonicalRecord) -> bool {
    exists|i: int| 0 <= i < bins.len() && belongs_to(r, bins[i].date)
}

/// All records of all bins, in bin order.
pub open spec fn flatten_bins(bins: Seq<DateBin>) -> Seq<CanonicalRecord>
    decreases bins.len(),
{
    if bins.len() == 0 {
        Seq::<CanonicalRecord>::empty()
    } else {
        flatten_bins(bins.drop_last()) + bins.last().records@
    }
}

/// Records collected by filtering `s` once per listed day.
pub open spec fn grouped_multiset(s: Seq<CanonicalRecord>, days: Seq<i64>) -> Multiset<
    CanonicalRecord,
>
    decreases days.len(),
{
    if days.len() == 0 {
        Multiset::<CanonicalRecord>::empty()
    } else {
        grouped_multiset(s, days.drop_last()).add(
            s.filter(|x: CanonicalRecord| belongs_to(x, days.last())).to_multiset(),
        )
    }
}

proof fn lemma_grouped_multiset_empty(days: Seq<i64>)
    ensures
        grouped_multiset(Seq::<CanonicalRecord>::empty(), days)
            == Multiset::<CanonicalRecord>::empty(),
    decreases days.len(),
{
    reveal(Seq::filter);
    if days.len() == 0 {
    } else {
        lemma_grouped_multiset_empty(days.drop_last());
        let f = Seq::<CanonicalRecord>::empty().filter(
            |x: CanonicalRecord| belongs_to(x, days.last()),
        );
        assert(f.to_multiset() =~= Multiset::<CanonicalRecord>::empty());
        assert(grouped_multiset(Seq::<CanonicalRecord>::empty(), days)
            =~= Multiset::<CanonicalRecord>::empty());
    }
}

/// Appending a record touches exactly the group of its own day.
proof fn lemma_grouped_multiset_push(s: Seq<CanonicalRecord>, r: CanonicalRecord, days: Seq<i64>)
    requires
        unique_keys(days),
    ensures
        some_day_listed(r, days) ==> grouped_multiset(s.push(r), days) == grouped_multiset(
            s,
            days,
        ).insert(r),
        !some_day_listed(r, days) ==> grouped_multiset(s.push(r), days) == grouped_multiset(
            s,
            days,
        ),
    decreases days.len(),
{
    reveal(Seq::filter);
    if days.len() == 0 {
    } else {
        let dd = days.drop_last();
        assert(unique_keys(dd)) by {
            assert(forall|i: int| 0 <= i < dd.len() ==> dd[i] == days[i]);
        }
        lemma_grouped_multiset_push(s, r, dd);
        let dl = days.last();
        let pred = |x: CanonicalRecord| belongs_to(x, dl);
        assert(s.push(r).drop_last() =~= s);
        assert(s.push(r).last() == r);
        if belongs_to(r, dl) {
            assert(s.push(r).filter(pred) == s.filter(pred).push(r));
            assert(s.push(r).filter(pred).to_multiset() == s.filter(pred).to_multiset().insert(r));
            // r's day is the last listed day, so no earlier listed day is r's
            assert(!some_day_listed(r, dd)) by {
                if some_day_listed(r, dd) {
                    let j = choose|j: int| 0 <= j < dd.len() && belongs_to(r, dd[j]);
                    assert(days[j].skey() != days[days.len() - 1].skey());
                }
            }
            assert(grouped_multiset(s.push(r), days) =~= grouped_multiset(s, days).insert(r));
            assert(some_day_listed(r, days)) by {
                assert(belongs_to(r, days[days.len() - 1]));
            }
        } else {
            assert(s.push(r).filter(pred) == s.filter(pred));
            if some_day_listed(r, dd) {
                let j = choose|j: int| 0 <= j < dd.len() && belongs_to(r, dd[j]);
                assert(grouped_multiset(s.push(r), days) =~= grouped_multiset(s, days).insert(r));
                assert(some_day_listed(r, days)) by {
                    assert(belongs_to(r, days[j]));
                }
            } else {
                assert(grouped_multiset(s.push(r), days) == grouped_multiset(s, days));
                assert(!some_day_listed(r, days)) by {
                    if some_day_listed(r, days) {
                        let j = choose|j: int| 0 <= j < days.len() && belongs_to(r, days[j]);
                        assert(j == days.len() - 1 || belongs_to(r, dd[j]));
                    }
                }
            }
        }
    }
}

/// With every record's day listed exactly once, filtering once per day is a
/// partition: together the groups hold exactly the input records.
proof fn lemma_grouped_multiset_partition(s: Seq<CanonicalRecord>, days: Seq<i64>)
    requires
        unique_keys(days),
        forall|k: int| 0 <= k < s.len() ==> some_day_listed(#[trigger] s[k], days),
    ensures
        grouped_multiset(s, days) == s.to_multiset(),
    decreases s.len(),
{
    if s.len() == 0 {
        lemma_grouped_multiset_empty(days);
        assert(s =~= Seq::<CanonicalRecord>::empty());
        assert(s.to_multiset() =~= Multiset::<CanonicalRecord>::empty());
    } else {
        let s0 = s.drop_last();
        assert(forall|k: int| 0 <= k < s0.len() ==> some_day_listed(#[trigger] s0[k], days)) by {
            assert(forall|k: int| 0 <= k < s0.len() ==> s0[k] == s[k]);
        }
        lemma_grouped_multiset_partition(s0, days);
        assert(s0.push(s.last()) =~= s);
        assert(some_day_listed(s.last(), days)) by {
            assert(s[s.len() - 1] == s.last());
        }
        lemma_grouped_multiset_push(s0, s.last(), days);
        assert(s.to_multiset() == s0.to_multiset().insert(s.last()));
    }
}

/// Each distinct Helsinki day of the batch, ascending, each exactly once,
/// and only days some record falls on.
/// Day coverage in both directions survives reordering the day list.
proof fn lemma_day_coverage_transfer(
    records: Seq<CanonicalRecord>,
    presort: Seq<i64>,
    sorted: Seq<i64>,
    gidx: Seq<int>,
    wit: Seq<int>,
)
    requires
        forall|y: i64| #[trigger] sorted.contains(y) <==> presort.contains(y),
        gidx.len() == records.len(),
        forall|k: int|
            0 <= k < records.len() ==> 0 <= #[trigger] gidx[k] < presort.len() && belongs_to(
                records[k],
                presort[gidx[k]],
            ),
        wit.len() == presort.len(),
        forall|g: int|
            0 <= g < presort.len() ==> 0 <= #[trigger] wit[g] < records.len() && belongs_to(
                records[wit[g]],
                presort[g],
            ),
    ensures
        forall|k: int| 0 <= k < records.len() ==> some_day_listed(#[trigger] records[k], sorted),
        forall|g: int| 0 <= g < sorted.len() ==> day_has_record(records, #[trigger] sorted[g]),
{
    assert forall|k: int| 0 <= k < records.len() implies some_day_listed(
        #[trigger] records[k],
        sorted,
    ) by {
        assert(belongs_to(records[k], presort[gidx[k]]));
        assert(presort.contains(presort[gidx[k]]));
        assert(sorted.contains(presort[gidx[k]]));
        let g = choose|g: int| 0 <= g < sorted.len() && sorted[g] == presort[gidx[k]];
        assert(belongs_to(records[k], sorted[g]));
    }
    assert forall|g: int| 0 <= g < sorted.len() implies day_has_record(
        records,
        #[trigger] sorted[g],
    ) by {
        assert(sorted.contains(sorted[g]));
        assert(presort.contains(sorted[g]));
        let g0 = choose|g0: int| 0 <= g0 < presort.len() && presort[g0] == sorted[g];
        assert(belongs_to(records[wit[g0]], sorted[g]));
    }
}

/// One bin built from one listed day: non-empty, and every member falls on
/// that day.
proof fn lemma_bin_from_day(records: Seq<CanonicalRecord>, d: i64, bin: DateBin, kw: int)
    requires
        0 <= kw < records.len(),
        belongs_to(records[kw], d),
        bin.date == d,
        bin.records@ == sort_by_key(records.filter(|x: CanonicalRecord| belongs_to(x, d))),
    ensures
        bin.records@.len() > 0,
        forall|k: int| 0 <= k < bin.records@.len() ==> belongs_to(#[trigger] bin.records@[k], d),
        bin.records@.to_multiset() == records.filter(
            |x: CanonicalRecord| belongs_to(x, d),
        ).to_multiset(),
{
    broadcast use vstd::seq_lib::group_filter_ensures;

    let pred = |x: CanonicalRecord| belongs_to(x, d);
    let f = records.filter(pred);
    lemma_sort_by_key_props(f);
    assert(pred(records[kw]));
    assert(f.contains(records[kw]));
    assert(f.len() > 0);
    assert forall|k: int| 0 <= k < bin.records@.len() implies belongs_to(
        #[trigger] bin.records@[k],
        d,
    ) by {
        assert(bin.records@.contains(bin.records@[k]));
        assert(f.contains(bin.records@[k]));
        let m = choose|m: int| 0 <= m < f.len() && f[m] == bin.records@[k];
        assert(pred(f[m]));
    }
}

/// Appending a bin appends its records to the flattened whole.
proof fn lemma_flatten_push_ms(old_bins: Seq<DateBin>, bin: DateBin)
    ensures
        flatten_bins(old_bins.push(bin)) == flatten_bins(old_bins) + bin.records@,
        flatten_bins(old_bins.push(bin)).to_multiset() == flatten_bins(
            old_bins,
        ).to_multiset().add(bin.records@.to_multiset()),
{
    assert(old_bins.push(bin).drop_last() =~= old_bins);
    assert(old_bins.push(bin).last() == bin);
    vstd::seq_lib::lemma_multiset_commutative(flatten_bins(old_bins), bin.records@);
}

fn collect_days(records: &Vec<CanonicalRecord>) -> (days: Vec<i64>)
    requires
        all_wf(records@),
    ensures
        unique_keys(days@),
        sorted_by_key(days@),
        forall|k: int| 0 <= k < records@.len() ==> some_day_listed(#[trigger] records@[k], days@),
        forall|g: int| 0 <= g < days@.len() ==> day_has_record(records@, #[trigger] days@[g]),
{
    let mut days: Vec<i64> = Vec::new();
    let ghost mut gidx: Seq<int> = Seq::empty();
    let ghost mut wit: Seq<int> = Seq::empty();
    let mut ri: usize = 0;
    while ri < records.len()
        invariant
            ri <= records@.len(),
            all_wf(records@),
            unique_keys(days@),
            gidx.len() == ri,
            forall|k: int|
                0 <= k < ri ==> 0 <= #[trigger] gidx[k] < days@.len() && belongs_to(
                    records@[k],
                    days@[gidx[k]],
                ),
            wit.len() == days@.len(),
            forall|g: int|
                0 <= g < days@.len() ==> 0 <= #[trigger] wit[g] < ri && belongs_to(
                    records@[wit[g]],
                    days@[g],
                ),
        decreases records@.len() - ri,
    {
        let rec = records[ri];
        assert(records@[ri as int].wf());
        let d = helsinki_day(rec.instant);
        let mut g: usize = 0;
        while g < days.len() && days[g] != d
            invariant
                g <= days@.len(),
                forall|m: int| 0 <= m < g ==> days@[m] != d,
            decreases days@.len() - g,
        {
            g = g + 1;
        }
        if g == days.len() {
            days.push(d);
            proof {
                assert(unique_keys(days@)) by {
                    assert(forall|m: int| 0 <= m < days@.len() - 1 ==> days@[m] != d);
                }
                gidx = gidx.push(days@.len() - 1);
                wit = wit.push(ri as int);
                assert(belongs_to(records@[ri as int], days@[days@.len() - 1]));
            }
        } else {
            proof {
                gidx = gidx.push(g as int);
                assert(belongs_to(records@[ri as int], days@[g as int]));
            }
        }
        ri = ri + 1;
    }
    let ghost pre_sort_days = days@;
    proof {
        lemma_sort_by_key_unique(days@);
        lemma_sort_by_key_props(days@);
    }
    sort_vec(&mut days);
    proof {
        lemma_day_coverage_transfer(records@, pre_sort_days, days@, gidx, wit);
    }
    days
}

/// The records falling on one Helsinki day, in input order.
fn collect_group(records: &Vec<CanonicalRecord>, d: i64) -> (group: Vec<CanonicalRecord>)
    requires
        all_wf(records@),
    ensures
        group@ == records@.filter(|x: CanonicalRecord| belongs_to(x, d)),
{
    let ghost pred = |x: CanonicalRecord| belongs_to(x, d);
    let mut group: Vec<CanonicalRecord> = Vec::new();
    let mut k: usize = 0;
    proof {
        reveal(Seq::filter);
    }
    while k < records.len()
        invariant
            k <= records@.len(),
            all_wf(records@),
            pred == (|x: CanonicalRecord| belongs_to(x, d)),
            group@ == records@.take(k as int).filter(pred),
        decreases records@.len() - k,
    {
        proof {
            reveal(Seq::filter);
            assert(records@.take(k + 1).drop_last() =~= records@.take(k as int));
            assert(records@.take(k + 1).last() == records@[k as int]);
            assert(records@[k as int].wf());
        }
        let rec = records[k];
        let rd = helsinki_day(rec.instant);
        if rd == d {
            group.push(rec);
        }
        k = k + 1;
    }
    proof {
        assert(records@.take(records@.len() as int) =~= records@);
    }
    group
}

/// The chronologically ordered day bins of one record batch.
pub struct Bins {
    pub bins: Vec<DateBin>,
}

impl Bins {
    /// Every bin is well formed and non-empty, holds only records of its own
    /// calendar day, and the bins are strictly ascending by date: no date
    /// appears twice.
    pub open spec fn wf(self) -> bool {
        &&& forall|i: int| 0 <= i < self.bins@.len() ==> (#[trigger] self.bins@[i]).wf()
        &&& forall|i: int| 0 <= i < self.bins@.len() ==> (#[trigger] self.bins@[i]).records@.len() > 0
        &&& forall|i: int, k: int|
            0 <= i < self.bins@.len() && 0 <= k < self.bins@[i].records@.len() ==> belongs_to(
                #[trigger] self.bins@[i].records@[k],
                self.bins@[i].date,
            )
        &&& forall|i: int, j: int|
            0 <= i < j < self.bins@.len() ==> self.bins@[i].date < self.bins@[j].date
    }

    /// Group a batch by its Helsinki calendar day and order the bins by
    /// date. Each bin holds exactly the input's records of its day, stably
    /// sorted by energy, so the result is determined by the input sequence
    /// alone; together the bins hold every input record exactly once.
    #[verifier::rlimit(100)]
    pub fn from(records: Vec<CanonicalRecord>) -> (r: Bins)
        requires
            all_wf(records@),
        ensures
            r.wf(),
            forall|i: int|
                0 <= i < r.bins@.len() ==> (#[trigger] r.bins@[i]).records@ == sort_by_key(
                    records@.filter(|x: CanonicalRecord| belongs_to(x, r.bins@[i].date)),
                ),
            forall|k: int| 0 <= k < records@.len() ==> has_bin_for(r.bins@, #[trigger] records@[k]),
            flatten_bins(r.bins@).to_multiset() == records@.to_multiset(),
    {
        let days = collect_days(&records);
        let ghost wit = Seq::<int>::new(
            days@.len(),
            |g: int| choose|k: int| 0 <= k < records@.len() && belongs_to(records@[k], days@[g]),
        );
        proof {
            assert forall|g: int| 0 <= g < days@.len() implies 0 <= #[trigger] wit[g]
                < records@.len() && belongs_to(records@[wit[g]], days@[g]) by {
                assert(day_has_record(records@, days@[g]));
            }
        }
        let mut bins: Vec<DateBin> = Vec::new();
        let mut di: usize = 0;
        while di < days.len()
            invariant
                di <= days@.len(),
                all_wf(records@),
                unique_keys(days@),
                sorted_by_key(days@),
                wit.len() == days@.len(),
                forall|g: int|
                    0 <= g < days@.len() ==> 0 <= #[trigger] wit[g] < records@.len() && belongs_to(
                        records@[wit[g]],
                        days@[g],
                    ),
                bins@.len() == di,
                forall|i: int| 0 <= i < di ==> (#[trigger] bins@[i]).date == days@[i],
                forall|i: int|
                    0 <= i < di ==> (#[trigger] bins@[i]).records@ == sort_by_key(
                        records@.filter(|x: CanonicalRecord| belongs_to(x, days@[i])),
                    ),
                forall|i: int| 0 <= i < di ==> (#[trigger] bins@[i]).wf(),
                forall|i: int| 0 <= i < di ==> (#[trigger] bins@[i]).records@.len() > 0,
                forall|i: int, k: int|
                    0 <= i < di && 0 <= k < bins@[i].records@.len() ==> belongs_to(
                        #[trigger] bins@[i].records@[k],
                        bins@[i].date,
                    ),
                flatten_bins(bins@).to_multiset() == grouped_multiset(
                    records@,
                    days@.take(di as int),
                ),
            decreases days@.len() - di,
        {
            let d = days[di];
            let ghost pred = |x: CanonicalRecord| belongs_to(x, d);
            let group = collect_group(&records, d);
            proof {
                lemma_filter_preserves_wf(records@, pred);
            }
            let bin = DateBin::new(d, group);
            let ghost old_bins = bins@;
            bins.push(bin);
            proof {
                lemma_bin_from_day(records@, d, bin, wit[di as int]);
                lemma_flatten_push_ms(old_bins, bin);
                assert(bins@ == old_bins.push(bin));
                assert(days@.take(di + 1).drop_last() =~= days@.take(di as int));
                assert(days@.take(di + 1).last() == days@[di as int]);
                assert(flatten_bins(bins@).to_multiset() == grouped_multiset(
                    records@,
                    days@.take(di + 1),
                ));
            }
            di = di + 1;
        }
        proof {
            assert(days@.take(days@.len() as int) =~= days@);
            lemma_grouped_multiset_partition(records@, days@);
            assert forall|k: int| 0 <= k < records@.len() implies has_bin_for(
                bins@,
                #[trigger] records@[k],
            ) by {
                assert(some_day_listed(records@[k], days@));
                let g = choose|g: int| 0 <= g < days@.len() && belongs_to(records@[k], days@[g]);
                assert(belongs_to(records@[k], bins@[g].date));
            }
        }
        Bins { bins }
    }

    /// Number of day bins.
    pub fn len(&self) -> (n: usize)
        ensures
            n == self.bins@.len(),
    {
        self.bins.len()
    }
}

} // verus!
