//! One calendar day's records, with order-statistic queries.

use vstd::prelude::*;
use crate::record::CanonicalRecord;
use crate::sorting::{HasKey, lemma_sort_by_key_props, sort_by_key, sort_vec, sorted_by_key};
use crate::units::{SCALE_UNIT, VALUE_LIMIT};

verus! {

impl HasKey for CanonicalRecord {
    open spec fn skey(&self) -> int {
        self.energy as int
    }

    fn key_le(&self, other: &Self) -> (b: bool) {
        self.energy <= other.energy
    }
}

/// Exact sum of the energies of a record sequence.
pub open spec fn sum_energy(s: Seq<CanonicalRecord>) -> int
    decreases s.len(),
{
    if s.len() == 0 {
        0
    } else {
        sum_energy(s.drop_last()) + s.last().energy
    }
}

/// Largest energy in a record sequence; zero for an empty one.
pub open spec fn max_energy(s: Seq<CanonicalRecord>) -> int
    decreases s.len(),
{
    if s.len() == 0 {
        0
    } else if s.last().energy >= max_energy(s.drop_last()) {
        s.last().energy as int
    } else {
        max_energy(s.drop_last())
    }
}

/// The fraction-of-peak test: whether `e / mx` exceeds the scaled fraction
/// `p`, stated multiplicatively so it is exact. Nothing exceeds a zero peak.
pub open spec fn exceeds_fraction(e: int, mx: int, p: int) -> bool {
    e * SCALE_UNIT > p * mx
}

pub open spec fn all_wf(s: Seq<CanonicalRecord>) -> bool {
    forall|i: int| 0 <= i < s.len() ==> s[i].wf()
}

pub proof fn lemma_sum_energy_bounds(s: Seq<CanonicalRecord>)
    requires
        all_wf(s),
    ensures
        0 <= sum_energy(s) <= s.len() * VALUE_LIMIT,
    decreases s.len(),
{
    if s.len() == 0 {
    } else {
        assert(all_wf(s.drop_last())) by {
            assert(forall|i: int| 0 <= i < s.len() - 1 ==> s.drop_last()[i] == s[i]);
        }
        lemma_sum_energy_bounds(s.drop_last());
        assert(s[s.len() - 1].wf());
    }
}

pub proof fn lemma_max_energy_props(s: Seq<CanonicalRecord>)
    ensures
        0 <= max_energy(s),
        forall|i: int| 0 <= i < s.len() ==> s[i].energy <= max_energy(s),
        all_wf(s) ==> max_energy(s) < VALUE_LIMIT,
        s.len() > 0 ==> exists|i: int| 0 <= i < s.len() && s[i].energy == max_energy(s),
    decreases s.len(),
{
    if s.len() == 0 {
    } else {
        lemma_max_energy_props(s.drop_last());
        assert(all_wf(s) ==> all_wf(s.drop_last())) by {
            assert(forall|i: int| 0 <= i < s.len() - 1 ==> s.drop_last()[i] == s[i]);
        }
        assert(all_wf(s) ==> s[s.len() - 1].wf());
        assert forall|i: int| 0 <= i < s.len() implies s[i].energy <= max_energy(s) by {
            if i < s.len() - 1 {
                assert(s.drop_last()[i] == s[i]);
            }
        }
        if s.last().energy >= max_energy(s.drop_last()) {
            assert(s[s.len() - 1].energy == max_energy(s));
        } else {
            let i = choose|i: int|
                0 <= i < s.drop_last().len() && s.drop_last()[i].energy == max_energy(
                    s.drop_last(),
                );
            assert(s[i].energy == max_energy(s));
        }
    }
}

/// A predicate true of every element stays true through `Seq::filter`.
pub proof fn lemma_filter_preserves_wf(s: Seq<CanonicalRecord>, pred: spec_fn(CanonicalRecord) -> bool)
    requires
        all_wf(s),
    ensures
        all_wf(s.filter(pred)),
    decreases s.len(),
{
    reveal(Seq::filter);
    if s.len() == 0 {
    } else {
        assert(all_wf(s.drop_last())) by {
            assert(forall|i: int| 0 <= i < s.len() - 1 ==> s.drop_last()[i] == s[i]);
        }
        lemma_filter_preserves_wf(s.drop_last(), pred);
        assert(s[s.len() - 1].wf());
        let f = s.filter(pred);
        let fd = s.drop_last().filter(pred);
        assert forall|i: int| 0 <= i < f.len() implies f[i].wf() by {
            if pred(s.last()) {
                assert(f == fd.push(s.last()));
            } else {
                assert(f == fd);
            }
        }
    }
}

/// Sum the energies of well-formed records; exact, in `u128`.
fn sum_energies(v: &Vec<CanonicalRecord>) -> (s: u128)
    requires
        all_wf(v@),
    ensures
        s == sum_energy(v@),
{
    let mut s: u128 = 0;
    let mut i: usize = 0;
    while i < v.len()
        invariant
            i <= v@.len(),
            all_wf(v@),
            s == sum_energy(v@.take(i as int)),
            s <= i as int * VALUE_LIMIT,
        decreases v@.len() - i,
    {
        proof {
            assert(v@.take(i + 1).drop_last() =~= v@.take(i as int));
            assert(v@.take(i + 1).last() == v@[i as int]);
            assert(v@[i as int].wf());
        }
        s = s + (v[i].energy as u128);
        i = i + 1;
    }
    proof {
        assert(v@.take(v@.len() as int) =~= v@);
    }
    s
}

/// All records of one calendar day under the reference zone, ordered
/// ascending by energy, with a precomputed median index. Built once from a
/// finite batch; read-only afterward.
#[derive(Debug, Clone)]
pub struct DateBin {
    /// Calendar day under the Helsinki reference zone, as days from the
    /// Common Era.
    pub date: i64,
    /// The day's records, sorted ascending by energy, ties in input order.
    pub records: Vec<CanonicalRecord>,
    /// Cached median index: `records.len() / 2`.
    pub median: usize,
}

impl HasKey for DateBin {
    open spec fn skey(&self) -> int {
        self.date as int
    }

    fn key_le(&self, other: &Self) -> (b: bool) {
        self.date <= other.date
    }
}

impl DateBin {
    pub open spec fn wf(self) -> bool {
        &&& self.median == self.records@.len() as int / 2
        &&& sorted_by_key(self.records@)
        &&& all_wf(self.records@)
    }

    /// Build a bin for one day: sort the records stably ascending by energy
    /// and cache the floor-median index.
    pub fn new(date: i64, records: Vec<CanonicalRecord>) -> (r: DateBin)
        requires
            all_wf(records@),
        ensures
            r.date == date,
            r.records@ == sort_by_key(records@),
            r.median == records@.len() as int / 2,
            r.wf(),
    {
        let ghost orig = records@;
        let mut energy = records;
        sort_vec(&mut energy);
        let median = energy.len() / 2;
        proof {
            lemma_sort_by_key_props(orig);
            assert forall|i: int| 0 <= i < energy@.len() implies energy@[i].wf() by {
                assert(energy@.contains(energy@[i]));
                assert(orig.contains(energy@[i]));
                let k = choose|k: int| 0 <= k < orig.len() && orig[k] == energy@[i];
                assert(orig[k].wf());
            }
        }
        DateBin { date, records: energy, median }
    }

    pub fn records(&self) -> (r: &[CanonicalRecord])
        ensures
            r@ == self.records@,
    {
        self.records.as_slice()
    }

    /// Exact sum of the member energies (scaled mantissa).
    pub fn energy_sum(&self) -> (s: u128)
        requires
            self.wf(),
        ensures
            s == sum_energy(self.records@),
    {
        sum_energies(&self.records)
    }

    /// The energy sum spread over a nominal day of 24 hourly settlement
    /// points (truncating division); the divisor is fixed no matter how many
    /// records the day actually holds.
    pub fn hourly_average(&self) -> (r: u128)
        requires
            self.wf(),
        ensures
            r == sum_energy(self.records@) / 24,
    {
        proof {
            lemma_sum_energy_bounds(self.records@);
        }
        self.energy_sum() / 24
    }

    /// Largest member energy; zero for an empty bin.
    fn peak_energy(&self) -> (mx: u64)
        requires
            self.wf(),
        ensures
            mx == max_energy(self.records@),
            mx < VALUE_LIMIT,
    {
        proof {
            lemma_max_energy_props(self.records@);
        }
        let mut mx: u64 = 0;
        let mut i: usize = 0;
        while i < self.records.len()
            invariant
                i <= self.records@.len(),
                self.wf(),
                mx == max_energy(self.records@.take(i as int)),
                mx < VALUE_LIMIT,
            decreases self.records@.len() - i,
        {
            proof {
                assert(self.records@.take(i + 1).drop_last() =~= self.records@.take(i as int));
                assert(self.records@.take(i + 1).last() == self.records@[i as int]);
                assert(self.records@[i as int].wf());
            }
            let e = self.records[i].energy;
            if e >= mx {
                mx = e;
            }
            i = i + 1;
        }
        proof {
            assert(self.records@.take(self.records@.len() as int) =~= self.records@);
        }
        mx
    }

    /// Fraction-of-peak query: the records whose energy, as a fraction of
    /// the bin's maximum energy, exceeds the scaled fraction `percent`.
    /// Despite the traditional name this is not a statistical percentile
    /// rank. An empty bin yields an empty result.
    pub fn above_percentile(&self, percent: i64) -> (r: Vec<CanonicalRecord>)
        requires
            self.wf(),
        ensures
            r@ == self.records@.filter(
                |rec: CanonicalRecord|
                    exceeds_fraction(
                        rec.energy as int,
                        max_energy(self.records@),
                        percent as int,
                    ),
            ),
    {
        let mx = self.peak_energy();
        let ghost pred = (|rec: CanonicalRecord|
            exceeds_fraction(rec.energy as int, max_energy(self.records@), percent as int));
        let mut out: Vec<CanonicalRecord> = Vec::new();
        let mut i: usize = 0;
        proof {
            reveal(Seq::filter);
        }
        while i < self.records.len()
            invariant
                i <= self.records@.len(),
                self.wf(),
                mx == max_energy(self.records@),
                mx < VALUE_LIMIT,
                pred == (|rec: CanonicalRecord|
                    exceeds_fraction(
                        rec.energy as int,
                        max_energy(self.records@),
                        percent as int,
                    )),
                out@ == self.records@.take(i as int).filter(pred),
            decreases self.records@.len() - i,
        {
            proof {
                reveal(Seq::filter);
                assert(self.records@.take(i + 1).drop_last() =~= self.records@.take(i as int));
                assert(self.records@.take(i + 1).last() == self.records@[i as int]);
                assert(self.records@[i as int].wf());
                let pi = percent as int;
                let mi = mx as int;
                if pi >= 0 {
                    vstd::arithmetic::mul::lemma_mul_upper_bound(
                        pi,
                        0x8000000000000000,
                        mi,
                        0x2000000000,
                    );
                    vstd::arithmetic::mul::lemma_mul_nonnegative(pi, mi);
                } else {
                    vstd::arithmetic::mul::lemma_mul_inequality(pi, 0, mi);
                    vstd::arithmetic::mul::lemma_mul_by_zero_is_zero(mi);
                    vstd::arithmetic::mul::lemma_mul_inequality(-0x8000000000000000, pi, mi);
                    vstd::arithmetic::mul::lemma_mul_unary_negation(0x8000000000000000, mi);
                    vstd::arithmetic::mul::lemma_mul_upper_bound(
                        0x8000000000000000,
                        0x8000000000000000,
                        mi,
                        0x2000000000,
                    );
                }
                assert(-0x10000000000000000000000000 <= pi * mi <= 0x10000000000000000000000000);
            }
            let rec = self.records[i];
            if (rec.energy as i128) * (SCALE_UNIT as i128) > (percent as i128) * (mx as i128) {
                out.push(rec);
            }
            i = i + 1;
        }
        proof {
            assert(self.records@.take(self.records@.len() as int) =~= self.records@);
        }
        out
    }

    /// The records whose energy strictly exceeds an absolute threshold.
    pub fn records_above_consumption(&self, consumption: i64) -> (r: Vec<CanonicalRecord>)
        requires
            self.wf(),
        ensures
            r@ == self.records@.filter(
                |rec: CanonicalRecord| rec.energy as int > consumption as int,
            ),
    {
        let ghost pred = (|rec: CanonicalRecord| rec.energy as int > consumption as int);
        let mut out: Vec<CanonicalRecord> = Vec::new();
        let mut i: usize = 0;
        proof {
            reveal(Seq::filter);
        }
        while i < self.records.len()
            invariant
                i <= self.records@.len(),
                self.wf(),
                pred == (|rec: CanonicalRecord| rec.energy as int > consumption as int),
                out@ == self.records@.take(i as int).filter(pred),
            decreases self.records@.len() - i,
        {
            proof {
                reveal(Seq::filter);
                assert(self.records@.take(i + 1).drop_last() =~= self.records@.take(i as int));
                assert(self.records@.take(i + 1).last() == self.records@[i as int]);
            }
            let rec = self.records[i];
            if (rec.energy as i128) > (consumption as i128) {
                out.push(rec);
            }
            i = i + 1;
        }
        proof {
            assert(self.records@.take(self.records@.len() as int) =~= self.records@);
        }
        out
    }

    /// The record at the cached median index `count / 2` — the upper median
    /// of an even-sized bin, never an average — or nothing for an empty bin.
    pub fn median_energy_record(&self) -> (r: Option<CanonicalRecord>)
        requires
            self.wf(),
        ensures
            self.records@.len() == 0 ==> r == None::<CanonicalRecord>,
            self.records@.len() > 0 ==> r == Some(self.records@[self.records@.len() as int / 2]),
    {
        if self.median < self.records.len() {
            Some(self.records[self.median])
        } else {
            None
        }
    }

    /// Pair this bin with a fraction-of-peak threshold for reporting.
    pub fn nth_percentile(&self, percentile: i64) -> (r: NthPercentile<'_>)
        ensures
            r.bin == self,
            r.nth_percentile == percentile,
    {
        NthPercentile { bin: self, nth_percentile: percentile }
    }
}

/// A day bin viewed under one fraction-of-peak threshold.
pub struct NthPercentile<'a> {
    pub bin: &'a DateBin,
    pub nth_percentile: i64,
}

impl NthPercentile<'_> {
    /// Exact energy sum of the records above the threshold.
    pub fn above_energy_sum(&self) -> (s: u128)
        requires
            self.bin.wf(),
        ensures
            s == sum_energy(
                self.bin.records@.filter(
                    |rec: CanonicalRecord|
                        exceeds_fraction(
                            rec.energy as int,
                            max_energy(self.bin.records@),
                            self.nth_percentile as int,
                        ),
                ),
            ),
    {
        let above = self.bin.above_percentile(self.nth_percentile);
        proof {
            lemma_filter_preserves_wf(
                self.bin.records@,
                |rec: CanonicalRecord|
                    exceeds_fraction(
                        rec.energy as int,
                        max_energy(self.bin.records@),
                        self.nth_percentile as int,
                    ),
            );
        }
        sum_energies(&above)
    }
}

} // verus!
