//! Library-wide laws relating several functions, stated and proved once.

use vstd::prelude::*;
use crate::align::RecordWithPrice;
use crate::datebin::{DateBin, exceeds_fraction, lemma_max_energy_props, max_energy};
use crate::record::CanonicalRecord;
use crate::settlement::{flat_sum, market_sum};
use crate::units::SCALE_UNIT;

verus! {

proof fn lemma_filter_none(s: Seq<CanonicalRecord>, pred: spec_fn(CanonicalRecord) -> bool)
    requires
        forall|i: int| 0 <= i < s.len() ==> !pred(s[i]),
    ensures
        s.filter(pred) == Seq::<CanonicalRecord>::empty(),
    decreases s.len(),
{
    reveal(Seq::filter);
    if s.len() == 0 {
        assert(s.filter(pred) =~= Seq::<CanonicalRecord>::empty());
    } else {
        assert(forall|i: int| 0 <= i < s.len() - 1 ==> s.drop_last()[i] == s[i]);
        lemma_filter_none(s.drop_last(), pred);
        assert(!pred(s[s.len() - 1]));
        assert(s.filter(pred) =~= Seq::<CanonicalRecord>::empty());
    }
}

/// An empty bin yields no record above any fraction-of-peak threshold.
pub proof fn lemma_fraction_of_peak_empty(bin: DateBin, p: int)
    requires
        bin.records@.len() == 0,
    ensures
        bin.records@.filter(
            |rec: CanonicalRecord|
                exceeds_fraction(rec.energy as int, max_energy(bin.records@), p),
        ) == Seq::<CanonicalRecord>::empty(),
{
    lemma_filter_none(
        bin.records@,
        |rec: CanonicalRecord| exceeds_fraction(rec.energy as int, max_energy(bin.records@), p),
    );
}

/// A bin of identical energies yields no record above any threshold of one
/// or more: every ratio to the peak is exactly one, never greater.
pub proof fn lemma_fraction_of_peak_identical(bin: DateBin, p: int)
    requires
        forall|i: int, j: int|
            0 <= i < bin.records@.len() && 0 <= j < bin.records@.len() ==> bin.records@[i].energy
                == bin.records@[j].energy,
        p >= SCALE_UNIT,
    ensures
        bin.records@.filter(
            |rec: CanonicalRecord|
                exceeds_fraction(rec.energy as int, max_energy(bin.records@), p),
        ) == Seq::<CanonicalRecord>::empty(),
{
    let s = bin.records@;
    lemma_max_energy_props(s);
    assert forall|i: int| 0 <= i < s.len() implies !exceeds_fraction(
        s[i].energy as int,
        max_energy(s),
        p,
    ) by {
        let m = choose|m: int| 0 <= m < s.len() && s[m].energy == max_energy(s);
        assert(s[i].energy == s[m].energy);
        let e = s[i].energy as int;
        vstd::arithmetic::mul::lemma_mul_inequality(SCALE_UNIT as int, p, e);
    }
    lemma_filter_none(
        s,
        |rec: CanonicalRecord| exceeds_fraction(rec.energy as int, max_energy(s), p),
    );
}

proof fn lemma_sums_eq_range(
    s1: Seq<RecordWithPrice>,
    s2: Seq<RecordWithPrice>,
    rate: int,
    m: int,
    n: int,
)
    requires
        0 <= m <= n,
        n <= s1.len(),
        n <= s2.len(),
        market_sum(s1, m) == market_sum(s2, m),
        flat_sum(s1, rate, m) == flat_sum(s2, rate, m),
        forall|j: int| m <= j < n ==> s1[j] == s2[j],
    ensures
        market_sum(s1, n) == market_sum(s2, n),
        flat_sum(s1, rate, n) == flat_sum(s2, rate, n),
    decreases n - m,
{
    if n > m {
        lemma_sums_eq_range(s1, s2, rate, m, n - 1);
        assert(s1[n - 1] == s2[n - 1]);
    }
}

/// The settlement's final totals do not change when two adjacent records
/// with the same instant swap places: reordering simultaneous records
/// leaves the cumulative value intact.
pub proof fn lemma_settlement_reorder_same_instant(
    s: Seq<RecordWithPrice>,
    rate: int,
    i: int,
)
    requires
        0 <= i,
        i + 1 < s.len(),
        s[i].record.instant == s[i + 1].record.instant,
    ensures
        market_sum(s.update(i, s[i + 1]).update(i + 1, s[i]), s.len() as int) == market_sum(
            s,
            s.len() as int,
        ),
        flat_sum(s.update(i, s[i + 1]).update(i + 1, s[i]), rate, s.len() as int) == flat_sum(
            s,
            rate,
            s.len() as int,
        ),
{
    let s2 = s.update(i, s[i + 1]).update(i + 1, s[i]);
    assert(forall|j: int| 0 <= j < i ==> s1_eq(s, s2, j)) by {
        assert(forall|j: int| 0 <= j < i ==> s2[j] == s[j]);
    }
    lemma_sums_eq_range(s, s2, rate, 0, i);
    assert(s2[i] == s[i + 1]);
    assert(s2[i + 1] == s[i]);
    assert(market_sum(s, i + 1) == market_sum(s, i) + s[i].price * s[i].record.energy);
    assert(market_sum(s, i + 2) == market_sum(s, i + 1) + s[i + 1].price * s[i + 1].record.energy);
    assert(market_sum(s2, i + 1) == market_sum(s2, i) + s2[i].price * s2[i].record.energy);
    assert(market_sum(s2, i + 2) == market_sum(s2, i + 1) + s2[i + 1].price * s2[i
        + 1].record.energy);
    assert(flat_sum(s, rate, i + 1) == flat_sum(s, rate, i) + (rate * 100) * s[i].record.energy);
    assert(flat_sum(s, rate, i + 2) == flat_sum(s, rate, i + 1) + (rate * 100) * s[i
        + 1].record.energy);
    assert(flat_sum(s2, rate, i + 1) == flat_sum(s2, rate, i) + (rate * 100) * s2[i].record.energy);
    assert(flat_sum(s2, rate, i + 2) == flat_sum(s2, rate, i + 1) + (rate * 100) * s2[i
        + 1].record.energy);
    assert(forall|j: int| i + 2 <= j < s.len() ==> s2[j] == s[j]);
    lemma_sums_eq_range(s, s2, rate, i + 2, s.len() as int);
}

spec fn s1_eq(a: Seq<RecordWithPrice>, b: Seq<RecordWithPrice>, j: int) -> bool {
    a[j] == b[j]
}

} // verus!
