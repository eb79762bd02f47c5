use chrono::TimeZone;
use eleparserlib::align::{with_prices, HourlyPrice, RecordWithPrice};
use eleparserlib::bins::Bins;
use eleparserlib::datebin::DateBin;
use eleparserlib::errors::EnergyError;
use eleparserlib::get_data;
use eleparserlib::record::{
    normalize_fingrid, normalize_oomi, CanonicalRecord, FingridRawRow, OomiRawRow, TimeResolution,
};
use eleparserlib::settlement::cumulative_price_by_day;
use eleparserlib::units::{from_decimal_comma, from_signed_decimal_comma};

fn utc(y: i32, mo: u32, d: u32, h: u32, mi: u32) -> i64 {
    chrono::Utc
        .with_ymd_and_hms(y, mo, d, h, mi, 0)
        .unwrap()
        .timestamp()
}

fn rec(resolution: TimeResolution, instant: i64, energy: u64) -> CanonicalRecord {
    CanonicalRecord {
        resolution,
        instant,
        energy,
        temperature: None,
    }
}

#[test]
fn decimal_comma_five_fraction_digits() {
    assert_eq!(from_decimal_comma(b"12,345", 5), Ok(1_234_500));
}

#[test]
fn decimal_comma_two_fraction_digits() {
    assert_eq!(from_decimal_comma(b"12,34", 2), Ok(1_234_000));
}

#[test]
fn decimal_comma_rejects_malformed() {
    assert_eq!(from_decimal_comma(b"12.34", 5), Err(EnergyError::MalformedInput));
    assert_eq!(from_decimal_comma(b"12,", 5), Err(EnergyError::MalformedInput));
    assert_eq!(from_decimal_comma(b",5", 5), Err(EnergyError::MalformedInput));
    assert_eq!(from_decimal_comma(b"12,345678", 5), Err(EnergyError::MalformedInput));
    assert_eq!(from_decimal_comma(b"12,345", 2), Err(EnergyError::MalformedInput));
    assert_eq!(from_decimal_comma(b"-1,0", 5), Err(EnergyError::MalformedInput));
    assert_eq!(from_decimal_comma(b"abc", 5), Err(EnergyError::MalformedInput));
}

#[test]
fn signed_decimal_comma_temperature() {
    assert_eq!(from_signed_decimal_comma(b"-12,5", 5), Some(-1_250_000));
    assert_eq!(from_signed_decimal_comma(b"3,25", 5), Some(325_000));
    assert_eq!(from_signed_decimal_comma(b"cold", 5), None);
}

#[test]
fn fingrid_row_normalizes() {
    let row = FingridRawRow {
        resolution: TimeResolution::PT1H,
        instant: utc(2023, 6, 15, 10, 0),
        energy: b"12,345".to_vec(),
    };
    let c = normalize_fingrid(&row).unwrap();
    assert_eq!(c.instant, utc(2023, 6, 15, 10, 0));
    assert_eq!(c.energy, 1_234_500);
    assert_eq!(c.temperature, None);
}

#[test]
fn oomi_row_normalizes_plain_local_time() {
    let row = OomiRawRow {
        timestamp: b"15.06.2023 12:00".to_vec(),
        energy: b"12,34".to_vec(),
        status: None,
        temperature: Some(b"-12,5".to_vec()),
        resolution: TimeResolution::PT1H,
    };
    let c = normalize_oomi(&row).unwrap();
    // Helsinki summer time is three hours ahead of UTC
    assert_eq!(c.instant, utc(2023, 6, 15, 9, 0));
    assert_eq!(c.energy, 1_234_000);
    assert_eq!(c.temperature, Some(-1_250_000));
}

#[test]
fn oomi_fold_resolved_as_standard_time_in_autumn() {
    // 03:30 local on 2022-10-30 falls in the daylight-saving fold; the
    // month is in the second half of the year, so the reading resolves as
    // if one hour later: 04:30 EET, which is 02:30 UTC.
    let row = OomiRawRow {
        timestamp: b"30.10.2022 03:30".to_vec(),
        energy: b"1,00".to_vec(),
        status: None,
        temperature: None,
        resolution: TimeResolution::PT1H,
    };
    let c = normalize_oomi(&row).unwrap();
    assert_eq!(c.instant, utc(2022, 10, 30, 2, 30));
}

#[test]
fn oomi_gap_is_rejected() {
    // 03:30 local on 2023-03-26 does not exist in Helsinki.
    let row = OomiRawRow {
        timestamp: b"26.03.2023 03:30".to_vec(),
        energy: b"1,00".to_vec(),
        status: None,
        temperature: None,
        resolution: TimeResolution::PT1H,
    };
    assert_eq!(normalize_oomi(&row), Err(EnergyError::AmbiguousOrInvalidTimestamp));
}

#[test]
fn oomi_bad_timestamp_is_malformed() {
    let row = OomiRawRow {
        timestamp: b"2023-06-15 12:00".to_vec(),
        energy: b"1,00".to_vec(),
        status: None,
        temperature: None,
        resolution: TimeResolution::PT1H,
    };
    assert_eq!(normalize_oomi(&row), Err(EnergyError::MalformedInput));
}

#[test]
fn bins_group_by_helsinki_day() {
    // 21:00 UTC is 23:00 Helsinki (same local day); 22:30 UTC is already
    // 00:30 on the next Helsinki day.
    let r1 = rec(TimeResolution::PT1H, utc(2023, 1, 1, 21, 0), 100_000);
    let r2 = rec(TimeResolution::PT1H, utc(2023, 1, 1, 22, 30), 200_000);
    let bins = Bins::from(vec![r1, r2]);
    assert_eq!(bins.bins.len(), 2);
    assert!(bins.bins[0].date < bins.bins[1].date);

    // both after the Helsinki midnight: one bin
    let r3 = rec(TimeResolution::PT1H, utc(2023, 1, 1, 22, 30), 100_000);
    let r4 = rec(TimeResolution::PT1H, utc(2023, 1, 1, 23, 30), 200_000);
    let bins = Bins::from(vec![r3, r4]);
    assert_eq!(bins.bins.len(), 1);
    assert_eq!(bins.bins[0].records.len(), 2);
}

#[test]
fn median_is_upper_middle_of_energy_order() {
    let t = utc(2023, 6, 15, 10, 0);
    let mk = |e: u64| rec(TimeResolution::PT1H, t, e);
    let odd = DateBin::new(1, vec![mk(100), mk(300), mk(200)]);
    assert_eq!(odd.median_energy_record().unwrap().energy, 200);
    let even = DateBin::new(1, vec![mk(400), mk(100), mk(300), mk(200)]);
    assert_eq!(even.median_energy_record().unwrap().energy, 300);
    let single = DateBin::new(1, vec![mk(700)]);
    assert_eq!(single.median_energy_record().unwrap().energy, 700);
    let empty = DateBin::new(1, vec![]);
    assert!(empty.median_energy_record().is_none());
}

#[test]
fn energy_sum_and_fixed_divisor_average() {
    let t = utc(2023, 6, 15, 10, 0);
    let mk = |e: u64| rec(TimeResolution::PT1H, t, e);
    let bin = DateBin::new(1, vec![mk(100_000), mk(200_000), mk(300_000)]);
    assert_eq!(bin.energy_sum(), 600_000);
    // always divided by 24, no matter how many records the day holds
    assert_eq!(bin.hourly_average(), 25_000);
    let empty = DateBin::new(1, vec![]);
    assert_eq!(empty.energy_sum(), 0);
    assert_eq!(empty.hourly_average(), 0);
}

#[test]
fn fraction_of_peak_boundaries() {
    let t = utc(2023, 6, 15, 10, 0);
    let mk = |e: u64| rec(TimeResolution::PT1H, t, e);
    let empty = DateBin::new(1, vec![]);
    assert!(empty.above_percentile(0).is_empty());

    // identical energies: every ratio to the peak is exactly one
    let same = DateBin::new(1, vec![mk(500_000), mk(500_000)]);
    assert!(same.above_percentile(100_000).is_empty());
    assert_eq!(same.above_percentile(50_000).len(), 2);

    let mixed = DateBin::new(1, vec![mk(100_000), mk(400_000)]);
    // 100000/400000 = 0.25 is not above 0.25; the peak itself is
    let above = mixed.above_percentile(25_000);
    assert_eq!(above.len(), 1);
    assert_eq!(above[0].energy, 400_000);
}

#[test]
fn records_above_absolute_threshold() {
    let t = utc(2023, 6, 15, 10, 0);
    let mk = |e: u64| rec(TimeResolution::PT1H, t, e);
    let bin = DateBin::new(1, vec![mk(100), mk(200), mk(300)]);
    let above = bin.records_above_consumption(200);
    assert_eq!(above.len(), 1);
    assert_eq!(above[0].energy, 300);
}

#[test]
fn alignment_uses_preceding_hour_for_hourly_records() {
    let t = utc(2023, 6, 15, 10, 0);
    let r = rec(TimeResolution::PT1H, t, 100_000);
    let bins = Bins::from(vec![r]);
    let prices = vec![HourlyPrice { time: t - 3600, price: 1_000_000 }];
    let aligned = with_prices(&prices, &bins).unwrap();
    assert_eq!(aligned.len(), 1);
    assert_eq!(aligned[0].price, 1_000_000);
}

#[test]
fn alignment_rules_for_quarter_hour_records() {
    let hour = utc(2023, 6, 15, 10, 0);
    // on the boundary: previous hour's price
    let on_boundary = rec(TimeResolution::PT15M, hour, 100_000);
    // inside the hour: that hour's own price
    let in_hour = rec(TimeResolution::PT15M, hour + 900, 100_000);
    let bins = Bins::from(vec![on_boundary, in_hour]);
    let prices = vec![
        HourlyPrice { time: hour - 3600, price: 1_000_000 },
        HourlyPrice { time: hour, price: 2_000_000 },
    ];
    let aligned = with_prices(&prices, &bins).unwrap();
    assert_eq!(aligned.len(), 2);
    assert_eq!(aligned[0].record.instant, hour);
    assert_eq!(aligned[0].price, 1_000_000);
    assert_eq!(aligned[1].record.instant, hour + 900);
    assert_eq!(aligned[1].price, 2_000_000);
}

#[test]
fn missing_price_fails_whole_alignment() {
    let t = utc(2023, 6, 15, 10, 0);
    let r1 = rec(TimeResolution::PT1H, t, 100_000);
    let r2 = rec(TimeResolution::PT1H, t + 3600, 100_000);
    let bins = Bins::from(vec![r1, r2]);
    // only the second record's effective hour is listed
    let prices = vec![HourlyPrice { time: t, price: 1_000_000 }];
    assert_eq!(
        with_prices(&prices, &bins),
        Err(EnergyError::MissingPriceForInterval(t - 3600))
    );
}

#[test]
fn cumulative_settlement_empty_input() {
    let out = cumulative_price_by_day(vec![], 700_000);
    assert!(out.is_empty());
}

#[test]
fn cumulative_settlement_three_hourly_records() {
    // energies 1.0, 2.0, 3.0 kWh; matched prices 10, 20, 30 cents/kWh;
    // flat rate 7 currency major units per kWh.
    let t = utc(2023, 6, 15, 10, 0);
    let mk = |off: i64, e: u64, p: i64| RecordWithPrice {
        record: rec(TimeResolution::PT1H, t + off, e),
        price: p,
    };
    let aligned = vec![
        mk(0, 100_000, 1_000_000),
        mk(3600, 200_000, 2_000_000),
        mk(7200, 300_000, 3_000_000),
    ];
    let out = cumulative_price_by_day(aligned, 700_000);
    assert_eq!(out.len(), 3);
    // cumulative market cost after the third record is 1.40 major units,
    // at the scale of ten to the twelfth
    assert_eq!(out[2].cumulative_market_price, 1_400_000_000_000);
    // cumulative flat cost is 42.00 major units
    assert_eq!(out[2].cumulative_set_price, 42_000_000_000_000);
    assert_eq!(out[0].cumulative_market_price, 100_000_000_000);
    assert_eq!(out[1].cumulative_market_price, 500_000_000_000);
    assert_eq!(out[0].cumulative_set_price, 7_000_000_000_000);
    assert_eq!(out[1].cumulative_set_price, 21_000_000_000_000);
}

#[test]
fn get_data_end_to_end() {
    let t = utc(2023, 6, 15, 10, 0);
    let records = vec![
        rec(TimeResolution::PT1H, t, 100_000),
        rec(TimeResolution::PT1H, t + 3600, 200_000),
        rec(TimeResolution::PT1H, t + 7200, 300_000),
        // outside the query window, dropped before binning
        rec(TimeResolution::PT1H, t + 86_400, 900_000),
    ];
    let prices = vec![
        HourlyPrice { time: t - 3600, price: 1_000_000 },
        HourlyPrice { time: t, price: 2_000_000 },
        HourlyPrice { time: t + 3600, price: 3_000_000 },
    ];
    let out = get_data(records, &prices, t, t + 7200, 700_000).unwrap();
    assert_eq!(out.len(), 3);
    assert_eq!(out[2].cumulative_market_price, 1_400_000_000_000);
    assert_eq!(out[2].cumulative_set_price, 42_000_000_000_000);
}

#[test]
fn get_data_missing_price_yields_no_rows() {
    let t = utc(2023, 6, 15, 10, 0);
    let records = vec![rec(TimeResolution::PT1H, t, 100_000)];
    let prices: Vec<HourlyPrice> = vec![];
    assert_eq!(
        get_data(records, &prices, t, t, 700_000),
        Err(EnergyError::MissingPriceForInterval(t - 3600))
    );
}
