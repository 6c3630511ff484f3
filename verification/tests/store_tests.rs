use energy_monitor::domain::decimal::FixedDecimal;
use energy_monitor::domain::models::CalendarDate;
use energy_monitor::domain::models::ElectricityPrice;
use energy_monitor::domain::models::GeoZone;
use energy_monitor::domain::models::day_of_timestamp;
use energy_monitor::domain::models::zone_as_str;
use energy_monitor::domain::models::zone_of_str;
use energy_monitor::domain::repository::PriceRepository;
use energy_monitor::infrastructure::memory_repo::MemoryPriceRepository;

fn record(ts: i64, units: i64) -> ElectricityPrice {
    ElectricityPrice {
        datetime: ts,
        value: FixedDecimal::from_int(units),
        geo_zone: GeoZone::Peninsula,
        meta_tags: None,
    }
}

#[test]
fn test_is_expensive_returns_true_when_high() {
    // Arrange
    let price = ElectricityPrice {
        datetime: 1704067200,
        value: FixedDecimal::from_int(200),
        geo_zone: GeoZone::Peninsula,
        meta_tags: None,
    };

    // Act & Assert
    assert!(price.is_expensive(), "Debería ser caro porque es 200");
}

#[test]
fn test_is_expensive_returns_false_when_low() {
    let price = ElectricityPrice {
        datetime: 1704067200,
        value: FixedDecimal::from_int(50),
        geo_zone: GeoZone::Peninsula,
        meta_tags: None,
    };

    assert!(!price.is_expensive());
}

#[test]
fn save_twice_keeps_row_count() {
    let mut repo = MemoryPriceRepository::new();
    let batch = vec![record(100, 10), record(200, 20)];
    repo.save_prices(&batch).unwrap();
    let n1 = repo.get_last_prices(100).unwrap().len();
    repo.save_prices(&batch).unwrap();
    let n2 = repo.get_last_prices(100).unwrap().len();
    assert_eq!(n1, 2);
    assert_eq!(n1, n2);
}

#[test]
fn overlapping_batch_persists_only_new_records() {
    let mut repo = MemoryPriceRepository::new();
    repo.save_prices(&vec![record(100, 10), record(200, 20)]).unwrap();
    repo.save_prices(&vec![record(200, 99), record(300, 30)]).unwrap();
    let rows = repo.get_last_prices(100).unwrap();
    assert_eq!(rows.len(), 3);
    // The conflicting key kept its first value.
    let kept = rows.iter().find(|r| r.datetime == 200).unwrap();
    assert_eq!(kept.value, FixedDecimal::from_int(20));
}

#[test]
fn same_timestamp_other_zone_is_a_new_row() {
    let mut repo = MemoryPriceRepository::new();
    let mut canarias = record(100, 10);
    canarias.geo_zone = GeoZone::Canarias;
    repo.save_prices(&vec![record(100, 10), canarias]).unwrap();
    assert_eq!(repo.get_last_prices(100).unwrap().len(), 2);
}

#[test]
fn zone_codec_round_trips_every_zone() {
    let zones = [
        GeoZone::Peninsula,
        GeoZone::Canarias,
        GeoZone::Baleares,
        GeoZone::Ceuta,
        GeoZone::Melilla,
    ];
    for z in zones {
        assert_eq!(zone_of_str(zone_as_str(&z)), z);
    }
}

#[test]
fn zone_unknown_string_falls_back_to_peninsula() {
    assert_eq!(zone_of_str("Atlantis"), GeoZone::Peninsula);
}

#[test]
fn stats_of_empty_day_is_zero_count_all_absent() {
    let mut repo = MemoryPriceRepository::new();
    // Records on day 0 only; day 5 stays empty.
    repo.save_prices(&vec![record(100, 10)]).unwrap();
    let stats = repo.get_stats_by_date(CalendarDate { days_from_epoch: 5 }).unwrap();
    assert_eq!(stats.count, 0);
    assert!(stats.max.is_none());
    assert!(stats.min.is_none());
    assert!(stats.avg.is_none());
}

#[test]
fn stats_of_a_day_with_three_records() {
    let mut repo = MemoryPriceRepository::new();
    let day: i64 = 19723; // 2024-01-01 in days from the epoch
    let base = day * 86400;
    repo.save_prices(
        &vec![record(base, 100), record(base + 3600, 200), record(base + 7200, 300)],
    )
        .unwrap();
    // A record of another day must not enter the aggregate.
    repo.save_prices(&vec![record(base - 1, 999)]).unwrap();
    let stats = repo.get_stats_by_date(CalendarDate { days_from_epoch: day }).unwrap();
    assert_eq!(stats.count, 3);
    assert_eq!(stats.max, Some(FixedDecimal::from_int(300)));
    assert_eq!(stats.min, Some(FixedDecimal::from_int(100)));
    assert_eq!(stats.avg, Some(FixedDecimal::from_int(200)));
}

#[test]
fn stats_average_of_negative_prices() {
    let mut repo = MemoryPriceRepository::new();
    repo.save_prices(&vec![record(0, -10), record(1, -20)]).unwrap();
    let stats = repo.get_stats_by_date(CalendarDate { days_from_epoch: 0 }).unwrap();
    assert_eq!(stats.count, 2);
    assert_eq!(stats.avg, Some(FixedDecimal::from_int(-15)));
    assert_eq!(stats.max, Some(FixedDecimal::from_int(-10)));
    assert_eq!(stats.min, Some(FixedDecimal::from_int(-20)));
}

#[test]
fn last_prices_sorted_descending_and_limited() {
    let mut repo = MemoryPriceRepository::new();
    repo.save_prices(&vec![record(100, 1), record(300, 3), record(200, 2)]).unwrap();
    let top2 = repo.get_last_prices(2).unwrap();
    assert_eq!(top2.len(), 2);
    assert_eq!(top2[0].datetime, 300);
    assert_eq!(top2[1].datetime, 200);
    let all = repo.get_last_prices(10).unwrap();
    assert_eq!(all.len(), 3);
    assert_eq!(all[0].datetime, 300);
    assert_eq!(all[1].datetime, 200);
    assert_eq!(all[2].datetime, 100);
}

#[test]
fn day_of_timestamp_handles_boundaries() {
    assert_eq!(day_of_timestamp(0), 0);
    assert_eq!(day_of_timestamp(86399), 0);
    assert_eq!(day_of_timestamp(86400), 1);
    assert_eq!(day_of_timestamp(-1), -1);
    assert_eq!(day_of_timestamp(-86400), -1);
    assert_eq!(day_of_timestamp(-86401), -2);
}
