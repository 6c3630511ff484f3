use energy_monitor::domain::decimal::FixedDecimal;
use energy_monitor::domain::decimal::parse_fixed_decimal;
use energy_monitor::domain::models::GeoZone;
use energy_monitor::domain::repository::PriceRepository;
use energy_monitor::infrastructure::memory_repo::MemoryPriceRepository;
use energy_monitor::infrastructure::ree_client::RawPricePoint;
use energy_monitor::infrastructure::ree_client::RawPriceSeries;
use energy_monitor::infrastructure::ree_client::spot_prices_from_response;
use energy_monitor::infrastructure::scheduler::CycleOutcome;
use energy_monitor::infrastructure::scheduler::SchedulerState;
use energy_monitor::infrastructure::scheduler::run_cycle;
use energy_monitor::utils::error::AppError;
use energy_monitor::utils::error::ErrorResponse;

fn point(value: &str, datetime: &str) -> RawPricePoint {
    RawPricePoint { value: value.to_string(), datetime: datetime.to_string() }
}

#[test]
fn parser_exact_values() {
    assert_eq!(parse_fixed_decimal("12.34"), Some(FixedDecimal { mantissa: 12340000 }));
    assert_eq!(parse_fixed_decimal("-0.5"), Some(FixedDecimal { mantissa: -500000 }));
    assert_eq!(parse_fixed_decimal("0"), Some(FixedDecimal { mantissa: 0 }));
    assert_eq!(parse_fixed_decimal("150"), Some(FixedDecimal::from_int(150)));
    // Fraction digits beyond the scale are truncated.
    assert_eq!(
        parse_fixed_decimal("0.30000000000000004"),
        Some(FixedDecimal { mantissa: 300000 })
    );
    assert_eq!(
        parse_fixed_decimal("9223372036854.775807"),
        Some(FixedDecimal { mantissa: i64::MAX })
    );
}

#[test]
fn parser_rejects_malformed_and_out_of_range() {
    assert_eq!(parse_fixed_decimal(""), None);
    assert_eq!(parse_fixed_decimal("-"), None);
    assert_eq!(parse_fixed_decimal("."), None);
    assert_eq!(parse_fixed_decimal("12."), None);
    assert_eq!(parse_fixed_decimal(".5"), None);
    assert_eq!(parse_fixed_decimal("1e3"), None);
    assert_eq!(parse_fixed_decimal("12.3.4"), None);
    assert_eq!(parse_fixed_decimal("abc"), None);
    assert_eq!(parse_fixed_decimal("9223372036854.775808"), None);
    assert_eq!(parse_fixed_decimal("9999999999999999"), None);
}

#[test]
fn response_is_flattened_across_groups_with_real_timestamps() {
    let included = vec![
        RawPriceSeries {
            values: vec![
                point("50.5", "2024-01-01T00:00:00+00:00"),
                point("75", "2024-01-01T01:00:00+00:00"),
            ],
        },
        RawPriceSeries { values: vec![point("100.25", "2024-01-01T02:00:00+01:00")] },
    ];
    let records = spot_prices_from_response(included).unwrap();
    assert_eq!(records.len(), 3);
    assert_eq!(records[0].datetime, 1704067200);
    assert_eq!(records[0].value, FixedDecimal { mantissa: 50500000 });
    assert_eq!(records[1].datetime, 1704070800);
    assert_eq!(records[1].value, FixedDecimal::from_int(75));
    // An offset timestamp lands on the same instant scale.
    assert_eq!(records[2].datetime, 1704070800);
    assert_eq!(records[2].value, FixedDecimal { mantissa: 100250000 });
    for r in &records {
        assert_eq!(r.geo_zone, GeoZone::Peninsula);
        assert!(r.meta_tags.is_none());
    }
}

#[test]
fn malformed_value_does_not_drop_the_rest_of_the_batch() {
    let included = vec![RawPriceSeries {
        values: vec![
            point("50", "2024-01-01T00:00:00+00:00"),
            point("not-a-number", "2024-01-01T01:00:00+00:00"),
            point("75", "2024-01-01T02:00:00+00:00"),
        ],
    }];
    let records = spot_prices_from_response(included).unwrap();
    assert_eq!(records.len(), 3);
    assert_eq!(records[0].value, FixedDecimal::from_int(50));
    assert_eq!(records[1].value, FixedDecimal { mantissa: 0 });
    assert_eq!(records[2].value, FixedDecimal::from_int(75));
}

#[test]
fn malformed_datetime_fails_the_response_as_parse_error() {
    let included = vec![RawPriceSeries {
        values: vec![point("50", "not-a-date")],
    }];
    match spot_prices_from_response(included) {
        Err(AppError::ParseError(_)) => {},
        other => panic!("expected a parse error, got {:?}", other),
    }
}

#[test]
fn fetch_failure_in_one_cycle_does_not_block_the_next() {
    let mut repo = MemoryPriceRepository::new();
    let mut state = SchedulerState::Idle;

    state.begin_cycle();
    let outcome = run_cycle(
        &mut repo,
        Err(AppError::NetworkError("connection refused".to_string())),
    );
    state.finish_cycle();
    assert_eq!(outcome, CycleOutcome::FetchFailed);
    assert_eq!(repo.get_last_prices(100).unwrap().len(), 0);

    state.begin_cycle();
    let batch = spot_prices_from_response(vec![RawPriceSeries {
        values: vec![point("60", "2024-01-01T00:00:00+00:00")],
    }])
    .unwrap();
    let outcome = run_cycle(&mut repo, Ok(batch));
    state.finish_cycle();
    assert_eq!(outcome, CycleOutcome::Saved);
    let rows = repo.get_last_prices(100).unwrap();
    assert_eq!(rows.len(), 1);
    assert_eq!(rows[0].value, FixedDecimal::from_int(60));
    assert_eq!(state, SchedulerState::Idle);
}

#[test]
fn error_messages_carry_their_text() {
    assert_eq!(AppError::NetworkError("down".to_string()).message(), "down");
    assert_eq!(AppError::ParseError("bad".to_string()).message(), "bad");
    assert_eq!(AppError::DatabaseError("lost".to_string()).message(), "lost");
    let resp = ErrorResponse::new("boom".to_string());
    assert_eq!(resp.error_text(), "boom");
}
