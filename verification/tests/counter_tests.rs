use cubox::counter::UsageData;
use cubox::date::Date;

#[test]
fn rollover_resets_the_daily_count() {
    let data = UsageData {
        last_date: Some(Date::new(2024, 5, 1)),
        count_today: 3,
        count_total: 7,
    };
    let today = Date::new(2024, 5, 2);
    let r = data.record_success(today);
    assert_eq!(r.count_today, 1);
    assert_eq!(r.count_total, 8);
    assert_eq!(r.last_date, Some(today));
}

#[test]
fn same_day_accumulates() {
    let today = Date::new(2024, 5, 2);
    let data = UsageData {
        last_date: Some(today),
        count_today: 3,
        count_total: 10,
    };
    let r = data.record_success(today);
    assert_eq!(r.count_today, 4);
    assert_eq!(r.count_total, 11);
    assert_eq!(r.last_date, Some(today));
}

#[test]
fn first_ever_success_counts_from_zero() {
    let today = Date::new(2024, 1, 31);
    let r = UsageData::initial().record_success(today);
    assert_eq!(r.count_today, 1);
    assert_eq!(r.count_total, 1);
    assert_eq!(r.last_date, Some(today));
}

#[test]
fn display_zeroes_a_stale_daily_count_without_changing_the_record() {
    let data = UsageData {
        last_date: Some(Date::new(2023, 12, 31)),
        count_today: 5,
        count_total: 9,
    };
    let (today_count, total) = data.read_for_display(&Date::new(2024, 1, 1));
    assert_eq!(today_count, 0);
    assert_eq!(total, 9);
    assert_eq!(data.count_today, 5);
}

#[test]
fn display_keeps_a_same_day_count() {
    let today = Date::new(2024, 5, 2);
    let data = UsageData {
        last_date: Some(today),
        count_today: 5,
        count_total: 9,
    };
    assert_eq!(data.read_for_display(&today), (5, 9));
}

#[test]
fn display_with_no_recorded_day_shows_the_counts_as_stored() {
    let data = UsageData {
        last_date: None,
        count_today: 0,
        count_total: 0,
    };
    assert_eq!(data.read_for_display(&Date::new(2024, 5, 2)), (0, 0));
}

#[test]
fn date_order_is_by_year_then_month_then_day() {
    assert!(Date::new(2023, 12, 31).is_before(&Date::new(2024, 1, 1)));
    assert!(Date::new(2024, 4, 30).is_before(&Date::new(2024, 5, 1)));
    assert!(Date::new(2024, 5, 1).is_before(&Date::new(2024, 5, 2)));
    assert!(!Date::new(2024, 5, 2).is_before(&Date::new(2024, 5, 2)));
    assert!(!Date::new(2024, 5, 2).is_before(&Date::new(2024, 5, 1)));
}

#[test]
fn display_does_not_reset_for_a_stored_day_in_the_future() {
    let data = UsageData {
        last_date: Some(Date::new(2024, 5, 3)),
        count_today: 2,
        count_total: 6,
    };
    assert_eq!(data.read_for_display(&Date::new(2024, 5, 2)), (2, 6));
}
