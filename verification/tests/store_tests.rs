use cubox::counter::UsageData;
use cubox::date::Date;
use cubox::store::{
    encode_config, encode_data, load_or_init_config, load_or_init_data, parse_config, parse_data,
    StoreError, UserConfig,
};

#[test]
fn config_without_key_encodes_as_null() {
    let cfg = UserConfig { api_key: None };
    assert_eq!(encode_config(&cfg), "{\n  \"api_key\": null\n}");
}

#[test]
fn config_with_key_encodes_as_a_quoted_string() {
    let cfg = UserConfig::with_api_key("SECRET-REDACTED".to_string());
    assert_eq!(
        encode_config(&cfg),
        "{\n  \"api_key\": \"SECRET-REDACTED\"\n}"
    );
}

#[test]
fn config_round_trips_through_its_text() {
    for key in [None, Some("k1".to_string()), Some(String::new())] {
        let cfg = UserConfig {
            api_key: key.clone(),
        };
        let parsed = parse_config(&encode_config(&cfg)).expect("written text must parse");
        assert_eq!(parsed.api_key, key);
    }
}

#[test]
fn config_key_with_quotes_and_backslashes_round_trips() {
    let key = "a\"b\\c\"\"".to_string();
    let cfg = UserConfig::with_api_key(key.clone());
    let text = encode_config(&cfg);
    assert_eq!(text, "{\n  \"api_key\": \"a\\\"b\\\\c\\\"\\\"\"\n}");
    assert_eq!(parse_config(&text).unwrap().api_key, Some(key));
}

#[test]
fn data_encodes_dates_and_counts_exactly() {
    let data = UsageData {
        last_date: Some(Date::new(2024, 5, 1)),
        count_today: 3,
        count_total: 40,
    };
    assert_eq!(
        encode_data(&data),
        "{\n  \"last_date\": \"2024-05-01\",\n  \"count_today\": 3,\n  \"count_total\": 40\n}"
    );
}

#[test]
fn fresh_data_encodes_with_a_null_date() {
    let data = UsageData {
        last_date: None,
        count_today: 0,
        count_total: 0,
    };
    assert_eq!(
        encode_data(&data),
        "{\n  \"last_date\": null,\n  \"count_today\": 0,\n  \"count_total\": 0\n}"
    );
}

#[test]
fn data_round_trips_through_its_text() {
    let cases = [
        UsageData {
            last_date: None,
            count_today: 0,
            count_total: 0,
        },
        UsageData {
            last_date: Some(Date::new(2024, 12, 31)),
            count_today: 1,
            count_total: 1,
        },
        UsageData {
            last_date: Some(Date::new(999, 1, 9)),
            count_today: 4294967295,
            count_total: 4294967295,
        },
    ];
    for data in cases {
        assert_eq!(parse_data(&encode_data(&data)), Some(data));
    }
}

#[test]
fn malformed_data_is_refused() {
    for text in [
        "",
        "{}",
        "{\n  \"last_date\": null,\n  \"count_today\": 0,\n  \"count_total\": 0\n}x",
        "{\n  \"last_date\": null,\n  \"count_today\": 00,\n  \"count_total\": 0\n}",
        "{\n  \"last_date\": null,\n  \"count_today\": 4294967296,\n  \"count_total\": 0\n}",
        "{\n  \"last_date\": null,\n  \"count_today\": -1,\n  \"count_total\": 0\n}",
        "{\n  \"last_date\": \"2024-13-01\",\n  \"count_today\": 0,\n  \"count_total\": 0\n}",
        "{\n  \"last_date\": \"2024-05-00\",\n  \"count_today\": 0,\n  \"count_total\": 0\n}",
        "{\n  \"last_date\": \"2024-5-01\",\n  \"count_today\": 0,\n  \"count_total\": 0\n}",
    ] {
        assert_eq!(parse_data(text), None, "accepted: {:?}", text);
        assert_eq!(load_or_init_data(Some(text)), Err(StoreError::Malformed));
    }
}

#[test]
fn first_use_bootstraps_the_config_file() {
    let (cfg, write_back) = load_or_init_config(None).unwrap();
    assert_eq!(cfg.api_key, None);
    let text = write_back.expect("a missing file must be created");
    assert_eq!(text, "{\n  \"api_key\": null\n}");
    let (again, write_again) = load_or_init_config(Some(&text)).unwrap();
    assert_eq!(again, cfg);
    assert_eq!(write_again, None);
}

#[test]
fn first_use_bootstraps_the_data_file_and_it_reads_back() {
    let (data, write_back) = load_or_init_data(None).unwrap();
    assert_eq!(data.last_date, None);
    assert_eq!(data.count_today, 0);
    assert_eq!(data.count_total, 0);
    let text = write_back.expect("a missing file must be created");
    let (again, write_again) = load_or_init_data(Some(&text)).unwrap();
    assert_eq!(again, data);
    assert_eq!(write_again, None);
}

#[test]
fn saved_counters_load_back_after_a_success() {
    let (data, _) = load_or_init_data(None).unwrap();
    let updated = data.record_success(Date::new(2024, 5, 2));
    let text = encode_data(&updated);
    let (loaded, none) = load_or_init_data(Some(&text)).unwrap();
    assert_eq!(loaded, updated);
    assert_eq!(none, None);
}

#[test]
fn get_api_key_returns_the_stored_key() {
    assert_eq!(UserConfig { api_key: None }.get_api_key(), None);
    assert_eq!(
        UserConfig::with_api_key("k".to_string()).get_api_key(),
        Some("k".to_string())
    );
}

#[test]
fn store_errors_carry_their_messages() {
    assert_eq!(
        StoreError::NoBaseDir.message(),
        "Fail to resolve user directory."
    );
    assert_eq!(StoreError::Unreadable.message(), "Fail to read data file.");
    assert_eq!(StoreError::Malformed.message(), "Fail to parse data file.");
    assert_eq!(
        StoreError::WriteFailed.message(),
        "Fail to write data file."
    );
}

#[test]
fn config_text_matches_the_standard_pretty_json_form() {
    let mut fields = serde_json::Map::new();
    fields.insert(
        "api_key".to_string(),
        serde_json::Value::String("k1".to_string()),
    );
    let expected = serde_json::to_string_pretty(&serde_json::Value::Object(fields)).unwrap();
    let cfg = UserConfig::with_api_key("k1".to_string());
    assert_eq!(encode_config(&cfg), expected);
}
