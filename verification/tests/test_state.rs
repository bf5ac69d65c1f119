use dvc_data::state::{
    is_empty, plan_get_many, plan_set_many, prepare_insert, prepare_select, StateHash, StateValue,
    ANY_ROW, BATCH_SIZE, CREATE_INDEX, CREATE_TABLE, JOURNAL_MODE, MODE_TEXT, RAW, SELECT_ONE,
    SYNCHRONOUS, UPSERT_ONE,
};

const ROW: &str = "(?, 1, ?, NULL, ?, NULL, 1, NULL, ?)";
const HEAD: &str = "INSERT OR REPLACE INTO Cache(\n    key, raw, store_time, expire_time, access_time, tag, mode, filename, value)\n    VALUES ";
const TAIL: &str = " ON CONFLICT(key, raw) DO UPDATE SET value = excluded.value";

#[test]
fn state_value_json_has_the_stored_field_names() {
    let v = StateValue {
        checksum: "127829919842468153309797267312027116502".to_string(),
        size: 5,
        hash_info: StateHash {
            oid: "e5a81dd70644b5534aae9f7c32055ec3".to_string(),
        },
    };
    assert_eq!(
        v.to_json(),
        r#"{"checksum":"127829919842468153309797267312027116502","size":5,"hash_info":{"md5":"e5a81dd70644b5534aae9f7c32055ec3"}}"#
    );
}

#[test]
fn state_value_json_escapes_and_takes_the_largest_size() {
    let v = StateValue {
        checksum: "a\"b".to_string(),
        size: u64::MAX,
        hash_info: StateHash {
            oid: "c\\d".to_string(),
        },
    };
    assert_eq!(
        v.to_json(),
        "{\"checksum\":\"a\\\"b\",\"size\":18446744073709551615,\"hash_info\":{\"md5\":\"c\\\\d\"}}"
    );
}

#[test]
fn insert_statement_repeats_the_row() {
    assert_eq!(prepare_insert(1), format!("{HEAD}{ROW}{TAIL}"));
    assert_eq!(prepare_insert(3), format!("{HEAD}{ROW}, {ROW}, {ROW}{TAIL}"));
    assert_eq!(prepare_insert(0), format!("{HEAD}{TAIL}"));
}

#[test]
fn select_statement_has_one_parameter_for_each_key() {
    assert_eq!(
        prepare_select(1),
        "SELECT key, value from Cache WHERE key in (?) and raw = 1"
    );
    assert_eq!(
        prepare_select(3),
        "SELECT key, value from Cache WHERE key in (?, ?, ?) and raw = 1"
    );
}

#[test]
fn lookups_are_cut_into_batches() {
    let batches = plan_get_many(5, Some(2));
    let ranges: Vec<(usize, usize)> = batches.iter().map(|b| (b.start, b.end)).collect();
    assert_eq!(ranges, vec![(0, 2), (2, 4), (4, 5)]);
    assert_eq!(batches[0].query, prepare_select(2));
    assert_eq!(batches[2].query, prepare_select(1));
}

#[test]
fn default_batch_holds_7999_keys() {
    assert_eq!(BATCH_SIZE, 7999);
    let batches = plan_get_many(16000, None);
    let ranges: Vec<(usize, usize)> = batches.iter().map(|b| (b.start, b.end)).collect();
    assert_eq!(ranges, vec![(0, 7999), (7999, 15998), (15998, 16000)]);
    assert_eq!(batches[1].query.matches('?').count(), 7999);
    assert_eq!(plan_get_many(7999, None).len(), 1);
    assert_eq!(plan_get_many(8000, None).len(), 2);
}

#[test]
fn nothing_to_look_up_is_no_batch() {
    assert!(plan_get_many(0, None).is_empty());
    assert!(plan_get_many(0, Some(1)).is_empty());
    assert!(plan_set_many(0).is_empty());
}

#[test]
fn writes_are_cut_into_batches_of_7999_rows() {
    let batches = plan_set_many(8000);
    let ranges: Vec<(usize, usize)> = batches.iter().map(|b| (b.start, b.end)).collect();
    assert_eq!(ranges, vec![(0, 7999), (7999, 8000)]);
    assert_eq!(batches[1].query, prepare_insert(1));
    assert_eq!(batches[0].query.matches(ROW).count(), 7999);
}

#[test]
fn empty_probe_is_read() {
    assert!(is_empty(None));
    assert!(is_empty(Some(0)));
    assert!(!is_empty(Some(1)));
}

#[test]
fn fixed_statements_name_the_table() {
    assert!(CREATE_TABLE.starts_with("CREATE TABLE IF NOT EXISTS Cache ("));
    assert!(CREATE_TABLE.contains("access_count INTEGER DEFAULT 0"));
    assert_eq!(
        CREATE_INDEX,
        "CREATE UNIQUE INDEX IF NOT EXISTS Cache_key_raw ON Cache(key, raw)"
    );
    assert_eq!(SELECT_ONE, "SELECT value FROM Cache WHERE key = :key and raw = 1");
    assert!(UPSERT_ONE.ends_with("ON CONFLICT(key, raw) DO UPDATE SET value = excluded.value"));
    assert_eq!(ANY_ROW, "SELECT EXISTS (SELECT 1 FROM Cache)");
    assert_eq!((RAW, MODE_TEXT), (1, 1));
    assert_eq!((SYNCHRONOUS, JOURNAL_MODE), ("NORMAL", "WAL"));
}

fn value(checksum: &str, size: u64, oid: &str) -> StateValue {
    StateValue {
        checksum: checksum.to_string(),
        size,
        hash_info: StateHash {
            oid: oid.to_string(),
        },
    }
}

#[test]
fn stored_value_is_read() {
    assert_eq!(
        StateValue::from_json(
            r#"{"checksum":"127829919842468153309797267312027116502","size":5,"hash_info":{"md5":"e5a81dd70644b5534aae9f7c32055ec3"}}"#
        ),
        Some(value(
            "127829919842468153309797267312027116502",
            5,
            "e5a81dd70644b5534aae9f7c32055ec3"
        ))
    );
}

#[test]
fn value_with_spaces_and_other_order_is_read() {
    assert_eq!(
        StateValue::from_json(
            " {\"hash_info\": { \"md5\" : \"ab\" }, \"size\": 0 ,\n\"checksum\": \"1\"}\n"
        ),
        Some(value("1", 0, "ab"))
    );
}

#[test]
fn written_value_is_read_back() {
    for v in [
        value("1", 0, ""),
        value("", 9, "deadbeef"),
        value("a\"b\\c\n\u{1}é", u64::MAX, "\u{1f600}"),
        value("340282366920938463463374607431768211455", 10, "e5a81dd70644b5534aae9f7c32055ec3"),
    ] {
        assert_eq!(StateValue::from_json(&v.to_json()), Some(v));
    }
}

#[test]
fn size_is_a_plain_number_of_64_bits() {
    let with_size = |size: &str| {
        StateValue::from_json(&format!(
            "{{\"checksum\":\"1\",\"size\":{size},\"hash_info\":{{\"md5\":\"a\"}}}}"
        ))
    };
    assert_eq!(with_size("18446744073709551615"), Some(value("1", u64::MAX, "a")));
    assert_eq!(with_size("18446744073709551616"), None);
    assert_eq!(with_size("99999999999999999999999999999999999999999"), None);
    assert_eq!(with_size("0"), Some(value("1", 0, "a")));
    assert_eq!(with_size("00"), None);
    assert_eq!(with_size("05"), None);
    assert_eq!(with_size("-1"), None);
    assert_eq!(with_size("1.0"), None);
    assert_eq!(with_size("1e2"), None);
    assert_eq!(with_size("\"5\""), None);
    assert_eq!(with_size(""), None);
}

#[test]
fn malformed_values_are_not_read() {
    for text in [
        "",
        "{}",
        "[]",
        r#"{"checksum":"1","size":5}"#,
        r#"{"checksum":"1","size":5,"hash_info":{}}"#,
        r#"{"checksum":"1","size":5,"hash_info":{"sha256":"a"}}"#,
        r#"{"checksum":"1","size":5,"hash_info":"a"}"#,
        r#"{"checksum":1,"size":5,"hash_info":{"md5":"a"}}"#,
        r#"{"checksum":"1","checksum":"1","hash_info":{"md5":"a"}}"#,
        r#"{"checksum":"1","size":5,"hash_info":{"md5":"a"},}"#,
        r#"{"checksum":"1","size":5,"hash_info":{"md5":"a"}} x"#,
        r#"{"checksum":"1","size":5,"hash_info":{"md5":"a"}"#,
    ] {
        assert_eq!(StateValue::from_json(text), None, "{text:?} was read");
    }
}
