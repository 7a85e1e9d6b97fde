use otap_logs_export::store::{
    find_or_append, AnyValue, AttributeError, AttributeRow, AttributeStore, AttributeValueType,
    KeyValue, SerializedValue, Value,
};

/// A row whose value columns are all at their defaults.
fn row<T>(parent_id: T, key: &str, value_type: u8) -> AttributeRow<T> {
    AttributeRow {
        parent_id,
        key: key.to_string(),
        value_type,
        str_value: String::new(),
        int_value: 0,
        double_bits: 0,
        bool_value: false,
        bytes_value: Vec::new(),
        serialized_value: SerializedValue::Null,
    }
}

fn int_row<T>(parent_id: T, key: &str, v: i64) -> AttributeRow<T> {
    AttributeRow { int_value: v, ..row(parent_id, key, 2) }
}

fn str_row<T>(parent_id: T, key: &str, v: &str) -> AttributeRow<T> {
    AttributeRow { str_value: v.to_string(), ..row(parent_id, key, 1) }
}

fn bool_row<T>(parent_id: T, key: &str, v: bool) -> AttributeRow<T> {
    AttributeRow { bool_value: v, ..row(parent_id, key, 4) }
}

fn double_row<T>(parent_id: T, key: &str, v: f64) -> AttributeRow<T> {
    AttributeRow { double_bits: v.to_bits(), ..row(parent_id, key, 3) }
}

fn kv(key: &str, value: Value) -> KeyValue {
    KeyValue {
        key: key.to_string(),
        value: Some(AnyValue { value: Some(value) }),
    }
}

#[test]
fn test_value_type_codes() {
    assert_eq!(AttributeValueType::from_code(0), Some(AttributeValueType::Empty));
    assert_eq!(AttributeValueType::from_code(1), Some(AttributeValueType::Str));
    assert_eq!(AttributeValueType::from_code(2), Some(AttributeValueType::Int));
    assert_eq!(AttributeValueType::from_code(3), Some(AttributeValueType::Double));
    assert_eq!(AttributeValueType::from_code(4), Some(AttributeValueType::Bool));
    assert_eq!(AttributeValueType::from_code(5), Some(AttributeValueType::Kvlist));
    assert_eq!(AttributeValueType::from_code(6), Some(AttributeValueType::Slice));
    assert_eq!(AttributeValueType::from_code(7), Some(AttributeValueType::Bytes));
    assert_eq!(AttributeValueType::from_code(8), None);
    assert_eq!(AttributeValueType::from_code(255), None);
}

#[test]
fn test_default_store_is_empty() {
    let store: AttributeStore<u32> = AttributeStore::default();
    assert!(store.attribute_by_id(0).is_none());
    assert!(store.attribute_by_id(1).is_none());
}

#[test]
fn test_try_from_rows_groups_by_parent() {
    let rows = vec![int_row(1u32, "a", 1), str_row(2u32, "a", "x"), bool_row(1u32, "b", true)];
    let store = AttributeStore::try_from_rows(rows, true).unwrap();
    assert_eq!(
        store.attribute_by_id(1).unwrap(),
        &[kv("a", Value::IntValue(1)), kv("b", Value::BoolValue(true))][..]
    );
    assert_eq!(
        store.attribute_by_id(2).unwrap(),
        &[kv("a", Value::StringValue("x".to_string()))][..]
    );
    assert!(store.attribute_by_id(3).is_none());
}

#[test]
fn test_try_from_rows_later_value_replaces_earlier_for_same_key() {
    let rows = vec![int_row(5u16, "k", 1), double_row(5u16, "other", 2.5), int_row(5u16, "k", 2)];
    let store = AttributeStore::try_from_rows(rows, true).unwrap();
    assert_eq!(
        store.attribute_by_id(5).unwrap(),
        &[
            kv("k", Value::IntValue(2)),
            kv("other", Value::DoubleValue(2.5f64.to_bits()))
        ][..]
    );
}

#[test]
fn test_attribute_by_delta_id_accumulates() {
    let rows = vec![int_row(3u32, "a", 3), int_row(5u32, "b", 5)];
    let mut store = AttributeStore::try_from_rows(rows, true).unwrap();
    // 0 + 3 = 3
    assert_eq!(
        store.attribute_by_delta_id(3).unwrap(),
        &[kv("a", Value::IntValue(3))][..]
    );
    // 3 + 1 = 4: nothing there
    assert!(store.attribute_by_delta_id(1).is_none());
    // 4 + 1 = 5
    assert_eq!(
        store.attribute_by_delta_id(1).unwrap(),
        &[kv("b", Value::IntValue(5))][..]
    );
    // 5 + 0 = 5 again
    assert!(store.attribute_by_delta_id(0).is_some());
}

#[test]
fn test_find_or_append_existing_key() {
    let mut attrs = vec![kv("a", Value::IntValue(1)), kv("b", Value::IntValue(2))];
    let slot = find_or_append(&mut attrs, &"b".to_string());
    assert_eq!(slot, &mut Some(AnyValue { value: Some(Value::IntValue(2)) }));
    *slot = Some(AnyValue { value: Some(Value::IntValue(20)) });
    assert_eq!(attrs, vec![kv("a", Value::IntValue(1)), kv("b", Value::IntValue(20))]);
}

#[test]
fn test_find_or_append_new_key() {
    let mut attrs = vec![kv("a", Value::IntValue(1))];
    let slot = find_or_append(&mut attrs, &"c".to_string());
    assert_eq!(slot, &mut None);
    *slot = Some(AnyValue { value: Some(Value::BytesValue(vec![1, 2])) });
    assert_eq!(
        attrs,
        vec![kv("a", Value::IntValue(1)), kv("c", Value::BytesValue(vec![1, 2]))]
    );
}

#[test]
fn test_find_or_append_first_of_duplicates() {
    let mut attrs = vec![kv("a", Value::IntValue(1)), kv("a", Value::IntValue(2))];
    let slot = find_or_append(&mut attrs, &"a".to_string());
    *slot = None;
    assert_eq!(
        attrs,
        vec![
            KeyValue { key: "a".to_string(), value: None },
            kv("a", Value::IntValue(2))
        ]
    );
}

#[test]
fn test_try_from_rows_skips_empty_and_undecoded_rows() {
    let map_value = Value::KvlistValue(otap_logs_export::store::KeyValueList {
        values: vec![kv("inner", Value::IntValue(1))],
    });
    let rows = vec![
        row(1u32, "empty", 0),
        row(1u32, "map_without_value", 5),
        AttributeRow { serialized_value: SerializedValue::Decoded(Some(map_value)), ..row(1u32, "map", 5) },
        AttributeRow { serialized_value: SerializedValue::Decoded(None), ..row(1u32, "map_decoded_to_nothing", 5) },
        AttributeRow { bytes_value: vec![9, 8], ..row(1u32, "bytes", 7) },
        row(2u32, "slice_without_value", 6),
    ];
    let store = AttributeStore::try_from_rows(rows, true).unwrap();
    let expected_map = Value::KvlistValue(otap_logs_export::store::KeyValueList {
        values: vec![kv("inner", Value::IntValue(1))],
    });
    assert_eq!(
        store.attribute_by_id(1).unwrap(),
        &[kv("map", expected_map), kv("bytes", Value::BytesValue(vec![9, 8]))][..]
    );
    assert!(store.attribute_by_id(2).is_none());
}

#[test]
fn test_try_from_rows_unrecognized_type_fails() {
    let rows = vec![int_row(1u32, "a", 1), row(1u32, "bad", 9), row(1u32, "worse", 200)];
    match AttributeStore::try_from_rows(rows, true) {
        Err(e) => assert_eq!(e, AttributeError::UnrecognizedAttributeValueType { value_type: 9 }),
        Ok(_) => panic!("expected an error"),
    }
}

#[test]
fn test_try_from_rows_default_columns() {
    // A string row whose string column is null reads as the empty string.
    let rows = vec![row(4u16, "s", 1), row(4u16, "i", 2), row(4u16, "b", 4)];
    let store = AttributeStore::try_from_rows(rows, true).unwrap();
    assert_eq!(
        store.attribute_by_id(4).unwrap(),
        &[
            kv("s", Value::StringValue(String::new())),
            kv("i", Value::IntValue(0)),
            kv("b", Value::BoolValue(false))
        ][..]
    );
}

#[test]
fn test_try_from_rows_invalid_serialized_value_fails() {
    let rows = vec![
        int_row(1u32, "a", 1),
        AttributeRow { serialized_value: SerializedValue::Invalid, ..row(1u32, "m", 6) },
        row(1u32, "bad", 9),
    ];
    match AttributeStore::try_from_rows(rows, true) {
        Err(e) => assert_eq!(e, AttributeError::InvalidSerializedValue),
        Ok(_) => panic!("expected an error"),
    }
}

#[test]
fn test_try_from_rows_missing_parent_ids_fails_on_first_value() {
    // Skipped rows need no parent id; the first row with a value does.
    let skipped_only = vec![row(1u32, "empty", 0), row(1u32, "map", 5)];
    assert!(AttributeStore::try_from_rows(skipped_only, false).is_ok());

    let rows = vec![row(1u32, "empty", 0), int_row(1u32, "a", 1)];
    match AttributeStore::try_from_rows(rows, false) {
        Err(e) => assert_eq!(e, AttributeError::ParentIdColumnNotFound),
        Ok(_) => panic!("expected an error"),
    }
}

#[test]
fn test_try_from_rows_skipped_rows_do_not_matter() {
    let with_skipped = vec![
        row(1u32, "empty", 0),
        int_row(1u32, "a", 1),
        row(2u32, "map", 5),
        str_row(2u32, "b", "x"),
    ];
    let without = vec![int_row(1u32, "a", 1), str_row(2u32, "b", "x")];
    let s1 = AttributeStore::try_from_rows(with_skipped, true).unwrap();
    let s2 = AttributeStore::try_from_rows(without, true).unwrap();
    for id in 0..4u32 {
        assert_eq!(s1.attribute_by_id(id), s2.attribute_by_id(id));
    }
}

#[test]
fn test_try_from_rows_skipped_rows_do_not_change_the_error() {
    let with_skipped = vec![
        row(1u32, "empty", 0),
        AttributeRow { serialized_value: SerializedValue::Decoded(None), ..row(1u32, "slice", 6) },
        int_row(1u32, "a", 1),
        row(2u32, "bad", 9),
    ];
    let without = vec![int_row(1u32, "a", 1), row(2u32, "bad", 9)];
    let e1 = AttributeStore::try_from_rows(with_skipped, true).err();
    let e2 = AttributeStore::try_from_rows(without, true).err();
    assert_eq!(e1, Some(AttributeError::UnrecognizedAttributeValueType { value_type: 9 }));
    assert_eq!(e1, e2);

    // Without a parent id column, skipped rows raise nothing; the first
    // value row fails.
    let skipped_first = vec![row(1u32, "empty", 0), row(1u32, "map", 5), int_row(1u32, "a", 1)];
    let e3 = AttributeStore::try_from_rows(skipped_first, false).err();
    assert_eq!(e3, Some(AttributeError::ParentIdColumnNotFound));
    let only_skipped = vec![row(1u32, "empty", 0), row(1u32, "map", 5)];
    assert!(AttributeStore::try_from_rows(only_skipped, false).is_ok());
}

#[test]
fn test_delta_lookups_read_running_sums() {
    let rows = vec![int_row(2u16, "a", 2), int_row(7u16, "b", 7)];
    let mut walked = AttributeStore::try_from_rows(rows, true).unwrap();
    let fresh = AttributeStore::try_from_rows(
        vec![int_row(2u16, "a", 2), int_row(7u16, "b", 7)],
        true,
    )
    .unwrap();
    let deltas = [2u16, 0, 3, 2];
    let mut sum = 0u16;
    for d in deltas {
        sum += d;
        assert_eq!(walked.attribute_by_delta_id(d), fresh.attribute_by_id(sum));
    }
    assert_eq!(sum, 7);
}
