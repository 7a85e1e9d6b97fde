//! Attributes of OTAP records, grouped by the id of the record they belong to.
//!
//! An attribute table holds one row per attribute: the parent id, the key, the
//! value type and the value. `AttributeStore` groups the decoded rows by
//! parent id; within one parent a key occurs once, and a later row with the
//! same key replaces the value of the earlier one.
use std::collections::HashMap;
use vstd::prelude::*;
use vstd::std_specs::hash::obeys_key_model;

verus! {

broadcast use vstd::std_specs::hash::group_hash_axioms;

/// The value type column of an attribute table, with its wire codes 0..=7.
#[derive(Clone, Copy, PartialEq, Eq, Debug, Structural)]
pub enum AttributeValueType {
    Empty,
    Str,
    Int,
    Double,
    Bool,
    Kvlist,
    Slice,
    Bytes,
}

impl AttributeValueType {
    /// The wire code of a value type.
    pub open spec fn spec_code(self) -> u8 {
        match self {
            AttributeValueType::Empty => 0,
            AttributeValueType::Str => 1,
            AttributeValueType::Int => 2,
            AttributeValueType::Double => 3,
            AttributeValueType::Bool => 4,
            AttributeValueType::Kvlist => 5,
            AttributeValueType::Slice => 6,
            AttributeValueType::Bytes => 7,
        }
    }

    /// The value type whose wire code is `code`, if there is one.
    pub open spec fn spec_from_code(code: u8) -> Option<AttributeValueType> {
        if code == 0 {
            Some(AttributeValueType::Empty)
        } else if code == 1 {
            Some(AttributeValueType::Str)
        } else if code == 2 {
            Some(AttributeValueType::Int)
        } else if code == 3 {
            Some(AttributeValueType::Double)
        } else if code == 4 {
            Some(AttributeValueType::Bool)
        } else if code == 5 {
            Some(AttributeValueType::Kvlist)
        } else if code == 6 {
            Some(AttributeValueType::Slice)
        } else if code == 7 {
            Some(AttributeValueType::Bytes)
        } else {
            None
        }
    }

    /// The value type whose wire code is `code`, if there is one.
    pub fn from_code(code: u8) -> (r: Option<AttributeValueType>)
        ensures
            r == Self::spec_from_code(code),
    {
        match code {
            0 => Some(AttributeValueType::Empty),
            1 => Some(AttributeValueType::Str),
            2 => Some(AttributeValueType::Int),
            3 => Some(AttributeValueType::Double),
            4 => Some(AttributeValueType::Bool),
            5 => Some(AttributeValueType::Kvlist),
            6 => Some(AttributeValueType::Slice),
            7 => Some(AttributeValueType::Bytes),
            _ => None,
        }
    }
}

/// Decoding a wire code gives back the type that was encoded, and exactly
/// the codes 0 to 7 decode to a type.
pub proof fn lemma_value_type_code_roundtrip(t: AttributeValueType, code: u8)
    ensures
        AttributeValueType::spec_from_code(t.spec_code()) == Some(t),
        AttributeValueType::spec_from_code(code) is Some <==> code <= 7,
        AttributeValueType::spec_from_code(code) matches Some(u) ==> u.spec_code() == code,
{
}

/// An attribute value. A double is held by its IEEE-754 bit pattern.
#[derive(Debug, PartialEq)]
pub enum Value {
    StringValue(String),
    BoolValue(bool),
    IntValue(i64),
    DoubleValue(u64),
    ArrayValue(ArrayValue),
    KvlistValue(KeyValueList),
    BytesValue(Vec<u8>),
}

/// A list of values.
#[derive(Debug, PartialEq)]
pub struct ArrayValue {
    pub values: Vec<AnyValue>,
}

/// A list of key-value pairs.
#[derive(Debug, PartialEq)]
pub struct KeyValueList {
    pub values: Vec<KeyValue>,
}

/// A value that may be absent.
#[derive(Debug, PartialEq)]
pub struct AnyValue {
    pub value: Option<Value>,
}

/// One attribute: a key and its value.
#[derive(Debug, PartialEq)]
pub struct KeyValue {
    pub key: String,
    pub value: Option<AnyValue>,
}

/// An integer id of a parent record (`u16` or `u32` in OTAP attribute tables).
pub trait ParentId: Copy + Eq + std::hash::Hash + Sized {
    /// The id as an integer.
    spec fn id_value(self) -> int;

    /// The largest id the type can hold.
    spec fn id_limit() -> int;

    /// The id zero.
    fn zero_id() -> (r: Self)
        ensures
            r.id_value() == 0,
    ;

    /// `self` advanced by `delta`.
    fn add_delta(self, delta: Self) -> (r: Self)
        requires
            self.id_value() + delta.id_value() <= Self::id_limit(),
        ensures
            r.id_value() == self.id_value() + delta.id_value(),
    ;

    /// Ids are non-negative, bounded, determined by their integer value, and
    /// behave as keys of a hash map.
    proof fn lemma_id_model()
        ensures
            obeys_key_model::<Self>(),
            forall|a: Self| 0 <= #[trigger] a.id_value() <= Self::id_limit(),
            forall|a: Self, b: Self| a.id_value() == b.id_value() ==> a == b,
    ;
}

impl ParentId for u16 {
    open spec fn id_value(self) -> int {
        self as int
    }

    open spec fn id_limit() -> int {
        u16::MAX as int
    }

    fn zero_id() -> (r: u16) {
        0
    }

    fn add_delta(self, delta: u16) -> (r: u16) {
        self + delta
    }

    proof fn lemma_id_model() {
    }
}

impl ParentId for u32 {
    open spec fn id_value(self) -> int {
        self as int
    }

    open spec fn id_limit() -> int {
        u32::MAX as int
    }

    fn zero_id() -> (r: u32) {
        0
    }

    fn add_delta(self, delta: u32) -> (r: u32) {
        self + delta
    }

    proof fn lemma_id_model() {
    }
}

impl<T: ParentId> Default for AttributeStore<T> {
    /// An empty store whose last id is zero.
    fn default() -> (s: Self)
        ensures
            s.last_id().id_value() == 0,
            s.attributes() == Map::<T, Seq<KeyValue>>::empty(),
    {
        let s = AttributeStore { last_id: T::zero_id(), attribute_by_ids: HashMap::new() };
        assert(s.attributes() =~= Map::<T, Seq<KeyValue>>::empty());
        s
    }
}

/// `i` is the first position of `s` whose key is `key`.
pub open spec fn is_first_key_match(s: Seq<KeyValue>, key: Seq<char>, i: int) -> bool {
    &&& 0 <= i < s.len()
    &&& s[i].key@ == key
    &&& forall|j: int| 0 <= j < i ==> s[j].key@ != key
}

/// The position that holds `key` in `s`: its first match, or `s.len()` when
/// no entry has that key (the position where it is appended).
pub open spec fn key_slot(s: Seq<KeyValue>, key: Seq<char>) -> int {
    if exists|i: int| is_first_key_match(s, key, i) {
        choose|i: int| is_first_key_match(s, key, i)
    } else {
        s.len() as int
    }
}

/// `s` with `key` set to `value`: the first entry with that key gets the
/// value, or a new entry is appended when there is none.
pub open spec fn upsert_attribute(s: Seq<KeyValue>, key: String, value: Value) -> Seq<KeyValue> {
    let i = key_slot(s, key@);
    let v = Some(AnyValue { value: Some(value) });
    if i < s.len() {
        s.update(i, KeyValue { key: s[i].key, value: v })
    } else {
        s.push(KeyValue { key: key, value: v })
    }
}

/// The attributes of each parent after recording `value` under `key` for
/// parent `id`.
pub open spec fn store_attribute<T>(
    m: Map<T, Seq<KeyValue>>,
    id: T,
    key: String,
    value: Value,
) -> Map<T, Seq<KeyValue>> {
    let current = if m.contains_key(id) {
        m[id]
    } else {
        Seq::empty()
    };
    m.insert(id, upsert_attribute(current, key, value))
}

/// The attributes of each parent after recording the rows in order, starting
/// from `m`.
pub open spec fn store_rows<T>(m: Map<T, Seq<KeyValue>>, rows: Seq<(T, String, Value)>) -> Map<
    T,
    Seq<KeyValue>,
>
    decreases rows.len(),
{
    if rows.len() == 0 {
        m
    } else {
        let last = rows.last();
        store_attribute(store_rows(m, rows.drop_last()), last.0, last.1, last.2)
    }
}

/// The serialized value of a map or slice row.
#[derive(Debug, PartialEq)]
pub enum SerializedValue {
    /// The row holds no serialized bytes.
    Null,
    /// The serialized bytes do not decode.
    Invalid,
    /// The serialized bytes decode to a value, or to no value.
    Decoded(Option<Value>),
}

/// One row of an attribute table with its columns read out: the parent id
/// already decoded, and each value column at its default where the column is
/// missing or null.
pub struct AttributeRow<T> {
    /// The parent id, decoded. Where the table's parent id column is delta
    /// encoded, the decoder must be fed only the rows that contribute a value
    /// (see `row_value`), in order, each with its key and value: skipped rows
    /// take no part in the encoding, and their parent id is not read.
    pub parent_id: T,
    pub key: String,
    /// The wire code of the value type.
    pub value_type: u8,
    pub str_value: String,
    pub int_value: i64,
    /// The IEEE-754 bit pattern of the double value.
    pub double_bits: u64,
    pub bool_value: bool,
    pub bytes_value: Vec<u8>,
    pub serialized_value: SerializedValue,
}

/// Errors of building an attribute store from rows.
#[derive(Clone, Copy, PartialEq, Eq, Debug, Structural)]
pub enum AttributeError {
    /// A row's value type code names no value type.
    UnrecognizedAttributeValueType { value_type: u8 },
    /// A map or slice row's serialized bytes do not decode.
    InvalidSerializedValue,
    /// A row contributes a value but the table has no parent id column.
    ParentIdColumnNotFound,
}

/// The value a row contributes, by its value type; `None` for an empty row
/// and for a map or slice row without a decoded value, which are skipped.
pub open spec fn row_value<T>(row: AttributeRow<T>) -> Option<Value> {
    match AttributeValueType::spec_from_code(row.value_type) {
        Some(AttributeValueType::Str) => Some(Value::StringValue(row.str_value)),
        Some(AttributeValueType::Int) => Some(Value::IntValue(row.int_value)),
        Some(AttributeValueType::Double) => Some(Value::DoubleValue(row.double_bits)),
        Some(AttributeValueType::Bool) => Some(Value::BoolValue(row.bool_value)),
        Some(AttributeValueType::Bytes) => Some(Value::BytesValue(row.bytes_value)),
        Some(AttributeValueType::Kvlist) | Some(AttributeValueType::Slice) => match row.serialized_value {
            SerializedValue::Decoded(v) => v,
            _ => None,
        },
        _ => None,
    }
}

/// What each kind of row contributes, by its type code: a string (1),
/// integer (2), double (3), boolean (4) or bytes (7) row contributes the
/// value of its column; a map (5) or slice (6) row contributes the value its
/// serialized bytes decode to, and nothing when they are null or decode to
/// nothing; an empty row (0) contributes nothing. Map and slice rows are
/// treated alike.
pub proof fn lemma_row_value_by_type_code<T>(row: AttributeRow<T>)
    ensures
        row.value_type == 0 ==> row_value(row) is None,
        row.value_type == 1 ==> row_value(row) == Some(Value::StringValue(row.str_value)),
        row.value_type == 2 ==> row_value(row) == Some(Value::IntValue(row.int_value)),
        row.value_type == 3 ==> row_value(row) == Some(Value::DoubleValue(row.double_bits)),
        row.value_type == 4 ==> row_value(row) == Some(Value::BoolValue(row.bool_value)),
        row.value_type == 7 ==> row_value(row) == Some(Value::BytesValue(row.bytes_value)),
        row.value_type == 5 || row.value_type == 6 ==> match row.serialized_value {
            SerializedValue::Decoded(v) => row_value(row) == v,
            _ => row_value(row) is None,
        },
        row.value_type >= 8 ==> row_value(row) is None && row_error(row, true)
            == Some(AttributeError::UnrecognizedAttributeValueType { value_type: row.value_type }),
{
}

/// Every row that raises no error and is not skipped contributes a value to
/// the store, under its parent id and key: its triple is the last of the
/// decoded rows.
pub proof fn lemma_unskipped_row_is_stored<T>(rows: Seq<AttributeRow<T>>, parent_ids_present: bool)
    requires
        rows.len() > 0,
        row_error(rows.last(), parent_ids_present) is None,
        !is_skipped(rows.last()),
    ensures
        row_value(rows.last()) is Some,
        decoded_rows(rows) == decoded_rows(rows.drop_last()).push(
            (rows.last().parent_id, rows.last().key, row_value(rows.last())->0),
        ),
{
}

/// The error a row raises, checked in this order: an unknown value type, an
/// undecodable serialized value of a map or slice row, a missing parent id
/// column for a row that contributes a value.
pub open spec fn row_error<T>(row: AttributeRow<T>, parent_ids_present: bool) -> Option<
    AttributeError,
> {
    match AttributeValueType::spec_from_code(row.value_type) {
        None => Some(AttributeError::UnrecognizedAttributeValueType { value_type: row.value_type }),
        Some(t) => if (t == AttributeValueType::Kvlist || t == AttributeValueType::Slice)
            && row.serialized_value is Invalid {
            Some(AttributeError::InvalidSerializedValue)
        } else if row_value(row) is Some && !parent_ids_present {
            Some(AttributeError::ParentIdColumnNotFound)
        } else {
            None
        },
    }
}

/// No row raises an error.
pub open spec fn rows_valid<T>(rows: Seq<AttributeRow<T>>, parent_ids_present: bool) -> bool {
    forall|i: int| 0 <= i < rows.len() ==> row_error(#[trigger] rows[i], parent_ids_present) is None
}

/// The `(parent id, key, value)` triples of the rows that contribute a value,
/// in order.
pub open spec fn decoded_rows<T>(rows: Seq<AttributeRow<T>>) -> Seq<(T, String, Value)>
    decreases rows.len(),
{
    if rows.len() == 0 {
        Seq::empty()
    } else {
        let last = rows.last();
        match row_value(last) {
            Some(v) => decoded_rows(rows.drop_last()).push((last.parent_id, last.key, v)),
            None => decoded_rows(rows.drop_last()),
        }
    }
}

/// The error of the first row that raises one, if any.
pub open spec fn first_row_error<T>(rows: Seq<AttributeRow<T>>, parent_ids_present: bool) -> Option<
    AttributeError,
>
    decreases rows.len(),
{
    if rows.len() == 0 {
        None
    } else {
        match first_row_error(rows.drop_last(), parent_ids_present) {
            Some(e) => Some(e),
            None => row_error(rows.last(), parent_ids_present),
        }
    }
}

/// Rows raise no error exactly when no first row raises one.
pub proof fn lemma_rows_valid_iff_no_first_error<T>(rows: Seq<AttributeRow<T>>, parent_ids_present: bool)
    ensures
        rows_valid(rows, parent_ids_present) <==> first_row_error(rows, parent_ids_present) is None,
    decreases rows.len(),
{
    if rows.len() > 0 {
        let rest = rows.drop_last();
        lemma_rows_valid_iff_no_first_error(rest, parent_ids_present);
        if rows_valid(rest, parent_ids_present) && row_error(rows.last(), parent_ids_present) is None {
            assert forall|i: int| 0 <= i < rows.len() implies row_error(
                #[trigger] rows[i],
                parent_ids_present,
            ) is None by {
                if i < rest.len() {
                    assert(rest[i] == rows[i]);
                }
            }
        }
        if rows_valid(rows, parent_ids_present) {
            assert forall|i: int| 0 <= i < rest.len() implies row_error(
                #[trigger] rest[i],
                parent_ids_present,
            ) is None by {
                assert(rest[i] == rows[i]);
            }
            assert(row_error(rows[rows.len() - 1], parent_ids_present) is None);
        }
    }
}

/// The error of row `i`, when no row before it raises one, is the first
/// error.
proof fn lemma_first_row_error_at<T>(rows: Seq<AttributeRow<T>>, parent_ids_present: bool, i: int)
    requires
        0 <= i < rows.len(),
        row_error(rows[i], parent_ids_present) is Some,
        forall|j: int| 0 <= j < i ==> row_error(#[trigger] rows[j], parent_ids_present) is None,
    ensures
        first_row_error(rows, parent_ids_present) == row_error(rows[i], parent_ids_present),
    decreases rows.len(),
{
    let rest = rows.drop_last();
    if i < rows.len() - 1 {
        assert forall|j: int| 0 <= j < i implies row_error(#[trigger] rest[j], parent_ids_present)
            is None by {
            assert(rest[j] == rows[j]);
        }
        assert(rest[i] == rows[i]);
        lemma_first_row_error_at(rest, parent_ids_present, i);
    } else {
        assert forall|j: int| 0 <= j < rest.len() implies row_error(#[trigger] rest[j], parent_ids_present)
            is None by {
            assert(rest[j] == rows[j]);
        }
        lemma_rows_valid_iff_no_first_error(rest, parent_ids_present);
    }
}

/// Whether a row is skipped without effect: an empty row, or a map or slice
/// row whose serialized value is null or decodes to nothing.
pub open spec fn is_skipped<T>(row: AttributeRow<T>) -> bool {
    match AttributeValueType::spec_from_code(row.value_type) {
        Some(AttributeValueType::Empty) => true,
        Some(AttributeValueType::Kvlist) | Some(AttributeValueType::Slice) => match row.serialized_value {
            SerializedValue::Null => true,
            SerializedValue::Decoded(v) => v is None,
            SerializedValue::Invalid => false,
        },
        _ => false,
    }
}

/// The rows that are not skipped, in order.
pub open spec fn unskipped_rows<T>(rows: Seq<AttributeRow<T>>) -> Seq<AttributeRow<T>> {
    rows.filter(|r: AttributeRow<T>| !is_skipped(r))
}

/// Dropping the skipped rows changes nothing: the remaining rows raise the
/// same first error, or none when the given rows raise none, and decode
/// to the same attributes, so a store built from them is the same store or
/// fails with the same error.
pub proof fn lemma_skipped_rows_do_not_matter<T>(rows: Seq<AttributeRow<T>>, parent_ids_present: bool)
    ensures
        first_row_error(unskipped_rows(rows), parent_ids_present) == first_row_error(rows, parent_ids_present),
        rows_valid(unskipped_rows(rows), parent_ids_present) <==> rows_valid(rows, parent_ids_present),
        decoded_rows(unskipped_rows(rows)) == decoded_rows(rows),
    decreases rows.len(),
{
    reveal_with_fuel(Seq::filter, 1);
    if rows.len() > 0 {
        lemma_skipped_rows_do_not_matter(rows.drop_last(), parent_ids_present);
        let rest = unskipped_rows(rows.drop_last());
        if !is_skipped(rows.last()) {
            assert(unskipped_rows(rows) == rest.push(rows.last()));
            assert(rest.push(rows.last()).drop_last() =~= rest);
        } else {
            assert(unskipped_rows(rows) == rest);
        }
    }
    lemma_rows_valid_iff_no_first_error(rows, parent_ids_present);
    lemma_rows_valid_iff_no_first_error(unskipped_rows(rows), parent_ids_present);
}

/// A first match is unique, so `key_slot` names it.
proof fn lemma_first_match_is_slot(s: Seq<KeyValue>, key: Seq<char>, i: int)
    requires
        is_first_key_match(s, key, i),
    ensures
        key_slot(s, key) == i,
{
    let k = choose|k: int| is_first_key_match(s, key, k);
    assert(is_first_key_match(s, key, k));
    if k < i {
        assert(s[k].key@ != key);
    } else if i < k {
        assert(s[i].key@ != key);
    }
}

/// Every key occurs at most once in `s`.
pub open spec fn keys_unique(s: Seq<KeyValue>) -> bool {
    forall|i: int, j: int| 0 <= i < j < s.len() ==> s[i].key@ != s[j].key@
}

/// When some entry holds `key`, a first one does.
proof fn lemma_first_match_exists(s: Seq<KeyValue>, key: Seq<char>, i: int)
    requires
        0 <= i < s.len(),
        s[i].key@ == key,
    ensures
        exists|k: int| is_first_key_match(s, key, k),
    decreases i,
{
    if forall|j: int| 0 <= j < i ==> s[j].key@ != key {
        assert(is_first_key_match(s, key, i));
    } else {
        let j = choose|j: int| 0 <= j < i && s[j].key@ == key;
        lemma_first_match_exists(s, key, j);
    }
}

/// `key_slot` is either a position holding `key` or, when no entry holds it,
/// the end of `s`.
proof fn lemma_key_slot_cases(s: Seq<KeyValue>, key: Seq<char>)
    ensures
        key_slot(s, key) < s.len() ==> is_first_key_match(s, key, key_slot(s, key)),
        key_slot(s, key) == s.len() ==> forall|j: int| 0 <= j < s.len() ==> s[j].key@ != key,
        key_slot(s, key) <= s.len(),
{
    if exists|k: int| is_first_key_match(s, key, k) {
        let k = choose|k: int| is_first_key_match(s, key, k);
        assert(is_first_key_match(s, key, k));
    } else {
        assert forall|j: int| 0 <= j < s.len() implies s[j].key@ != key by {
            if s[j].key@ == key {
                lemma_first_match_exists(s, key, j);
            }
        }
    }
}

/// After recording `value` under `key`, the attributes hold `key` at its
/// slot with exactly that value; every other entry keeps its key and value;
/// and keys that were unique stay unique.
pub proof fn lemma_upsert_sets_value(s: Seq<KeyValue>, key: String, value: Value)
    ensures
        ({
            let t = upsert_attribute(s, key, value);
            let i = key_slot(t, key@);
            &&& i < t.len()
            &&& t[i].key@ == key@
            &&& t[i].value == Some(AnyValue { value: Some(value) })
            &&& forall|j: int| 0 <= j < s.len() && j != i ==> #[trigger] t[j] == s[j]
            &&& keys_unique(s) ==> keys_unique(t)
        }),
{
    lemma_key_slot_cases(s, key@);
    let t = upsert_attribute(s, key, value);
    let i = key_slot(s, key@);
    if i < s.len() {
        assert(is_first_key_match(t, key@, i));
        lemma_first_match_is_slot(t, key@, i);
    } else {
        assert(is_first_key_match(t, key@, i));
        lemma_first_match_is_slot(t, key@, i);
    }
}

/// Within every parent of a store built from rows, each key occurs once.
pub proof fn lemma_store_rows_keys_unique<T>(rows: Seq<(T, String, Value)>)
    ensures
        forall|id: T|
            #[trigger] store_rows(Map::<T, Seq<KeyValue>>::empty(), rows).contains_key(id)
                ==> keys_unique(store_rows(Map::<T, Seq<KeyValue>>::empty(), rows)[id]),
    decreases rows.len(),
{
    if rows.len() > 0 {
        lemma_store_rows_keys_unique(rows.drop_last());
        let m = store_rows(Map::<T, Seq<KeyValue>>::empty(), rows.drop_last());
        let last = rows.last();
        let current = if m.contains_key(last.0) {
            m[last.0]
        } else {
            Seq::<KeyValue>::empty()
        };
        lemma_upsert_sets_value(current, last.1, last.2);
    }
}

/// Recording an attribute for one parent leaves every other parent's
/// attributes as they were.
pub proof fn lemma_store_attribute_other_parents<T>(
    m: Map<T, Seq<KeyValue>>,
    id: T,
    key: String,
    value: Value,
    other: T,
)
    requires
        other != id,
    ensures
        store_attribute(m, id, key, value).contains_key(other) == m.contains_key(other),
        m.contains_key(other) ==> store_attribute(m, id, key, value)[other] == m[other],
{
}

/// Finds the value stored under `key`, appending an entry with no value when
/// `key` is absent, and hands out the value to be set.
pub fn find_or_append<'a>(attributes: &'a mut Vec<KeyValue>, key: &String) -> (slot: &'a mut Option<
    AnyValue,
>)
    ensures
        key_slot(old(attributes)@, key@) < old(attributes)@.len() ==> {
            let i = key_slot(old(attributes)@, key@);
            &&& *slot == old(attributes)@[i].value
            &&& final(attributes)@ == old(attributes)@.update(
                i,
                (KeyValue { key: old(attributes)@[i].key, value: *final(slot) }),
            )
        },
        key_slot(old(attributes)@, key@) == old(attributes)@.len() ==> {
            &&& *slot == None::<AnyValue>
            &&& final(attributes)@ == old(attributes)@.push(
                (KeyValue { key: *key, value: *final(slot) }),
            )
        },
{
    let n = attributes.len();
    let mut i: usize = 0;
    while i < n
        invariant
            n == attributes@.len(),
            attributes@ == old(attributes)@,
            i <= n,
            forall|j: int| 0 <= j < i ==> attributes@[j].key@ != key@,
        decreases n - i,
    {
        if attributes[i].key == *key {
            proof {
                lemma_first_match_is_slot(attributes@, key@, i as int);
            }
            return &mut attributes[i].value;
        }
        i = i + 1;
    }
    assert(!exists|j: int| is_first_key_match(attributes@, key@, j));
    attributes.push(KeyValue { key: key.clone(), value: None });
    &mut attributes[n].value
}

/// Attributes grouped by parent id, with the last id seen while walking a
/// delta-encoded id column.
pub struct AttributeStore<T> {
    last_id: T,
    attribute_by_ids: HashMap<T, Vec<KeyValue>>,
}

impl<T: ParentId> AttributeStore<T> {
    /// The id reached by the deltas applied so far.
    pub closed spec fn last_id(&self) -> T {
        self.last_id
    }

    /// The attributes of each parent id.
    pub closed spec fn attributes(&self) -> Map<T, Seq<KeyValue>> {
        self.attribute_by_ids@.map_values(|v: Vec<KeyValue>| v@)
    }

    /// Advances the last id by `delta` and returns the attributes of the
    /// parent with the new id.
    pub fn attribute_by_delta_id(&mut self, delta: T) -> (r: Option<&[KeyValue]>)
        requires
            old(self).last_id().id_value() + delta.id_value() <= T::id_limit(),
        ensures
            final(self).last_id().id_value() == old(self).last_id().id_value() + delta.id_value(),
            final(self).attributes() == old(self).attributes(),
            match r {
                Some(s) => final(self).attributes().contains_key(final(self).last_id())
                    && s@ == final(self).attributes()[final(self).last_id()],
                None => !final(self).attributes().contains_key(final(self).last_id()),
            },
    {
        self.last_id = self.last_id.add_delta(delta);
        self.attribute_by_id(self.last_id)
    }

    /// Records `value` under `key` for parent `id`: a key already present for
    /// that parent gets the new value, a new key is appended.
    fn store_value(&mut self, id: T, key: String, value: Value)
        ensures
            final(self).last_id() == old(self).last_id(),
            final(self).attributes() == store_attribute(old(self).attributes(), id, key, value),
    {
        proof {
            T::lemma_id_model();
        }
        let attributes = self.attribute_by_ids.entry(id).or_insert(Vec::new());
        let slot = find_or_append(attributes, &key);
        *slot = Some(AnyValue { value: Some(value) });
        proof {
            assert(final(self).attributes() =~= store_attribute(old(self).attributes(), id, key, value));
        }
    }

    /// Builds a store from attribute rows, in order. Each row contributes the
    /// value its type selects; empty rows, and map or slice rows without a
    /// decoded value, are skipped. The first row that raises an error (see
    /// `row_error`) fails the whole build. `parent_ids_present` tells whether
    /// the table has a parent id column. The last id is zero. The rows' parent
    /// ids are already decoded, as `AttributeRow::parent_id` describes.
    pub fn try_from_rows(rows: Vec<AttributeRow<T>>, parent_ids_present: bool) -> (r: Result<
        Self,
        AttributeError,
    >)
        ensures
            r is Ok <==> rows_valid(rows@, parent_ids_present),
            r matches Err(e) ==> first_row_error(rows@, parent_ids_present) == Some(e),
            r matches Ok(s) ==> s.last_id().id_value() == 0 && s.attributes() == store_rows(
                Map::<T, Seq<KeyValue>>::empty(),
                decoded_rows(rows@),
            ),
    {
        let mut store = Self::default();
        let ghost all = rows@;
        for row in it: rows.into_iter()
            invariant
                it.seq() == all,
                store.last_id().id_value() == 0,
                forall|j: int| 0 <= j < it.index() ==> row_error(#[trigger] all[j], parent_ids_present) is None,
                store.attributes() == store_rows(
                    Map::<T, Seq<KeyValue>>::empty(),
                    decoded_rows(all.take(it.index() as int)),
                ),
        {
            let ghost index = it.index();
            let ghost current = row;
            proof {
                assert(all.take(index + 1).drop_last() =~= all.take(index as int));
                assert(all.take(index + 1).last() == current);
                assert(all[index as int] == current);
            }
            let value_type = match AttributeValueType::from_code(row.value_type) {
                Some(t) => t,
                None => {
                    proof {
                        lemma_first_row_error_at(all, parent_ids_present, index as int);
                    }
                    return Err(
                        AttributeError::UnrecognizedAttributeValueType { value_type: row.value_type },
                    );
                },
            };
            let value = match value_type {
                AttributeValueType::Str => Some(Value::StringValue(row.str_value)),
                AttributeValueType::Int => Some(Value::IntValue(row.int_value)),
                AttributeValueType::Double => Some(Value::DoubleValue(row.double_bits)),
                AttributeValueType::Bool => Some(Value::BoolValue(row.bool_value)),
                AttributeValueType::Bytes => Some(Value::BytesValue(row.bytes_value)),
                AttributeValueType::Kvlist | AttributeValueType::Slice => {
                    match row.serialized_value {
                        SerializedValue::Null => None,
                        SerializedValue::Invalid => {
                            proof {
                                lemma_first_row_error_at(all, parent_ids_present, index as int);
                            }
                            return Err(AttributeError::InvalidSerializedValue);
                        },
                        SerializedValue::Decoded(v) => v,
                    }
                },
                AttributeValueType::Empty => None,
            };
            assert(value == row_value(current));
            let ghost before = decoded_rows(all.take(index as int));
            if let Some(value) = value {
                if !parent_ids_present {
                    proof {
                        lemma_first_row_error_at(all, parent_ids_present, index as int);
                    }
                    return Err(AttributeError::ParentIdColumnNotFound);
                }
                store.store_value(row.parent_id, row.key, value);
                proof {
                    let added = before.push((current.parent_id, current.key, value));
                    assert(decoded_rows(all.take(index + 1)) == added);
                    assert(added.drop_last() =~= before);
                }
            }
        }
        proof {
            assert(all.take(all.len() as int) =~= all);
        }
        Ok(store)
    }

    /// The attributes of the parent with id `id`.
    pub fn attribute_by_id(&self, id: T) -> (r: Option<&[KeyValue]>)
        ensures
            match r {
                Some(s) => self.attributes().contains_key(id) && s@ == self.attributes()[id],
                None => !self.attributes().contains_key(id),
            },
    {
        proof {
            T::lemma_id_model();
        }
        match self.attribute_by_ids.get(&id) {
            Some(v) => Some(v.as_slice()),
            None => None,
        }
    }
}

/// The sum of the deltas, as integers.
pub open spec fn delta_sum<T: ParentId>(deltas: Seq<T>) -> int
    decreases deltas.len(),
{
    if deltas.len() == 0 {
        0
    } else {
        delta_sum(deltas.drop_last()) + deltas.last().id_value()
    }
}

/// Lookups by delta read the running sums of the deltas. When `stores[0]`
/// has last id zero (a default store, or one built from rows) and each
/// `stores[i + 1]` is `stores[i]` after `attribute_by_delta_id(deltas[i])`,
/// then after the first `i` lookups the last id is the sum of the first `i`
/// deltas and the attributes are those of `stores[0]`: the `i`-th lookup
/// reads the attributes of the parent whose id is that sum.
pub proof fn lemma_delta_lookups_read_running_sums<T: ParentId>(
    stores: Seq<AttributeStore<T>>,
    deltas: Seq<T>,
)
    requires
        stores.len() == deltas.len() + 1,
        stores[0].last_id().id_value() == 0,
        forall|i: int|
            0 <= i < deltas.len() ==> (#[trigger] stores[i + 1]).last_id().id_value() == stores[i].last_id().id_value()
                + deltas[i].id_value() && stores[i + 1].attributes() == stores[i].attributes(),
    ensures
        forall|i: int|
            0 <= i < stores.len() ==> (#[trigger] stores[i]).last_id().id_value() == delta_sum(deltas.take(i))
                && stores[i].attributes() == stores[0].attributes(),
    decreases deltas.len(),
{
    if deltas.len() > 0 {
        let k = deltas.len() - 1;
        lemma_delta_lookups_read_running_sums(stores.drop_last(), deltas.drop_last());
        assert forall|i: int| 0 <= i < stores.len() implies (#[trigger] stores[i]).last_id().id_value()
            == delta_sum(deltas.take(i)) && stores[i].attributes() == stores[0].attributes() by {
            if i < stores.len() - 1 {
                assert(stores.drop_last()[i] == stores[i]);
                assert(deltas.drop_last().take(i) =~= deltas.take(i));
            } else {
                assert(stores.drop_last()[k] == stores[k]);
                assert(deltas.drop_last().take(k) =~= deltas.take(k));
                assert(deltas.take(k + 1).drop_last() =~= deltas.take(k));
                assert(deltas.take(k + 1).last() == deltas[k]);
                assert(stores[k + 1].last_id().id_value() == stores[k].last_id().id_value()
                    + deltas[k].id_value());
            }
        }
    } else {
        assert(deltas.take(0) =~= Seq::<T>::empty());
    }
}

} // verus!
