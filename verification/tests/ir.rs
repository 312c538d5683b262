//! Record ids, values, the store and its maps.
use nqlite::ir::{Id, Record, RecordId, Store, Value, VectorSpec};
use nqlite::ordmap::OrdMap;

fn record(table: &str, id: Id) -> Record {
    Record {
        id: RecordId::new(table.into(), id),
        body: OrdMap::new(),
        embedding: None,
        created_at: 0,
    }
}

#[test]
fn record_id_parse_roundtrip() {
    for s in ["person:1", "person:alice", "msg:42"] {
        let rid = RecordId::parse(s).expect("parse");
        assert_eq!(rid.to_text(), s, "display roundtrips parse");
    }
    assert!(RecordId::parse("").is_none());
    assert!(RecordId::parse("nocolon").is_none());
}

#[test]
fn store_insert_is_deterministic_and_sorted() {
    let mut s = Store::default();
    for (t, id) in [("b", Id::Num(2)), ("a", Id::Num(1)), ("a", Id::Num(1))] {
        s.insert(record(t, id));
    }
    // Duplicate insert overwrites; the map keeps key order.
    assert_eq!(s.records.len(), 2);
    let keys: Vec<_> = s.records.entries.iter().map(|(k, _)| k.to_text()).collect();
    assert_eq!(keys, ["a:1", "b:2"]);
}

#[test]
fn record_ids_need_both_parts_and_read_numbers() {
    assert!(RecordId::parse(":1").is_none());
    assert!(RecordId::parse("t:").is_none());
    assert_eq!(RecordId::parse("t:7"), Some(RecordId::new("t".into(), Id::Num(7))));
    assert_eq!(RecordId::parse("t:+7"), Some(RecordId::new("t".into(), Id::Num(7))));
    assert_eq!(
        RecordId::parse("t:18446744073709551616"),
        Some(RecordId::new("t".into(), Id::Str("18446744073709551616".into())))
    );
    assert_eq!(RecordId::parse("t:a:b"), Some(RecordId::new("t".into(), Id::Str("a:b".into()))));
}

#[test]
fn numbers_come_before_names_in_the_store() {
    let mut s = Store::default();
    s.insert(record("t", Id::Str("0".into())));
    s.insert(record("t", Id::Num(10)));
    s.insert(record("t", Id::Num(9)));
    s.insert(record("s", Id::Str("z".into())));
    let keys: Vec<_> = s.records.entries.iter().map(|(k, _)| k.clone()).collect();
    assert_eq!(
        keys,
        vec![
            RecordId::new("s".into(), Id::Str("z".into())),
            RecordId::new("t".into(), Id::Num(9)),
            RecordId::new("t".into(), Id::Num(10)),
            RecordId::new("t".into(), Id::Str("0".into())),
        ]
    );
}

#[test]
fn a_later_record_replaces_an_earlier_one() {
    let mut s = Store::default();
    s.insert(record("t", Id::Num(1)));
    let mut later = record("t", Id::Num(1));
    later.created_at = 9;
    s.insert(later.clone());
    assert_eq!(s.records.get(&later.id), Some(&later));
    assert_eq!(s.records.len(), 1);
}

#[test]
fn values_are_equal_as_numbers_are() {
    let zero = Value::Float(0.0f64.to_bits());
    let minus_zero = Value::Float((-0.0f64).to_bits());
    let nan = Value::Float(f64::NAN.to_bits());
    assert!(zero.equals(&minus_zero));
    assert!(!nan.equals(&nan));
    assert!(Value::Vector(vec![0.0f32.to_bits()]).equals(&Value::Vector(vec![(-0.0f32).to_bits()])));
    assert!(!Value::Int(1).equals(&Value::Float(1.0f64.to_bits())));
    assert!(Value::Arr(vec![Value::Null]).equals(&Value::Arr(vec![Value::Null])));
}

#[test]
fn maps_keep_keys_in_order_and_once() {
    let mut m: OrdMap<String, usize> = OrdMap::new();
    assert!(m.is_empty());
    m.insert("b".into(), 1);
    m.insert("a".into(), 2);
    m.insert("b".into(), 3);
    assert_eq!(m.len(), 2);
    assert_eq!(m.get(&"b".to_string()), Some(&3));
    assert_eq!(m.entries[0].0, "a");
    m.remove(&"a".to_string());
    m.remove(&"zzz".to_string());
    assert!(!m.contains_key(&"a".to_string()));
    assert_eq!(m.len(), 1);
}

#[test]
fn vector_columns_have_a_dimension() {
    assert_eq!(VectorSpec { dim: 384 }.dim, 384);
}
