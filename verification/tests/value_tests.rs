use avrobench::codec::encode_person;
use avrobench::person::{create_person, Person};
use avrobench::value::{decode_value, encode_value, person_to_value, value_to_person, Value};

fn same(a: &Person, b: &Person) -> bool {
    a.name == b.name && a.age == b.age && a.email == b.email && a.phone_numbers
        == b.phone_numbers
}

#[test]
fn value_conversion_round_trip() {
    for i in [0, 1, 2, 17, 60] {
        let p = create_person(i);
        let v = person_to_value(&p);
        let q = value_to_person(&v).expect("record-shaped value");
        assert!(same(&p, &q));
    }
}

#[test]
fn value_path_encodes_same_bytes_as_direct_path() {
    for i in [0, 1, 2, 3, 1000] {
        let p = create_person(i);
        let v = person_to_value(&p);
        let via_value = encode_value(&v).expect("record-shaped value");
        assert_eq!(via_value, encode_person(&p));
    }
}

#[test]
fn value_path_decodes_what_direct_path_wrote() {
    for i in [0, 1, 2] {
        let p = create_person(i);
        let bytes = encode_person(&p);
        let v = decode_value(&bytes).expect("well-formed bytes");
        let q = value_to_person(&v).expect("record-shaped value");
        assert!(same(&p, &q));
    }
}

#[test]
fn misshapen_values_are_refused() {
    assert!(value_to_person(&Value::Null).is_none());
    assert!(value_to_person(&Value::Record(Vec::new())).is_none());
    assert!(value_to_person(&Value::Record(vec![
        Value::Int(1),
        Value::Int(2),
        Value::Int(3),
        Value::Int(4)
    ]))
    .is_none());
    // union branch out of range
    assert!(value_to_person(&Value::Record(vec![
        Value::Str("x".to_string()),
        Value::Int(1),
        Value::Union(2, Box::new(Value::Null)),
        Value::Array(Vec::new())
    ]))
    .is_none());
    // array holding a non-text
    assert!(value_to_person(&Value::Record(vec![
        Value::Str("x".to_string()),
        Value::Int(1),
        Value::Union(0, Box::new(Value::Null)),
        Value::Array(vec![Value::Int(9)])
    ]))
    .is_none());
    assert!(encode_value(&Value::Null).is_none());
}

#[test]
fn decode_value_rejects_malformed_bytes() {
    assert!(decode_value(&[]).is_none());
    assert!(decode_value(&[1, 0, 0, 0]).is_none());
}
