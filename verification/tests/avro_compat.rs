//! Cross-checks against the apache-avro implementation: the verified
//! codec must produce byte-identical datums, and its container files
//! must be readable by the apache-avro reader.

use apache_avro::types::Value as AValue;
use apache_avro::{from_avro_datum, to_avro_datum, Reader, Schema};
use avrobench::cli::Compression;
use avrobench::codec::encode_person;
use avrobench::container::{schema_json, write_container};
use avrobench::person::{create_person, Person};

fn schema() -> Schema {
    Schema::parse_str(schema_json()).expect("the fixed schema literal parses")
}

fn to_apache_value(p: &Person) -> AValue {
    let email = match &p.email {
        None => AValue::Union(0, Box::new(AValue::Null)),
        Some(e) => AValue::Union(1, Box::new(AValue::String(e.clone()))),
    };
    let phones = AValue::Array(
        p.phone_numbers
            .iter()
            .map(|s| AValue::String(s.clone()))
            .collect(),
    );
    AValue::Record(vec![
        ("name".to_string(), AValue::String(p.name.clone())),
        ("age".to_string(), AValue::Int(p.age)),
        ("email".to_string(), email),
        ("phone_numbers".to_string(), phones),
    ])
}

#[test]
fn datum_bytes_match_apache_avro() {
    let schema = schema();
    for i in [0, 1, 2, 3, 59, 60, 1000, 123456] {
        let p = create_person(i);
        let theirs = to_avro_datum(&schema, to_apache_value(&p)).expect("apache encodes");
        let ours = encode_person(&p);
        assert_eq!(ours, theirs, "datum for index {}", i);
    }
}

#[test]
fn apache_avro_decodes_our_datum() {
    let schema = schema();
    let p = create_person(7);
    let ours = encode_person(&p);
    let value = from_avro_datum(&schema, &mut &ours[..], None).expect("apache decodes");
    assert_eq!(value, to_apache_value(&p).resolve(&schema).unwrap());
}

#[test]
fn apache_avro_reads_our_container() {
    let sync: [u8; 16] = [3; 16];
    let records: Vec<Person> = (0..25).map(create_person).collect();
    let bytes = write_container(&records, Compression::Null, &sync).unwrap();
    let reader = Reader::new(&bytes[..]).expect("apache opens our container");
    let read: Vec<_> = reader.map(|r| r.expect("each record reads")).collect();
    assert_eq!(read.len(), 25);
    assert_eq!(
        read[0],
        to_apache_value(&records[0]).resolve(&schema()).unwrap()
    );
}

#[test]
fn apache_avro_reads_our_deflate_container() {
    let sync: [u8; 16] = [4; 16];
    let records: Vec<Person> = (0..25).map(create_person).collect();
    let bytes = write_container(&records, Compression::Deflate, &sync).unwrap();
    let reader = Reader::new(&bytes[..]).expect("apache opens our deflate container");
    let read: Vec<_> = reader.map(|r| r.expect("each record reads")).collect();
    assert_eq!(read.len(), 25);
}
