use avrobench::codec::{decode_person, encode_person};
use avrobench::person::{create_person, Person};

fn same(a: &Person, b: &Person) -> bool {
    a.name == b.name && a.age == b.age && a.email == b.email && a.phone_numbers
        == b.phone_numbers
}

#[test]
fn minimal_record_exact_bytes() {
    let p = Person {
        name: String::new(),
        age: 0,
        email: None,
        phone_numbers: Vec::new(),
    };
    // empty name, age zero, absent email, empty list: four zero longs
    assert_eq!(encode_person(&p), vec![0u8, 0, 0, 0]);
}

#[test]
fn person_zero_exact_bytes() {
    let bytes = encode_person(&create_person(0));
    let mut expected: Vec<u8> = Vec::new();
    expected.push(16); // name length 8, zig-zag
    expected.extend_from_slice(b"Person_0");
    expected.push(40); // age 20, zig-zag
    expected.push(2); // union branch 1: string
    expected.push(38); // email length 19, zig-zag
    expected.extend_from_slice(b"person0@example.com");
    expected.push(2); // one array block of one item
    expected.push(22); // phone length 11, zig-zag
    expected.extend_from_slice(b"+1-555-0000");
    expected.push(0); // end of array blocks
    assert_eq!(bytes, expected);
}

#[test]
fn round_trip_generated_records() {
    for i in [0, 1, 2, 3, 59, 60, 61, 999, 1000, 123456] {
        let p = create_person(i);
        let bytes = encode_person(&p);
        let q = decode_person(&bytes).expect("decode must succeed");
        assert!(same(&p, &q));
    }
}

#[test]
fn round_trip_negative_age_and_unicode() {
    let p = Person {
        name: "Grüße 界".to_string(),
        age: -42,
        email: Some("snowman ☃".to_string()),
        phone_numbers: vec!["".to_string(), "ügely".to_string()],
    };
    let bytes = encode_person(&p);
    let q = decode_person(&bytes).expect("decode must succeed");
    assert!(same(&p, &q));
}

#[test]
fn decode_rejects_truncation() {
    let bytes = encode_person(&create_person(5));
    for cut in 0..bytes.len() {
        assert!(decode_person(&bytes[..cut]).is_none(), "cut at {}", cut);
    }
}

#[test]
fn decode_rejects_trailing_bytes() {
    let mut bytes = encode_person(&create_person(4));
    bytes.push(0);
    assert!(decode_person(&bytes).is_none());
}

#[test]
fn decode_rejects_negative_name_length() {
    // zig-zag 1 is the integer -1
    assert!(decode_person(&[1, 0, 0, 0]).is_none());
}

#[test]
fn decode_rejects_bad_union_branch() {
    // empty name, age 0, union branch 2
    assert!(decode_person(&[0, 0, 4, 0]).is_none());
}

#[test]
fn decode_rejects_invalid_utf8() {
    // name of length 1 whose byte is not UTF-8
    assert!(decode_person(&[2, 0xff, 0, 0, 0]).is_none());
}

#[test]
fn decode_rejects_age_out_of_range() {
    // age 2^31: zig-zag 2^32 as a varint
    let bytes = [0u8, 0x80, 0x80, 0x80, 0x80, 0x20, 0, 0];
    assert!(decode_person(&bytes).is_none());
}

#[test]
fn decode_rejects_negative_array_count() {
    // empty name, age 0, no email, array block count -1
    assert!(decode_person(&[0, 0, 0, 1]).is_none());
}

#[test]
fn decode_accepts_split_array_blocks() {
    // the list may come in several counted blocks
    let p = create_person(2);
    assert_eq!(p.phone_numbers.len(), 3);
    let one = encode_person(&Person {
        name: p.name.clone(),
        age: p.age,
        email: p.email.clone(),
        phone_numbers: vec![p.phone_numbers[0].clone()],
    });
    // rebuild: replace the single block [2, item, 0] tail by
    // [2, item, 2, item2, 2, item3, 0]
    let prefix_len = one.len() - 2 - p.phone_numbers[0].len() - 1;
    let mut bytes = one[..prefix_len].to_vec();
    for ph in &p.phone_numbers {
        bytes.push(2);
        bytes.push((ph.len() * 2) as u8);
        bytes.extend_from_slice(ph.as_bytes());
    }
    bytes.push(0);
    let q = decode_person(&bytes).expect("decode must succeed");
    assert!(same(&p, &q));
}
