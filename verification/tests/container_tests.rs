use avrobench::cli::Compression;
use avrobench::container::{read_container, write_container};
use avrobench::person::{create_person, Person};

fn people(n: i32) -> Vec<Person> {
    (0..n).map(create_person).collect()
}

fn same(a: &Person, b: &Person) -> bool {
    a.name == b.name && a.age == b.age && a.email == b.email && a.phone_numbers
        == b.phone_numbers
}

const SYNC: [u8; 16] = [7, 1, 7, 2, 7, 3, 7, 4, 7, 5, 7, 6, 7, 7, 7, 8];

fn round_trip(n: i32, c: Compression) {
    let records = people(n);
    let bytes = write_container(&records, c, &SYNC).expect("write must succeed");
    let back = read_container(&bytes).expect("read back what was written");
    assert_eq!(back.len(), records.len());
    for (a, b) in records.iter().zip(back.iter()) {
        assert!(same(a, b));
    }
}

#[test]
fn container_round_trip_empty() {
    round_trip(0, Compression::Null);
    round_trip(0, Compression::Deflate);
}

#[test]
fn container_round_trip_one() {
    round_trip(1, Compression::Null);
    round_trip(1, Compression::Deflate);
}

#[test]
fn container_round_trip_thousand() {
    round_trip(1000, Compression::Null);
    round_trip(1000, Compression::Deflate);
}

#[test]
fn deflate_container_is_smaller_here() {
    let records = people(1000);
    let plain = write_container(&records, Compression::Null, &SYNC).unwrap();
    let packed = write_container(&records, Compression::Deflate, &SYNC).unwrap();
    assert!(packed.len() < plain.len());
}

#[test]
fn read_rejects_garbage() {
    assert!(read_container(&[]).is_none());
    assert!(read_container(b"Obj\x01junk").is_none());
    let mut bytes = write_container(&people(2), Compression::Null, &SYNC).unwrap();
    bytes[0] = b'X';
    assert!(read_container(&bytes).is_none());
}

#[test]
fn read_rejects_corrupt_block() {
    let good = write_container(&people(2), Compression::Null, &SYNC).unwrap();
    // flip a byte inside the block body
    let mut bad = good.clone();
    let k = good.len() - 20;
    bad[k] ^= 0xff;
    assert!(read_container(&bad).is_none());
    // truncate inside the trailing sync marker
    assert!(read_container(&good[..good.len() - 1]).is_none());
    // trailing garbage after the last block
    let mut extra = good.clone();
    extra.push(9);
    assert!(read_container(&extra).is_none());
}

#[test]
fn read_accepts_other_sync_markers() {
    let other: [u8; 16] = [0xaa; 16];
    let records = people(3);
    let bytes = write_container(&records, Compression::Null, &other).unwrap();
    let back = read_container(&bytes).expect("marker comes from the header");
    assert_eq!(back.len(), 3);
}
