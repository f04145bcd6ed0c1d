use avrobench::person::{create_person, Person};

fn same(a: &Person, b: &Person) -> bool {
    a.name == b.name && a.age == b.age && a.email == b.email && a.phone_numbers
        == b.phone_numbers
}

#[test]
fn person_zero() {
    let p = create_person(0);
    assert_eq!(p.name, "Person_0");
    assert_eq!(p.age, 20);
    assert_eq!(p.email, Some("person0@example.com".to_string()));
    assert_eq!(p.phone_numbers, vec!["+1-555-0000".to_string()]);
}

#[test]
fn person_one() {
    let p = create_person(1);
    assert_eq!(p.name, "Person_1");
    assert_eq!(p.age, 21);
    assert_eq!(p.email, None);
    assert_eq!(
        p.phone_numbers,
        vec!["+1-555-0010".to_string(), "+1-555-0011".to_string()]
    );
}

#[test]
fn person_two() {
    let p = create_person(2);
    assert_eq!(p.name, "Person_2");
    assert_eq!(p.age, 22);
    assert_eq!(p.email, None);
    assert_eq!(
        p.phone_numbers,
        vec![
            "+1-555-0020".to_string(),
            "+1-555-0021".to_string(),
            "+1-555-0022".to_string()
        ]
    );
}

#[test]
fn email_presence_follows_index() {
    for i in 0..30 {
        let p = create_person(i);
        if i % 3 == 0 {
            assert_eq!(p.email, Some(format!("person{}@example.com", i)));
        } else {
            assert_eq!(p.email, None);
        }
    }
}

#[test]
fn age_wraps_at_sixty() {
    assert_eq!(create_person(59).age, 79);
    assert_eq!(create_person(60).age, 20);
    assert_eq!(create_person(61).age, 21);
    assert_eq!(create_person(125).age, 25);
}

#[test]
fn phone_count_and_padding() {
    for i in 0..10 {
        let p = create_person(i);
        assert_eq!(p.phone_numbers.len() as i32, 1 + i % 3);
        for (j, ph) in p.phone_numbers.iter().enumerate() {
            assert_eq!(ph, &format!("+1-555-{:04}", i * 10 + j as i32));
        }
    }
}

#[test]
fn phone_padding_grows_past_four_digits() {
    let p = create_person(1000);
    assert_eq!(p.phone_numbers[0], "+1-555-10000");
    let p = create_person(999);
    assert_eq!(p.phone_numbers[0], "+1-555-9990");
}

#[test]
fn generator_is_deterministic() {
    for i in [0, 1, 7, 59, 60, 1234] {
        let a = create_person(i);
        let b = create_person(i);
        assert!(same(&a, &b));
    }
}
