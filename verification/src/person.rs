//! The record type of the fixed schema and the deterministic data
//! generator that produces the synthetic benchmark inputs.

use vstd::prelude::*;

use crate::strnum::{dec_rep, dec_rep_pad4, fmt_u64, fmt_u64_pad4};

verus! {

/// One record of the fixed schema: a name, an age, an optional email
/// address and an ordered list of phone numbers.
pub struct Person {
    pub name: String,
    pub age: i32,
    pub email: Option<String>,
    pub phone_numbers: Vec<String>,
}

/// The mathematical model of a `Person`: every text as a character
/// sequence, the age as an unbounded integer.
pub struct PersonView {
    pub name: Seq<char>,
    pub age: int,
    pub email: Option<Seq<char>>,
    pub phone_numbers: Seq<Seq<char>>,
}

impl View for Person {
    type V = PersonView;

    open spec fn view(&self) -> PersonView {
        PersonView {
            name: self.name@,
            age: self.age as int,
            email: self.email.deep_view(),
            phone_numbers: self.phone_numbers.deep_view(),
        }
    }
}

/// The name of the record at index `i`.
pub open spec fn gen_name(i: int) -> Seq<char> {
    "Person_"@ + dec_rep(i as nat)
}

/// The email of the record at index `i`: present exactly when `i` is a
/// multiple of three.
pub open spec fn gen_email(i: int) -> Option<Seq<char>> {
    if i % 3 == 0 {
        Some("person"@ + dec_rep(i as nat) + "@example.com"@)
    } else {
        None
    }
}

/// Phone number `j` of the record at index `i`.
pub open spec fn gen_phone(i: int, j: int) -> Seq<char> {
    "+1-555-"@ + dec_rep_pad4((i * 10 + j) as nat)
}

/// The record at index `i`: the generator is a pure function of `i`,
/// so repeated generation yields identical records.
pub open spec fn gen_person(i: int) -> PersonView {
    PersonView {
        name: gen_name(i),
        age: 20 + (i % 60),
        email: gen_email(i),
        phone_numbers: Seq::new((1 + i % 3) as nat, |j: int| gen_phone(i, j)),
    }
}

/// Determinism law: the generator is a pure function of the index, so
/// any two records built for the same index are equal.
pub proof fn lemma_generator_deterministic(a: PersonView, b: PersonView, i: int)
    requires
        a == gen_person(i),
        b == gen_person(i),
    ensures
        a == b,
{
}

/// Email presence law: the record at index `i` has an email exactly when
/// `i` is a multiple of three, and then it reads `person{i}@example.com`.
pub proof fn lemma_email_presence(i: int)
    requires
        i >= 0,
    ensures
        gen_person(i).email is Some <==> i % 3 == 0,
        i % 3 == 0 ==> gen_person(i).email == Some(
            "person"@ + dec_rep(i as nat) + "@example.com"@,
        ),
{
}

/// Phone list law: the record at index `i` has exactly `1 + (i % 3)`
/// phone numbers, and entry `j` reads `+1-555-` followed by `i*10 + j`
/// zero-padded to four digits.
pub proof fn lemma_phone_list(i: int)
    requires
        i >= 0,
    ensures
        gen_person(i).phone_numbers.len() == 1 + i % 3,
        forall|j: int|
            0 <= j < 1 + i % 3 ==> #[trigger] gen_person(i).phone_numbers[j] == "+1-555-"@
                + dec_rep_pad4((i * 10 + j) as nat),
{
}

/// Age law: the record at index `i` has age `20 + (i % 60)`.
pub proof fn lemma_age(i: int)
    ensures
        gen_person(i).age == 20 + i % 60,
{
}

/// Builds the record at index `i`.  The result is pinned down completely
/// by `gen_person`, so two calls with the same index agree.
pub fn create_person(i: i32) -> (p: Person)
    requires
        i >= 0,
    ensures
        p@ == gen_person(i as int),
{
    let mut name = String::from_str("Person_");
    let digits = fmt_u64(i as u64);
    name.append(digits.as_str());

    let age: i32 = 20 + (i % 60);

    let email: Option<String> = if i % 3 == 0 {
        let mut e = String::from_str("person");
        e.append(digits.as_str());
        e.append("@example.com");
        Some(e)
    } else {
        None
    };

    let n_phones: i32 = 1 + i % 3;
    let mut phone_numbers: Vec<String> = Vec::new();
    let mut j: i32 = 0;
    while j < n_phones
        invariant
            0 <= j <= n_phones,
            n_phones == 1 + (i as int) % 3,
            i >= 0,
            phone_numbers.deep_view() =~= Seq::new(j as nat, |k: int| gen_phone(i as int, k)),
        decreases n_phones - j,
    {
        let mut ph = String::from_str("+1-555-");
        let padded = fmt_u64_pad4((i as u64) * 10 + (j as u64));
        ph.append(padded.as_str());
        proof {
            assert(ph@ == gen_phone(i as int, j as int));
        }
        let ghost prev = phone_numbers.deep_view();
        phone_numbers.push(ph);
        proof {
            assert(phone_numbers.deep_view() =~= prev.push(ph@));
            assert(phone_numbers.deep_view() =~= Seq::new(
                (j + 1) as nat,
                |k: int| gen_phone(i as int, k),
            ));
        }
        j = j + 1;
    }

    let p = Person { name, age, email, phone_numbers };
    proof {
        assert(p@.name == gen_name(i as int));
        assert(p@.email == gen_email(i as int));
        assert(p@.phone_numbers =~= gen_person(i as int).phone_numbers);
        assert(p@ == gen_person(i as int));
    }
    p
}

} // verus!
