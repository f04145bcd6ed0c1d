//! The intermediate-value codec path: a closed dynamically-tagged value
//! type standing between typed records and the wire format, with
//! conversions in both directions.  Encoding through it produces exactly
//! the bytes of the direct path, and decoding through it accepts exactly
//! the same byte strings.

use vstd::prelude::*;

use crate::codec::{decode_person, decode_person_spec, encode_person, encode_person_spec};
use crate::codec::person_wf;
use crate::person::{Person, PersonView};

verus! {

/// A closed tagged value: the shapes schema-typed data can take.
pub enum Value {
    Null,
    Str(String),
    Int(i32),
    Array(Vec<Value>),
    Union(u64, Box<Value>),
    Record(Vec<Value>),
}

/// `v` represents the record `p` under the fixed schema: a four-field
/// record of a text, a 32-bit integer, a two-branch union and an array
/// of texts, in schema order.
pub open spec fn value_of_person(v: Value, p: PersonView) -> bool {
    &&& v matches Value::Record(fs)
    &&& fs@.len() == 4
    &&& fs@[0] matches Value::Str(n) && n@ == p.name
    &&& fs@[1] matches Value::Int(a) && a as int == p.age
    &&& match p.email {
        None => fs@[2] matches Value::Union(t, b) && t == 0 && *b is Null,
        Some(e) => fs@[2] matches Value::Union(t, b) && t == 1 && (*b matches Value::Str(s)
            && s@ == e),
    }
    &&& fs@[3] matches Value::Array(items) && items@.len() == p.phone_numbers.len() && (forall|
        k: int,
    |
        #![trigger items@[k]]
        #![trigger p.phone_numbers[k]]
        0 <= k < items@.len() ==> (items@[k] matches Value::Str(s) && s@ == p.phone_numbers[k]))
}

/// `v` has the shape of a record of the fixed schema, whatever it holds.
pub open spec fn value_shape_ok(v: Value) -> bool {
    &&& v matches Value::Record(fs)
    &&& fs@.len() == 4
    &&& fs@[0] is Str
    &&& fs@[1] is Int
    &&& fs@[2] matches Value::Union(t, b) && ((t == 0 && *b is Null) || (t == 1 && *b is Str))
    &&& fs@[3] matches Value::Array(items) && (forall|k: int|
        #![trigger items@[k]]
        0 <= k < items@.len() ==> items@[k] is Str)
}

/// Whatever represents a record has the record shape, so a conversion
/// that refuses a value refuses one that represents nothing.
pub proof fn lemma_value_of_person_shape(v: Value, p: PersonView)
    requires
        value_of_person(v, p),
    ensures
        value_shape_ok(v),
{
}

/// A value represents at most one record.
pub proof fn lemma_value_of_person_unique(v: Value, p1: PersonView, p2: PersonView)
    requires
        value_of_person(v, p1),
        value_of_person(v, p2),
    ensures
        p1 == p2,
{
    assert(p1.phone_numbers =~= p2.phone_numbers);
}

/// Converts a typed record into the intermediate value representation.
pub fn person_to_value(p: &Person) -> (v: Value)
    ensures
        value_of_person(v, p@),
{
    let mut fs: Vec<Value> = Vec::new();
    fs.push(Value::Str(p.name.clone()));
    fs.push(Value::Int(p.age));
    match &p.email {
        None => fs.push(Value::Union(0, Box::new(Value::Null))),
        Some(e) => fs.push(Value::Union(1, Box::new(Value::Str(e.clone())))),
    }
    let mut items: Vec<Value> = Vec::new();
    let n = p.phone_numbers.len();
    let mut i: usize = 0;
    while i < n
        invariant
            i <= n,
            n == p.phone_numbers@.len(),
            items@.len() == i,
            forall|k: int|
                #![trigger items@[k]]
                0 <= k < i ==> (items@[k] matches Value::Str(s) && s@ == p@.phone_numbers[k]),
        decreases n - i,
    {
        items.push(Value::Str(p.phone_numbers[i].clone()));
        proof {
            assert(p@.phone_numbers[i as int] == p.phone_numbers@[i as int]@);
        }
        i = i + 1;
    }
    fs.push(Value::Array(items));
    Value::Record(fs)
}

/// Extracts the texts of an all-text array value, or `None` where some
/// element is not a text.
fn array_to_strings(items: &Vec<Value>) -> (r: Option<Vec<String>>)
    ensures
        r is Some <==> (forall|k: int|
            #![trigger items@[k]]
            0 <= k < items@.len() ==> items@[k] is Str),
        match r {
            Some(ss) => ss@.len() == items@.len() && forall|k: int|
                #![trigger items@[k]]
                0 <= k < items@.len() ==> (items@[k] matches Value::Str(s) && ss@[k]@ == s@),
            None => true,
        },
{
    let mut ss: Vec<String> = Vec::new();
    let n = items.len();
    let mut i: usize = 0;
    while i < n
        invariant
            i <= n,
            n == items@.len(),
            ss@.len() == i,
            forall|k: int|
                #![trigger items@[k]]
                0 <= k < i ==> (items@[k] matches Value::Str(s) && ss@[k]@ == s@),
        decreases n - i,
    {
        match &items[i] {
            Value::Str(s) => {
                ss.push(s.clone());
            },
            _ => {
                proof {
                    assert(!(items@[i as int] is Str));
                }
                return None;
            },
        }
        i = i + 1;
    }
    Some(ss)
}

/// Converts an intermediate value back into the typed record, or `None`
/// where the value does not have the record shape.
pub fn value_to_person(v: &Value) -> (r: Option<Person>)
    ensures
        r is Some <==> value_shape_ok(*v),
        match r {
            Some(p) => value_of_person(*v, p@),
            None => true,
        },
{
    let fs = match v {
        Value::Record(fs) => fs,
        _ => {
            return None;
        },
    };
    if fs.len() != 4 {
        return None;
    }
    let name = match &fs[0] {
        Value::Str(s) => s.clone(),
        _ => {
            return None;
        },
    };
    let age = match &fs[1] {
        Value::Int(a) => *a,
        _ => {
            return None;
        },
    };
    let email: Option<String> = match &fs[2] {
        Value::Union(t, b) => {
            if *t == 0 {
                match &**b {
                    Value::Null => None,
                    _ => {
                        return None;
                    },
                }
            } else if *t == 1 {
                match &**b {
                    Value::Str(s) => Some(s.clone()),
                    _ => {
                        return None;
                    },
                }
            } else {
                return None;
            }
        },
        _ => {
            return None;
        },
    };
    let items = match &fs[3] {
        Value::Array(items) => items,
        _ => {
            return None;
        },
    };
    let phone_numbers = match array_to_strings(items) {
        Some(ss) => ss,
        None => {
            return None;
        },
    };
    let p = Person { name, age, email, phone_numbers };
    proof {
        assert forall|k: int| #![trigger items@[k]] 0 <= k < items@.len() implies items@[k] matches
            Value::Str(s) && s@ == p@.phone_numbers[k] by {
            assert(p@.phone_numbers[k] == p.phone_numbers@[k]@);
        }
        assert(value_of_person(*v, p@));
    }
    Some(p)
}

/// Encoding through the intermediate value representation.  The
/// bytes are exactly those of the direct path for the represented
/// record.
pub fn encode_value(v: &Value) -> (r: Option<Vec<u8>>)
    requires
        forall|p: PersonView| value_of_person(*v, p) ==> person_wf(p),
    ensures
        match r {
            Some(out) => value_shape_ok(*v) && forall|p: PersonView|
                value_of_person(*v, p) ==> out@ == encode_person_spec(p),
            None => !value_shape_ok(*v),
        },
{
    match value_to_person(v) {
        None => None,
        Some(p) => {
            let out = encode_person(&p);
            proof {
                assert forall|q: PersonView| value_of_person(*v, q) implies out@
                    == encode_person_spec(q) by {
                    lemma_value_of_person_unique(*v, p@, q);
                }
            }
            Some(out)
        },
    }
}

/// Decoding through the intermediate value representation.  It
/// accepts exactly the byte strings of the wire format and yields the
/// value representing the decoded record.
pub fn decode_value(bytes: &[u8]) -> (r: Option<Value>)
    ensures
        match r {
            Some(v) => decode_person_spec(bytes@) matches Some(p) && value_of_person(v, p),
            None => decode_person_spec(bytes@) is None,
        },
{
    match decode_person(bytes) {
        None => None,
        Some(p) => Some(person_to_value(&p)),
    }
}

} // verus!
