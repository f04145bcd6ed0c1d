//! The binary wire format of the fixed record schema, stated over byte
//! sequences: texts as length-prefixed UTF-8, the optional email as a
//! two-branch union (index then value), the phone list as counted blocks
//! ended by a zero count.  The executable encoder and decoder follow the
//! spec exactly, and decoding inverts encoding.

use vstd::prelude::*;

use vstd::utf8::{decode_utf8, encode_utf8, valid_utf8};
use vstd::utf8::{encode_utf8_decode_utf8, encode_utf8_valid_utf8};
use vstd::slice::slice_subrange;
use crate::person::{Person, PersonView};
use crate::varint::{enc_long, parse_long};
use crate::varint::{decode_long_at, encode_long, lemma_parse_long_enc};

verus! {

/// A text whose UTF-8 encoding fits the signed 64-bit length prefix.  No
/// string in memory can be longer, but the bound has to be stated for the
/// mathematical model.
pub open spec fn wf_text(s: Seq<char>) -> bool {
    encode_utf8(s).len() < 0x8000_0000_0000_0000
}

/// A record the wire format can carry: every text fits its length prefix,
/// the age fits 32 bits and the phone list fits its count prefix.
pub open spec fn person_wf(p: PersonView) -> bool {
    &&& wf_text(p.name)
    &&& match p.email {
        Some(e) => wf_text(e),
        None => true,
    }
    &&& -0x8000_0000 <= p.age < 0x8000_0000
    &&& p.phone_numbers.len() < 0x8000_0000_0000_0000
    &&& forall|k: int| 0 <= k < p.phone_numbers.len() ==> wf_text(#[trigger] p.phone_numbers[k])
}

/// Wire encoding of a text: byte length, then the UTF-8 bytes.
pub open spec fn enc_str(s: Seq<char>) -> Seq<u8> {
    enc_long(encode_utf8(s).len() as int) + encode_utf8(s)
}

/// Wire encoding of the optional email: union branch index, then for the
/// present branch the text.
pub open spec fn enc_email(e: Option<Seq<char>>) -> Seq<u8> {
    match e {
        None => enc_long(0),
        Some(s) => enc_long(1) + enc_str(s),
    }
}

/// Wire encoding of a run of texts, one after the other.
pub open spec fn enc_items(ps: Seq<Seq<char>>) -> Seq<u8>
    decreases ps.len(),
{
    if ps.len() == 0 {
        Seq::empty()
    } else {
        enc_str(ps[0]) + enc_items(ps.drop_first())
    }
}

/// Wire encoding of the phone list: one counted block when the list is
/// not empty, then the zero count that ends the list.
pub open spec fn enc_phones(ps: Seq<Seq<char>>) -> Seq<u8> {
    if ps.len() == 0 {
        enc_long(0)
    } else {
        enc_long(ps.len() as int) + enc_items(ps) + enc_long(0)
    }
}

/// Wire encoding of a whole record: the four fields in schema order.
pub open spec fn encode_person_spec(p: PersonView) -> Seq<u8> {
    enc_str(p.name) + enc_long(p.age) + enc_email(p.email) + enc_phones(p.phone_numbers)
}

/// Parses a text from the front of `s`.
pub open spec fn parse_str(s: Seq<u8>) -> Option<(Seq<char>, int)> {
    match parse_long(s) {
        None => None,
        Some((n, c)) => if 0 <= n && c + n <= s.len() {
            if valid_utf8(s.subrange(c, c + n)) {
                Some((decode_utf8(s.subrange(c, c + n)), c + n))
            } else {
                None
            }
        } else {
            None
        },
    }
}

/// Parses the age from the front of `s`: a signed integer that must fit
/// 32 bits.
pub open spec fn parse_age(s: Seq<u8>) -> Option<(int, int)> {
    match parse_long(s) {
        None => None,
        Some((n, c)) => if -0x8000_0000 <= n < 0x8000_0000 {
            Some((n, c))
        } else {
            None
        },
    }
}

/// Parses the optional email from the front of `s`: branch index 0 is
/// absent, branch index 1 carries a text.
pub open spec fn parse_email(s: Seq<u8>) -> Option<(Option<Seq<char>>, int)> {
    match parse_long(s) {
        None => None,
        Some((tag, c)) => if tag == 0 {
            Some((None, c))
        } else if tag == 1 {
            match parse_str(s.subrange(c, s.len() as int)) {
                None => None,
                Some((x, c2)) => Some((Some(x), c + c2)),
            }
        } else {
            None
        },
    }
}

/// Parses exactly `k` consecutive texts from the front of `s`.
pub open spec fn parse_items(s: Seq<u8>, k: nat) -> Option<(Seq<Seq<char>>, int)>
    decreases k,
{
    if k == 0 {
        Some((Seq::empty(), 0))
    } else {
        match parse_str(s) {
            None => None,
            Some((x, c)) => if 0 <= c <= s.len() {
                match parse_items(s.subrange(c, s.len() as int), (k - 1) as nat) {
                    None => None,
                    Some((xs, c2)) => Some((seq![x] + xs, c + c2)),
                }
            } else {
                None
            },
        }
    }
}

/// Parses counted blocks of texts until the zero count.  Negative counts
/// are outside this format and rejected.
pub open spec fn parse_blocks(s: Seq<u8>) -> Option<(Seq<Seq<char>>, int)>
    decreases s.len(),
{
    match parse_long(s) {
        None => None,
        Some((k, c)) => if !(1 <= c <= s.len()) {
            None
        } else if k == 0 {
            Some((Seq::empty(), c))
        } else if k > 0 {
            match parse_items(s.subrange(c, s.len() as int), k as nat) {
                None => None,
                Some((xs, c2)) => if 0 <= c2 <= s.len() - c {
                    match parse_blocks(s.subrange(c + c2, s.len() as int)) {
                        None => None,
                        Some((ys, c3)) => Some((xs + ys, c + c2 + c3)),
                    }
                } else {
                    None
                },
            }
        } else {
            None
        },
    }
}

/// Parses a whole record from the front of `s`.
pub open spec fn parse_person(s: Seq<u8>) -> Option<(PersonView, int)> {
    match parse_str(s) {
        None => None,
        Some((name, c1)) => if 0 <= c1 <= s.len() {
            match parse_age(s.subrange(c1, s.len() as int)) {
                None => None,
                Some((age, c2)) => if 0 <= c2 <= s.len() - c1 {
                    match parse_email(s.subrange(c1 + c2, s.len() as int)) {
                        None => None,
                        Some((email, c3)) => if 0 <= c3 <= s.len() - c1 - c2 {
                            match parse_blocks(s.subrange(c1 + c2 + c3, s.len() as int)) {
                                None => None,
                                Some((phones, c4)) => Some(
                                    (
                                        PersonView {
                                            name,
                                            age,
                                            email,
                                            phone_numbers: phones,
                                        },
                                        c1 + c2 + c3 + c4,
                                    ),
                                ),
                            }
                        } else {
                            None
                        },
                    }
                } else {
                    None
                },
            }
        } else {
            None
        },
    }
}

/// What decoding a byte string means: a record parse that consumes every
/// byte; anything else is malformed.
pub open spec fn decode_person_spec(s: Seq<u8>) -> Option<PersonView> {
    match parse_person(s) {
        None => None,
        Some((p, c)) => if c == s.len() {
            Some(p)
        } else {
            None
        },
    }
}

/// Every character encodes to at most four bytes.
pub proof fn lemma_encode_utf8_len(s: Seq<char>)
    ensures
        encode_utf8(s).len() <= 4 * s.len(),
    decreases s.len(),
{
    if s.len() > 0 {
        lemma_encode_utf8_len(s.drop_first());
        assert(vstd::utf8::encode_scalar(s[0] as u32).len() <= 4);
    }
}

/// A decimal representation has at least one digit and no more digits
/// than the value plus one.
proof fn lemma_dec_rep_len(n: nat)
    ensures
        1 <= crate::strnum::dec_rep(n).len() <= n + 1,
    decreases n,
{
    if n >= 10 {
        lemma_dec_rep_len(n / 10);
    }
}

/// Every record the generator produces is well formed for the wire
/// format.
pub proof fn lemma_gen_person_wf(i: int)
    requires
        0 <= i < 0x8000_0000,
    ensures
        person_wf(crate::person::gen_person(i)),
{
    reveal_strlit("Person_");
    reveal_strlit("person");
    reveal_strlit("@example.com");
    reveal_strlit("+1-555-");
    let p = crate::person::gen_person(i);
    lemma_dec_rep_len(i as nat);
    assert(p.name.len() <= 8 + i);
    lemma_encode_utf8_len(p.name);
    assert(wf_text(p.name));
    if i % 3 == 0 {
        let e = p.email.unwrap();
        assert(e.len() <= 19 + i);
        lemma_encode_utf8_len(e);
        assert(wf_text(e));
    }
    assert(p.phone_numbers.len() == 1 + i % 3);
    assert forall|k: int| 0 <= k < p.phone_numbers.len() implies wf_text(
        #[trigger] p.phone_numbers[k],
    ) by {
        let ph = p.phone_numbers[k];
        assert(ph == crate::person::gen_phone(i, k));
        lemma_dec_rep_len((i * 10 + k) as nat);
        assert(ph.len() <= 7 + 3 + (i * 10 + k) + 1);
        lemma_encode_utf8_len(ph);
    }
}

/// Any encoded integer takes at least one byte.
proof fn lemma_enc_long_min_len(n: int)
    ensures
        enc_long(n).len() >= 1,
{
}

/// Parsing a text out of the front of any longer stream recovers the
/// text and consumes exactly its encoding.
proof fn lemma_parse_str_enc(x: Seq<char>, rest: Seq<u8>)
    requires
        wf_text(x),
    ensures
        parse_str(enc_str(x) + rest) == Some((x, enc_str(x).len() as int)),
        enc_str(x).len() >= 1,
{
    let bs = encode_utf8(x);
    let e = enc_long(bs.len() as int);
    let s = enc_str(x) + rest;
    assert(s =~= e + (bs + rest));
    lemma_parse_long_enc(bs.len() as int, bs + rest);
    let c = e.len() as int;
    let n = bs.len() as int;
    assert(parse_long(s) == Some((n, c)));
    assert(s.subrange(c, c + n) =~= bs);
    encode_utf8_valid_utf8(x);
    encode_utf8_decode_utf8(x);
}

/// Parsing the optional email out of the front of any longer stream
/// recovers it and consumes exactly its encoding.
proof fn lemma_parse_email_enc(e: Option<Seq<char>>, rest: Seq<u8>)
    requires
        match e {
            Some(x) => wf_text(x),
            None => true,
        },
    ensures
        parse_email(enc_email(e) + rest) == Some((e, enc_email(e).len() as int)),
{
    match e {
        None => {
            lemma_parse_long_enc(0, rest);
        },
        Some(x) => {
            let s = enc_email(e) + rest;
            assert(s =~= enc_long(1) + (enc_str(x) + rest));
            lemma_parse_long_enc(1, enc_str(x) + rest);
            let c = enc_long(1).len() as int;
            assert(s.subrange(c, s.len() as int) =~= enc_str(x) + rest);
            lemma_parse_str_enc(x, rest);
        },
    }
}

/// Parsing a run of texts out of the front of any longer stream recovers
/// them all and consumes exactly their encodings.
proof fn lemma_parse_items_enc(ps: Seq<Seq<char>>, rest: Seq<u8>)
    requires
        forall|k: int| 0 <= k < ps.len() ==> wf_text(#[trigger] ps[k]),
    ensures
        parse_items(enc_items(ps) + rest, ps.len()) == Some((ps, enc_items(ps).len() as int)),
    decreases ps.len(),
{
    if ps.len() == 0 {
        assert(enc_items(ps) + rest =~= rest);
    } else {
        let x = ps[0];
        let tail_ps = ps.drop_first();
        let s = enc_items(ps) + rest;
        assert(s =~= enc_str(x) + (enc_items(tail_ps) + rest));
        lemma_parse_str_enc(x, enc_items(tail_ps) + rest);
        let c = enc_str(x).len() as int;
        assert(s.subrange(c, s.len() as int) =~= enc_items(tail_ps) + rest);
        lemma_parse_items_enc(tail_ps, rest);
        assert(seq![x] + tail_ps =~= ps);
    }
}

/// Parsing the phone list out of the front of any longer stream recovers
/// it and consumes exactly its encoding.
proof fn lemma_parse_blocks_enc(ps: Seq<Seq<char>>, rest: Seq<u8>)
    requires
        ps.len() < 0x8000_0000_0000_0000,
        forall|k: int| 0 <= k < ps.len() ==> wf_text(#[trigger] ps[k]),
    ensures
        parse_blocks(enc_phones(ps) + rest) == Some((ps, enc_phones(ps).len() as int)),
{
    if ps.len() == 0 {
        lemma_parse_long_enc(0, rest);
        lemma_enc_long_min_len(0);
    } else {
        let n = ps.len() as int;
        let s = enc_phones(ps) + rest;
        let after_count = enc_items(ps) + (enc_long(0) + rest);
        assert(s =~= enc_long(n) + after_count);
        lemma_parse_long_enc(n, after_count);
        lemma_enc_long_min_len(n);
        let c = enc_long(n).len() as int;
        assert(s.subrange(c, s.len() as int) =~= after_count);
        lemma_parse_items_enc(ps, enc_long(0) + rest);
        let c2 = enc_items(ps).len() as int;
        assert(after_count.subrange(c2, after_count.len() as int) =~= enc_long(0) + rest);
        assert(s.subrange(c + c2, s.len() as int) =~= enc_long(0) + rest);
        lemma_parse_long_enc(0, rest);
        lemma_enc_long_min_len(0);
        assert(parse_blocks(s.subrange(c + c2, s.len() as int)) == Some(
            (Seq::<Seq<char>>::empty(), enc_long(0).len() as int),
        ));
        assert(ps + Seq::<Seq<char>>::empty() =~= ps);
    }
}

/// Parsing a record out of the front of any longer stream recovers the
/// record and consumes exactly its encoding.
pub proof fn lemma_parse_person_enc(p: PersonView, rest: Seq<u8>)
    requires
        person_wf(p),
    ensures
        parse_person(encode_person_spec(p) + rest) == Some(
            (p, encode_person_spec(p).len() as int),
        ),
        encode_person_spec(p).len() >= 1,
{
    let s = encode_person_spec(p) + rest;
    let r1 = enc_long(p.age) + (enc_email(p.email) + (enc_phones(p.phone_numbers) + rest));
    assert(s =~= enc_str(p.name) + r1);
    lemma_parse_str_enc(p.name, r1);
    let c1 = enc_str(p.name).len() as int;

    let r2 = enc_email(p.email) + (enc_phones(p.phone_numbers) + rest);
    assert(s.subrange(c1, s.len() as int) =~= enc_long(p.age) + r2);
    lemma_parse_long_enc(p.age, r2);
    let c2 = enc_long(p.age).len() as int;

    let r3 = enc_phones(p.phone_numbers) + rest;
    assert(s.subrange(c1 + c2, s.len() as int) =~= enc_email(p.email) + r3);
    lemma_parse_email_enc(p.email, r3);
    let c3 = enc_email(p.email).len() as int;

    assert(s.subrange(c1 + c2 + c3, s.len() as int) =~= enc_phones(p.phone_numbers) + rest);
    lemma_parse_blocks_enc(p.phone_numbers, rest);
    let c4 = enc_phones(p.phone_numbers).len() as int;

    assert(parse_person(s) == Some(
        (
            PersonView {
                name: p.name,
                age: p.age,
                email: p.email,
                phone_numbers: p.phone_numbers,
            },
            c1 + c2 + c3 + c4,
        ),
    ));
    assert(PersonView { name: p.name, age: p.age, email: p.email, phone_numbers: p.phone_numbers }
        == p);
    assert(c1 + c2 + c3 + c4 == encode_person_spec(p).len());
}

/// Round-trip law: decoding the encoding of any well-formed record gives
/// the record back, unchanged.
pub proof fn lemma_codec_roundtrip(p: PersonView)
    requires
        person_wf(p),
    ensures
        decode_person_spec(encode_person_spec(p)) == Some(p),
{
    lemma_parse_person_enc(p, Seq::<u8>::empty());
    assert(encode_person_spec(p) + Seq::<u8>::empty() =~= encode_person_spec(p));
}

/// Relies on str::from_utf8: it succeeds exactly on well-formed UTF-8 and
/// returns the text those bytes spell.
#[verifier::external_body]
fn bytes_to_str(b: &[u8]) -> (r: Option<&str>)
    ensures
        match r {
            Some(t) => valid_utf8(b@) && t@ == decode_utf8(b@),
            None => !valid_utf8(b@),
        },
{
    core::str::from_utf8(b).ok()
}

/// Appends the wire encoding of a text to `out`.
fn encode_str_into(out: &mut Vec<u8>, s: &str)
    requires
        wf_text(s@),
    ensures
        final(out)@ == old(out)@ + enc_str(s@),
{
    let bytes: &[u8] = s.as_bytes();
    proof {
        assert(bytes@ == encode_utf8(s@));
    }
    encode_long(out, bytes.len() as i64);
    let ghost mid = out@;
    let mut i: usize = 0;
    while i < bytes.len()
        invariant
            mid == old(out)@ + enc_long(encode_utf8(s@).len() as int),
            i <= bytes@.len(),
            bytes@ == encode_utf8(s@),
            out@ == mid + bytes@.subrange(0, i as int),
        decreases bytes@.len() - i,
    {
        out.push(bytes[i]);
        proof {
            assert(out@ =~= mid + bytes@.subrange(0, i + 1));
        }
        i = i + 1;
    }
    proof {
        assert(bytes@.subrange(0, bytes@.len() as int) =~= bytes@);
        assert(out@ =~= old(out)@ + enc_str(s@));
    }
}

/// `enc_items` distributes over appending one more text at the end.
proof fn lemma_enc_items_push(ps: Seq<Seq<char>>, x: Seq<char>)
    ensures
        enc_items(ps.push(x)) == enc_items(ps) + enc_str(x),
    decreases ps.len(),
{
    if ps.len() == 0 {
        assert(ps.push(x)[0] == x);
        assert(ps.push(x).drop_first() =~= Seq::<Seq<char>>::empty());
        assert(enc_items(ps.push(x)) == enc_str(x) + enc_items(
            Seq::<Seq<char>>::empty(),
        ));
        assert(enc_items(ps.push(x)) =~= enc_items(ps) + enc_str(x));
    } else {
        lemma_enc_items_push(ps.drop_first(), x);
        assert(ps.push(x).drop_first() =~= ps.drop_first().push(x));
        assert(ps.push(x)[0] == ps[0]);
        assert(enc_items(ps.push(x)) == enc_str(ps[0]) + enc_items(ps.drop_first().push(x)));
        assert(enc_items(ps.push(x)) == enc_str(ps[0]) + (enc_items(ps.drop_first()) + enc_str(
            x,
        )));
        assert(enc_items(ps.push(x)) =~= enc_items(ps) + enc_str(x));
    }
}

/// Encodes one record to bytes, exactly as `encode_person_spec` says.
pub fn encode_person(p: &Person) -> (out: Vec<u8>)
    requires
        person_wf(p@),
    ensures
        out@ == encode_person_spec(p@),
{
    let mut out: Vec<u8> = Vec::new();
    encode_str_into(&mut out, p.name.as_str());
    let ghost after_name = out@;
    encode_long(&mut out, p.age as i64);
    let ghost after_age = out@;
    match &p.email {
        None => {
            encode_long(&mut out, 0);
        },
        Some(e) => {
            encode_long(&mut out, 1);
            encode_str_into(&mut out, e.as_str());
        },
    }
    proof {
        assert(out@ =~= after_age + enc_email(p@.email));
    }
    let ghost after_email = out@;

    let n = p.phone_numbers.len();
    if n > 0 {
        encode_long(&mut out, n as i64);
        let ghost after_count = out@;
        let mut i: usize = 0;
        while i < n
            invariant
                i <= n,
                n == p.phone_numbers@.len(),
                person_wf(p@),
                after_count == after_email + enc_long(n as int),
                out@ == after_count + enc_items(p@.phone_numbers.subrange(0, i as int)),
            decreases n - i,
        {
            let ghost prefix = p@.phone_numbers.subrange(0, i as int);
            proof {
                assert(p@.phone_numbers[i as int] == p.phone_numbers@[i as int]@);
                assert(wf_text(p@.phone_numbers[i as int]));
            }
            encode_str_into(&mut out, p.phone_numbers[i].as_str());
            proof {
                lemma_enc_items_push(prefix, p@.phone_numbers[i as int]);
                assert(p@.phone_numbers.subrange(0, i + 1) =~= prefix.push(
                    p@.phone_numbers[i as int],
                ));
                assert(out@ =~= after_count + enc_items(p@.phone_numbers.subrange(0, i + 1)));
            }
            i = i + 1;
        }
        encode_long(&mut out, 0);
        proof {
            assert(p@.phone_numbers.subrange(0, n as int) =~= p@.phone_numbers);
            assert(out@ =~= after_email + enc_phones(p@.phone_numbers));
        }
    } else {
        encode_long(&mut out, 0);
        proof {
            assert(out@ =~= after_email + enc_phones(p@.phone_numbers));
        }
    }
    proof {
        assert(out@ =~= encode_person_spec(p@));
    }
    out
}

/// Decodes a text at `pos`, exactly following `parse_str` on the
/// remaining bytes.
fn decode_str_at(s: &[u8], pos: usize) -> (r: Option<(String, usize)>)
    requires
        pos <= s@.len(),
    ensures
        match r {
            Some(p) => parse_str(s@.subrange(pos as int, s@.len() as int)) == Some(
                (p.0@, p.1 as int),
            ) && 1 <= p.1 <= s@.len() - pos,
            None => parse_str(s@.subrange(pos as int, s@.len() as int)) is None,
        },
{
    let ghost tail = s@.subrange(pos as int, s@.len() as int);
    match decode_long_at(s, pos) {
        None => None,
        Some((n, c)) => {
            if n < 0 {
                return None;
            }
            let rem = s.len() - pos - c;
            if (n as u64) > (rem as u64) {
                return None;
            }
            let start = pos + c;
            let end = start + (n as usize);
            let sub = slice_subrange(s, start, end);
            proof {
                assert(sub@ =~= tail.subrange(c as int, c as int + n as int));
            }
            match bytes_to_str(sub) {
                None => None,
                Some(t) => {
                    let owned = t.to_owned();
                    Some((owned, c + (n as usize)))
                },
            }
        },
    }
}

/// Decodes the optional email at `pos`, exactly following `parse_email`.
fn decode_email_at(s: &[u8], pos: usize) -> (r: Option<(Option<String>, usize)>)
    requires
        pos <= s@.len(),
    ensures
        match r {
            Some(p) => parse_email(s@.subrange(pos as int, s@.len() as int)) == Some(
                (p.0.deep_view(), p.1 as int),
            ) && 1 <= p.1 <= s@.len() - pos,
            None => parse_email(s@.subrange(pos as int, s@.len() as int)) is None,
        },
{
    let ghost tail = s@.subrange(pos as int, s@.len() as int);
    let slen = s.len();
    match decode_long_at(s, pos) {
        None => None,
        Some((tag, c)) => {
            if tag == 0 {
                Some((None, c))
            } else if tag == 1 {
                proof {
                    assert(s@.subrange(pos + c, s@.len() as int) =~= tail.subrange(
                        c as int,
                        tail.len() as int,
                    ));
                }
                match decode_str_at(s, pos + c) {
                    None => None,
                    Some((x, c2)) => Some((Some(x), c + c2)),
                }
            } else {
                None
            }
        },
    }
}

/// Decodes exactly `k` consecutive texts at `pos`, exactly following
/// `parse_items`.
fn decode_items_at(s: &[u8], pos: usize, k: u64) -> (r: Option<(Vec<String>, usize)>)
    requires
        pos <= s@.len(),
    ensures
        match r {
            Some(p) => parse_items(s@.subrange(pos as int, s@.len() as int), k as nat) == Some(
                (p.0.deep_view(), p.1 as int),
            ) && p.1 <= s@.len() - pos,
            None => parse_items(s@.subrange(pos as int, s@.len() as int), k as nat) is None,
        },
    decreases k,
{
    let ghost tail = s@.subrange(pos as int, s@.len() as int);
    let slen = s.len();
    if k == 0 {
        let empty: Vec<String> = Vec::new();
        proof {
            assert(empty.deep_view() =~= Seq::<Seq<char>>::empty());
        }
        Some((empty, 0))
    } else {
        match decode_str_at(s, pos) {
            None => None,
            Some((x, c)) => {
                proof {
                    assert(s@.subrange(pos + c, s@.len() as int) =~= tail.subrange(
                        c as int,
                        tail.len() as int,
                    ));
                }
                match decode_items_at(s, pos + c, k - 1) {
                    None => None,
                    Some((mut xs, c2)) => {
                        let ghost xs_before = xs.deep_view();
                        xs.insert(0, x);
                        proof {
                            assert(xs.deep_view() =~= seq![x@] + xs_before);
                        }
                        Some((xs, c + c2))
                    },
                }
            },
        }
    }
}

/// Decodes counted blocks of texts at `pos` until the zero count,
/// exactly following `parse_blocks`.
fn decode_blocks_at(s: &[u8], pos: usize) -> (r: Option<(Vec<String>, usize)>)
    requires
        pos <= s@.len(),
    ensures
        match r {
            Some(p) => parse_blocks(s@.subrange(pos as int, s@.len() as int)) == Some(
                (p.0.deep_view(), p.1 as int),
            ) && 1 <= p.1 <= s@.len() - pos,
            None => parse_blocks(s@.subrange(pos as int, s@.len() as int)) is None,
        },
    decreases s@.len() - pos,
{
    let ghost tail = s@.subrange(pos as int, s@.len() as int);
    let slen = s.len();
    match decode_long_at(s, pos) {
        None => None,
        Some((k, c)) => {
            if k == 0 {
                let empty: Vec<String> = Vec::new();
                proof {
                    assert(empty.deep_view() =~= Seq::<Seq<char>>::empty());
                }
                Some((empty, c))
            } else if k > 0 {
                proof {
                    assert(s@.subrange(pos + c, s@.len() as int) =~= tail.subrange(
                        c as int,
                        tail.len() as int,
                    ));
                }
                match decode_items_at(s, pos + c, k as u64) {
                    None => None,
                    Some((mut xs, c2)) => {
                        proof {
                            assert(s@.subrange(pos + c + c2, s@.len() as int) =~= tail.subrange(
                                c + c2,
                                tail.len() as int,
                            ));
                        }
                        match decode_blocks_at(s, pos + c + c2) {
                            None => None,
                            Some((mut ys, c3)) => {
                                let ghost xs_before = xs.deep_view();
                                let ghost ys_before = ys.deep_view();
                                xs.append(&mut ys);
                                proof {
                                    assert(xs.deep_view() =~= xs_before + ys_before);
                                }
                                Some((xs, c + c2 + c3))
                            },
                        }
                    },
                }
            } else {
                None
            }
        },
    }
}

/// Decodes one record at `pos`, exactly following `parse_person` on the
/// remaining bytes.
pub(crate) fn decode_person_at(bytes: &[u8], pos: usize) -> (r: Option<(Person, usize)>)
    requires
        pos <= bytes@.len(),
    ensures
        match r {
            Some(p) => parse_person(bytes@.subrange(pos as int, bytes@.len() as int)) == Some(
                (p.0@, p.1 as int),
            ) && 1 <= p.1 <= bytes@.len() - pos,
            None => parse_person(bytes@.subrange(pos as int, bytes@.len() as int)) is None,
        },
{
    let ghost whole = bytes@.subrange(pos as int, bytes@.len() as int);
    let blen = bytes.len();
    let (name, c1) = match decode_str_at(bytes, pos) {
        None => {
            return None;
        },
        Some(p) => p,
    };
    proof {
        assert(bytes@.subrange(pos + c1, bytes@.len() as int) =~= whole.subrange(
            c1 as int,
            whole.len() as int,
        ));
    }
    let (age64, c2) = match decode_long_at(bytes, pos + c1) {
        None => {
            return None;
        },
        Some(p) => p,
    };
    if age64 < -0x8000_0000i64 || age64 >= 0x8000_0000i64 {
        return None;
    }
    let age: i32 = age64 as i32;
    proof {
        assert(bytes@.subrange(pos + c1 + c2, bytes@.len() as int) =~= whole.subrange(
            c1 + c2,
            whole.len() as int,
        ));
    }
    let (email, c3) = match decode_email_at(bytes, pos + c1 + c2) {
        None => {
            return None;
        },
        Some(p) => p,
    };
    proof {
        assert(bytes@.subrange(pos + c1 + c2 + c3, bytes@.len() as int) =~= whole.subrange(
            c1 + c2 + c3,
            whole.len() as int,
        ));
    }
    let (phones, c4) = match decode_blocks_at(bytes, pos + c1 + c2 + c3) {
        None => {
            return None;
        },
        Some(p) => p,
    };
    let p = Person { name, age, email, phone_numbers: phones };
    proof {
        assert(parse_person(whole) == Some((p@, (c1 + c2 + c3 + c4) as int)));
    }
    Some((p, c1 + c2 + c3 + c4))
}

/// Decodes one record from `bytes`, exactly following
/// `decode_person_spec`: the record the bytes spell, or `None` where the
/// bytes are truncated, ill-formed, out of range, or not fully consumed.
pub fn decode_person(bytes: &[u8]) -> (r: Option<Person>)
    ensures
        match r {
            Some(p) => decode_person_spec(bytes@) == Some(p@),
            None => decode_person_spec(bytes@) is None,
        },
{
    proof {
        assert(bytes@.subrange(0, bytes@.len() as int) =~= bytes@);
    }
    match decode_person_at(bytes, 0) {
        None => None,
        Some((p, c)) => {
            if c != bytes.len() {
                None
            } else {
                Some(p)
            }
        },
    }
}

} // verus!
