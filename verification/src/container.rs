//! The container file format of the intermediate-value variant: a
//! self-describing byte stream bundling the schema literal, the
//! compression codec name and a sync marker, followed by counted blocks
//! of encoded records.  The writer and reader work on in-memory bytes;
//! putting them on disk is plain I/O left to the driver.

use vstd::prelude::*;

use vstd::utf8::encode_utf8;
use vstd::slice::{slice_subrange, slice_to_vec};
use crate::cli::Compression;
use crate::codec::{enc_str, encode_person, encode_person_spec, parse_person, person_wf};
use crate::codec::{decode_person_at, lemma_encode_utf8_len};
use crate::person::{Person, PersonView};
use crate::varint::{enc_long, parse_long};
use crate::varint::{decode_long_at, encode_long};

verus! {

/// What miniz_oxide's DEFLATE compressor returns for the given input at
/// the fixed level this crate uses: a function of the input alone.
pub uninterp spec fn deflate_of(b: Seq<u8>) -> Seq<u8>;

/// What miniz_oxide's DEFLATE decompressor returns for the given stream:
/// the recovered bytes, or nothing where the stream is not DEFLATE.
pub uninterp spec fn inflate_of(b: Seq<u8>) -> Option<Seq<u8>>;

/// Relies on miniz_oxide::deflate::compress_to_vec: at a fixed level the
/// stream is a function of the input alone, and decompressing it yields
/// the input back.
#[verifier::external_body]
fn deflate_bytes(b: &[u8]) -> (r: Vec<u8>)
    ensures
        r@ == deflate_of(b@),
        inflate_of(r@) == Some(b@),
{
    miniz_oxide::deflate::compress_to_vec(b, 6)
}

/// Relies on miniz_oxide::inflate::decompress_to_vec: deterministic in
/// its input, and it fails exactly where the stream is not DEFLATE.
#[verifier::external_body]
fn inflate_bytes(b: &[u8]) -> (r: Option<Vec<u8>>)
    ensures
        match r {
            Some(x) => inflate_of(b@) == Some(x@),
            None => inflate_of(b@) is None,
        },
{
    miniz_oxide::inflate::decompress_to_vec(b).ok()
}

/// The four magic bytes that open a container stream.
pub open spec fn magic_spec() -> Seq<u8> {
    seq![79u8, 98u8, 106u8, 1u8]
}

/// The schema of the records, as the JSON literal every container
/// carries.  The field order is part of the wire contract.
pub open spec fn schema_chars() -> Seq<char> {
    "{\"type\":\"record\",\"name\":\"Person\",\"fields\":[{\"name\":\"name\",\"type\":\"string\"},{\"name\":\"age\",\"type\":\"int\"},{\"name\":\"email\",\"type\":[\"null\",\"string\"]},{\"name\":\"phone_numbers\",\"type\":{\"type\":\"array\",\"items\":\"string\"}}]}"@
}

/// The fixed record schema as a JSON literal.
pub fn schema_json() -> (r: &'static str)
    ensures
        r@ == schema_chars(),
{
    "{\"type\":\"record\",\"name\":\"Person\",\"fields\":[{\"name\":\"name\",\"type\":\"string\"},{\"name\":\"age\",\"type\":\"int\"},{\"name\":\"email\",\"type\":[\"null\",\"string\"]},{\"name\":\"phone_numbers\",\"type\":{\"type\":\"array\",\"items\":\"string\"}}]}"
}

/// The name a compression codec goes by in the container metadata.
pub open spec fn codec_name(c: Compression) -> Seq<char> {
    match c {
        Compression::Null => "null"@,
        Compression::Deflate => "deflate"@,
    }
}

/// Wire encoding of a length-prefixed byte string.
pub open spec fn enc_bytes(b: Seq<u8>) -> Seq<u8> {
    enc_long(b.len() as int) + b
}

/// The container metadata: a two-entry map from names to byte strings,
/// holding the schema literal and the codec name, ended by a zero count.
pub open spec fn meta_spec(c: Compression) -> Seq<u8> {
    enc_long(2) + enc_str("avro.schema"@) + enc_bytes(encode_utf8(schema_chars())) + enc_str(
        "avro.codec"@,
    ) + enc_bytes(encode_utf8(codec_name(c))) + enc_long(0)
}

/// The models of the records a sequence of typed records carries.
pub open spec fn views_of(rs: Seq<Person>) -> Seq<PersonView> {
    Seq::new(rs.len(), |k: int| rs[k]@)
}

/// Wire encoding of a run of records, one after the other.
pub open spec fn enc_records(rs: Seq<PersonView>) -> Seq<u8>
    decreases rs.len(),
{
    if rs.len() == 0 {
        Seq::empty()
    } else {
        encode_person_spec(rs[0]) + enc_records(rs.drop_first())
    }
}

/// The block data of a container: the encoded records, compressed as the
/// codec says.
pub open spec fn body_of(rs: Seq<PersonView>, c: Compression) -> Seq<u8> {
    match c {
        Compression::Null => enc_records(rs),
        Compression::Deflate => deflate_of(enc_records(rs)),
    }
}

/// A whole container: magic, metadata, sync marker, and one counted
/// block of records (none when there are no records), each block closed
/// by the sync marker.
pub open spec fn container_spec(rs: Seq<PersonView>, c: Compression, sync: Seq<u8>) -> Seq<u8> {
    let header = magic_spec() + meta_spec(c) + sync;
    if rs.len() == 0 {
        header
    } else {
        header + enc_long(rs.len() as int) + enc_long(body_of(rs, c).len() as int) + body_of(
            rs,
            c,
        ) + sync
    }
}

/// The machine bounds the writer checks: every length that gets a
/// 64-bit prefix must fit it.
pub open spec fn write_lens_ok(rs: Seq<PersonView>, c: Compression) -> bool {
    &&& rs.len() < 0x8000_0000_0000_0000
    &&& rs.len() > 0 ==> body_of(rs, c).len() < 0x8000_0000_0000_0000
}

/// Appends `b` to `out`.
fn append_raw(out: &mut Vec<u8>, b: &[u8])
    ensures
        final(out)@ == old(out)@ + b@,
{
    let n = b.len();
    let mut i: usize = 0;
    while i < n
        invariant
            i <= n,
            n == b@.len(),
            out@ == old(out)@ + b@.subrange(0, i as int),
        decreases n - i,
    {
        out.push(b[i]);
        proof {
            assert(out@ =~= old(out)@ + b@.subrange(0, i + 1));
        }
        i = i + 1;
    }
    proof {
        assert(b@.subrange(0, n as int) =~= b@);
    }
}

/// `enc_records` distributes over appending one more record at the end.
proof fn lemma_enc_records_push(rs: Seq<PersonView>, p: PersonView)
    ensures
        enc_records(rs.push(p)) == enc_records(rs) + encode_person_spec(p),
    decreases rs.len(),
{
    if rs.len() == 0 {
        assert(rs.push(p)[0] == p);
        assert(rs.push(p).drop_first() =~= Seq::<PersonView>::empty());
        assert(enc_records(rs.push(p)) == encode_person_spec(p) + enc_records(
            Seq::<PersonView>::empty(),
        ));
        assert(enc_records(rs.push(p)) =~= enc_records(rs) + encode_person_spec(p));
    } else {
        lemma_enc_records_push(rs.drop_first(), p);
        assert(rs.push(p).drop_first() =~= rs.drop_first().push(p));
        assert(enc_records(rs.push(p)) == encode_person_spec(rs[0]) + enc_records(
            rs.drop_first().push(p),
        ));
        assert(enc_records(rs.push(p)) =~= enc_records(rs) + encode_person_spec(p));
    }
}

/// Encodes every record, one after the other.
fn encode_all(records: &Vec<Person>) -> (out: Vec<u8>)
    requires
        forall|k: int| 0 <= k < records@.len() ==> person_wf(#[trigger] records@[k]@),
    ensures
        out@ == enc_records(views_of(records@)),
{
    let mut out: Vec<u8> = Vec::new();
    let n = records.len();
    let mut i: usize = 0;
    while i < n
        invariant
            i <= n,
            n == records@.len(),
            forall|k: int| 0 <= k < records@.len() ==> person_wf(#[trigger] records@[k]@),
            out@ == enc_records(views_of(records@).subrange(0, i as int)),
        decreases n - i,
    {
        let ghost prefix = views_of(records@).subrange(0, i as int);
        let one = encode_person(&records[i]);
        append_raw(&mut out, one.as_slice());
        proof {
            lemma_enc_records_push(prefix, records@[i as int]@);
            assert(views_of(records@).subrange(0, i + 1) =~= prefix.push(records@[i as int]@));
        }
        i = i + 1;
    }
    proof {
        assert(views_of(records@).subrange(0, n as int) =~= views_of(records@));
    }
    out
}

/// Writes the header: magic, metadata for the codec, sync marker.
fn write_header(c: Compression, sync: &[u8]) -> (out: Vec<u8>)
    requires
        sync@.len() == 16,
    ensures
        out@ == magic_spec() + meta_spec(c) + sync@,
{
    let mut out = write_header_prefix(c);
    append_raw(&mut out, sync);
    out
}

/// Writes a whole container for the records under the given codec and
/// sync marker, exactly as `container_spec` says; refuses only a body
/// too long for its 64-bit length prefix.
pub fn write_container(records: &Vec<Person>, c: Compression, sync: &[u8]) -> (r: Option<
    Vec<u8>,
>)
    requires
        sync@.len() == 16,
        forall|k: int| 0 <= k < records@.len() ==> person_wf(#[trigger] records@[k]@),
    ensures
        match r {
            Some(out) => write_lens_ok(views_of(records@), c) && out@ == container_spec(
                views_of(records@),
                c,
                sync@,
            ),
            None => !write_lens_ok(views_of(records@), c),
        },
        r is Some && c is Deflate && records@.len() > 0 ==> inflate_of(
            deflate_of(enc_records(views_of(records@))),
        ) == Some(enc_records(views_of(records@))),
{
    let ghost rs = views_of(records@);
    let mut out = write_header(c, sync);
    if records.len() == 0 {
        return Some(out);
    }
    if records.len() as u64 > 0x7fff_ffff_ffff_ffffu64 {
        return None;
    }
    let payload = encode_all(records);
    let body: Vec<u8> = match c {
        Compression::Null => payload,
        Compression::Deflate => deflate_bytes(payload.as_slice()),
    };
    proof {
        assert(body@ == body_of(rs, c));
    }
    if body.len() as u64 > 0x7fff_ffff_ffff_ffffu64 {
        return None;
    }
    encode_long(&mut out, records.len() as i64);
    encode_long(&mut out, body.len() as i64);
    append_raw(&mut out, body.as_slice());
    append_raw(&mut out, sync);
    proof {
        assert(out@ =~= container_spec(rs, c, sync@));
    }
    Some(out)
}

/// Parses exactly `k` records filling the whole of `s`.
pub open spec fn parse_persons(s: Seq<u8>, k: nat) -> Option<Seq<PersonView>>
    decreases k,
{
    if k == 0 {
        if s.len() == 0 {
            Some(Seq::empty())
        } else {
            None
        }
    } else {
        match parse_person(s) {
            None => None,
            Some((p, c)) => if 0 <= c <= s.len() {
                match parse_persons(s.subrange(c, s.len() as int), (k - 1) as nat) {
                    None => None,
                    Some(ps) => Some(seq![p] + ps),
                }
            } else {
                None
            },
        }
    }
}

/// Parses the head of a counted block: the record count, the body
/// length, and how many bytes the two take.
pub open spec fn parse_block_head(s: Seq<u8>) -> Option<(int, int, int)> {
    match parse_long(s) {
        None => None,
        Some((k, c1)) => if !(1 <= c1 <= s.len()) || k < 1 {
            None
        } else {
            match parse_long(s.subrange(c1, s.len() as int)) {
                None => None,
                Some((z, c2)) => if !(1 <= c2) || z < 0 || c1 + c2 + z + 16 > s.len() {
                    None
                } else {
                    Some((k, z, c1 + c2))
                },
            }
        },
    }
}

/// Parses the counted blocks after the header: each holds a record
/// count, a body length, the body (decompressed as the codec says) that
/// must parse to exactly that many records, and the sync marker.
pub open spec fn parse_cblocks(s: Seq<u8>, sync: Seq<u8>, c: Compression) -> Option<
    Seq<PersonView>,
>
    decreases s.len(),
{
    if s.len() == 0 {
        Some(Seq::empty())
    } else {
        match parse_block_head(s) {
            None => None,
            Some((k, z, hc)) => if !(1 <= hc && 0 <= z && hc + z + 16 <= s.len()) {
                None
            } else {
                let body = s.subrange(hc, hc + z);
                let payload = match c {
                    Compression::Null => Some(body),
                    Compression::Deflate => inflate_of(body),
                };
                match payload {
                    None => None,
                    Some(pl) => match parse_persons(pl, k as nat) {
                        None => None,
                        Some(ps) => if s.subrange(hc + z, hc + z + 16) == sync {
                            match parse_cblocks(s.subrange(hc + z + 16, s.len() as int), sync, c) {
                                None => None,
                                Some(qs) => Some(ps + qs),
                            }
                        } else {
                            None
                        },
                    },
                }
            },
        }
    }
}

/// What reading a container means: the magic, the exact metadata this
/// writer produces for one of the two codecs, a sync marker, then the
/// blocks; anything else is malformed.
pub open spec fn parse_container(s: Seq<u8>) -> Option<Seq<PersonView>> {
    let hn = (magic_spec() + meta_spec(Compression::Null)).len() as int;
    let hd = (magic_spec() + meta_spec(Compression::Deflate)).len() as int;
    if s.len() >= hn + 16 && s.subrange(0, hn) == magic_spec() + meta_spec(Compression::Null) {
        parse_cblocks(s.subrange(hn + 16, s.len() as int), s.subrange(hn, hn + 16), Compression::Null)
    } else if s.len() >= hd + 16 && s.subrange(0, hd) == magic_spec() + meta_spec(
        Compression::Deflate,
    ) {
        parse_cblocks(
            s.subrange(hd + 16, s.len() as int),
            s.subrange(hd, hd + 16),
            Compression::Deflate,
        )
    } else {
        None
    }
}

/// Compares two byte slices.
fn bytes_eq(a: &[u8], b: &[u8]) -> (r: bool)
    ensures
        r <==> a@ == b@,
{
    if a.len() != b.len() {
        proof {
            assert(a@ != b@);
        }
        return false;
    }
    let n = a.len();
    let mut i: usize = 0;
    while i < n
        invariant
            i <= n,
            n == a@.len() == b@.len(),
            forall|k: int| 0 <= k < i ==> a@[k] == b@[k],
        decreases n - i,
    {
        if a[i] != b[i] {
            return false;
        }
        i = i + 1;
    }
    proof {
        assert(a@ =~= b@);
    }
    true
}

/// Decodes exactly `k` records filling `s` from `pos` on, exactly
/// following `parse_persons`.
fn decode_persons_at(s: &[u8], pos: usize, k: u64) -> (r: Option<Vec<Person>>)
    requires
        pos <= s@.len(),
    ensures
        match r {
            Some(v) => parse_persons(s@.subrange(pos as int, s@.len() as int), k as nat) == Some(
                views_of(v@),
            ),
            None => parse_persons(s@.subrange(pos as int, s@.len() as int), k as nat) is None,
        },
    decreases k,
{
    let ghost tail = s@.subrange(pos as int, s@.len() as int);
    let slen = s.len();
    if k == 0 {
        if pos == slen {
            let empty: Vec<Person> = Vec::new();
            proof {
                assert(views_of(empty@) =~= Seq::<PersonView>::empty());
            }
            Some(empty)
        } else {
            None
        }
    } else {
        match decode_person_at(s, pos) {
            None => None,
            Some((p, c)) => {
                proof {
                    assert(s@.subrange(pos + c, s@.len() as int) =~= tail.subrange(
                        c as int,
                        tail.len() as int,
                    ));
                }
                match decode_persons_at(s, pos + c, k - 1) {
                    None => None,
                    Some(mut v) => {
                        let ghost vb = views_of(v@);
                        v.insert(0, p);
                        proof {
                            assert(views_of(v@) =~= seq![p@] + vb);
                        }
                        Some(v)
                    },
                }
            },
        }
    }
}

/// Decodes the head of a counted block at `pos`, exactly following
/// `parse_block_head`.
fn decode_block_head_at(s: &[u8], pos: usize) -> (r: Option<(i64, usize, usize)>)
    requires
        pos <= s@.len(),
    ensures
        match r {
            Some(p) => parse_block_head(s@.subrange(pos as int, s@.len() as int)) == Some(
                (p.0 as int, p.1 as int, p.2 as int),
            ) && p.0 >= 1 && 2 <= p.2 && p.2 + p.1 + 16 <= s@.len() - pos,
            None => parse_block_head(s@.subrange(pos as int, s@.len() as int)) is None,
        },
{
    let ghost tail = s@.subrange(pos as int, s@.len() as int);
    let slen = s.len();
    let (k, c1) = match decode_long_at(s, pos) {
        None => {
            return None;
        },
        Some(p) => p,
    };
    if k < 1 {
        return None;
    }
    proof {
        assert(s@.subrange(pos + c1, s@.len() as int) =~= tail.subrange(
            c1 as int,
            tail.len() as int,
        ));
    }
    let (z, c2) = match decode_long_at(s, pos + c1) {
        None => {
            return None;
        },
        Some(p) => p,
    };
    if z < 0 {
        return None;
    }
    let rem = slen - pos - c1 - c2;
    if (z as u64) > 0xffff_ffff_ffff_ffefu64 || (z as u64) + 16 > (rem as u64) {
        return None;
    }
    Some((k, z as usize, c1 + c2))
}

/// Decodes the counted blocks from `pos` on, exactly following
/// `parse_cblocks`.
#[verifier::rlimit(100)]
fn decode_cblocks_at(s: &[u8], pos: usize, sync: &[u8], c: Compression) -> (r: Option<
    Vec<Person>,
>)
    requires
        pos <= s@.len(),
    ensures
        match r {
            Some(v) => parse_cblocks(s@.subrange(pos as int, s@.len() as int), sync@, c) == Some(
                views_of(v@),
            ),
            None => parse_cblocks(s@.subrange(pos as int, s@.len() as int), sync@, c) is None,
        },
    decreases s@.len() - pos,
{
    let ghost tail = s@.subrange(pos as int, s@.len() as int);
    let slen = s.len();
    if pos == slen {
        let empty: Vec<Person> = Vec::new();
        proof {
            assert(views_of(empty@) =~= Seq::<PersonView>::empty());
        }
        return Some(empty);
    }
    let (k, zu, hc) = match decode_block_head_at(s, pos) {
        None => {
            return None;
        },
        Some(p) => p,
    };
    let start = pos + hc;
    let body = slice_subrange(s, start, start + zu);
    proof {
        assert(body@ =~= tail.subrange(hc as int, hc + zu));
    }
    let payload: Vec<u8> = match c {
        Compression::Null => slice_to_vec(body),
        Compression::Deflate => {
            match inflate_bytes(body) {
                None => {
                    return None;
                },
                Some(x) => x,
            }
        },
    };
    let k64: u64 = k as u64;
    proof {
        assert(payload@.subrange(0, payload@.len() as int) =~= payload@);
    }
    let ps = match decode_persons_at(payload.as_slice(), 0, k64) {
        None => {
            return None;
        },
        Some(v) => v,
    };
    let marker = slice_subrange(s, start + zu, start + zu + 16);
    proof {
        assert(marker@ =~= tail.subrange(hc + zu, hc + zu + 16));
    }
    if !bytes_eq(marker, sync) {
        return None;
    }
    proof {
        assert(s@.subrange(start + zu + 16, s@.len() as int) =~= tail.subrange(
            hc + zu + 16,
            tail.len() as int,
        ));
    }
    let mut ps = ps;
    let qs = match decode_cblocks_at(s, start + zu + 16, sync, c) {
        None => {
            return None;
        },
        Some(v) => v,
    };
    let ghost psv = views_of(ps@);
    let ghost qsv = views_of(qs@);
    let mut qs = qs;
    ps.append(&mut qs);
    proof {
        assert(views_of(ps@) =~= psv + qsv);
    }
    Some(ps)
}

/// Reads a whole container, exactly following `parse_container`: the
/// records it carries, in order, or `None` where the stream is
/// malformed.
#[verifier::rlimit(50)]
pub fn read_container(bytes: &[u8]) -> (r: Option<Vec<Person>>)
    ensures
        match r {
            Some(v) => parse_container(bytes@) == Some(views_of(v@)),
            None => parse_container(bytes@) is None,
        },
{
    let hnull = write_header_prefix(Compression::Null);
    let hdef = write_header_prefix(Compression::Deflate);
    let blen = bytes.len();
    if blen >= 16 && blen - 16 >= hnull.len() && bytes_eq(
        slice_subrange(bytes, 0, hnull.len()),
        hnull.as_slice(),
    ) {
        let hn = hnull.len();
        let sync = slice_subrange(bytes, hn, hn + 16);
        proof {
            assert(bytes@.subrange(0, hn as int) == magic_spec() + meta_spec(Compression::Null));
            assert(sync@ =~= bytes@.subrange(hn as int, hn + 16));
        }
        decode_cblocks_at(bytes, hn + 16, sync, Compression::Null)
    } else if blen >= 16 && blen - 16 >= hdef.len() && bytes_eq(
        slice_subrange(bytes, 0, hdef.len()),
        hdef.as_slice(),
    ) {
        let hd = hdef.len();
        let sync = slice_subrange(bytes, hd, hd + 16);
        proof {
            assert(bytes@.subrange(0, hd as int) == magic_spec() + meta_spec(
                Compression::Deflate,
            ));
            assert(sync@ =~= bytes@.subrange(hd as int, hd + 16));
        }
        decode_cblocks_at(bytes, hd + 16, sync, Compression::Deflate)
    } else {
        proof {
            lemma_header_prefix_mismatch(bytes@, hnull@, hdef@);
        }
        None
    }
}

/// The header bytes up to (not including) the sync marker.
fn write_header_prefix(c: Compression) -> (out: Vec<u8>)
    ensures
        out@ == magic_spec() + meta_spec(c),
{
    proof {
        reveal_strlit("avro.schema");
        reveal_strlit("avro.codec");
        reveal_strlit("null");
        reveal_strlit("deflate");
        reveal_strlit(
            "{\"type\":\"record\",\"name\":\"Person\",\"fields\":[{\"name\":\"name\",\"type\":\"string\"},{\"name\":\"age\",\"type\":\"int\"},{\"name\":\"email\",\"type\":[\"null\",\"string\"]},{\"name\":\"phone_numbers\",\"type\":{\"type\":\"array\",\"items\":\"string\"}}]}",
        );
        lemma_encode_utf8_len("avro.schema"@);
        lemma_encode_utf8_len("avro.codec"@);
        lemma_encode_utf8_len("null"@);
        lemma_encode_utf8_len("deflate"@);
        lemma_encode_utf8_len(schema_chars());
    }
    let mut out: Vec<u8> = Vec::new();
    out.push(79);
    out.push(98);
    out.push(106);
    out.push(1);
    proof {
        assert(out@ =~= magic_spec());
    }
    encode_long(&mut out, 2);
    let key1 = "avro.schema";
    let ghost before_k1 = out@;
    encode_long(&mut out, key1.as_bytes().len() as i64);
    append_raw(&mut out, key1.as_bytes());
    proof {
        assert(out@ =~= before_k1 + enc_str("avro.schema"@));
    }
    let sj = schema_json();
    let ghost before_v1 = out@;
    encode_long(&mut out, sj.as_bytes().len() as i64);
    append_raw(&mut out, sj.as_bytes());
    proof {
        assert(out@ =~= before_v1 + enc_bytes(encode_utf8(schema_chars())));
    }
    let key2 = "avro.codec";
    let ghost before_k2 = out@;
    encode_long(&mut out, key2.as_bytes().len() as i64);
    append_raw(&mut out, key2.as_bytes());
    proof {
        assert(out@ =~= before_k2 + enc_str("avro.codec"@));
    }
    let cname = match c {
        Compression::Null => "null",
        Compression::Deflate => "deflate",
    };
    let ghost before_v2 = out@;
    encode_long(&mut out, cname.as_bytes().len() as i64);
    append_raw(&mut out, cname.as_bytes());
    proof {
        assert(out@ =~= before_v2 + enc_bytes(encode_utf8(codec_name(c))));
    }
    encode_long(&mut out, 0);
    proof {
        assert(out@ =~= magic_spec() + meta_spec(c));
    }
    out
}

/// Parsing the encoding of a run of records recovers the run.
proof fn lemma_parse_persons_enc(rs: Seq<PersonView>)
    requires
        forall|k: int| 0 <= k < rs.len() ==> person_wf(#[trigger] rs[k]),
    ensures
        parse_persons(enc_records(rs), rs.len()) == Some(rs),
    decreases rs.len(),
{
    if rs.len() == 0 {
    } else {
        let p = rs[0];
        let tail_rs = rs.drop_first();
        let s = enc_records(rs);
        assert(s =~= encode_person_spec(p) + enc_records(tail_rs));
        crate::codec::lemma_parse_person_enc(p, enc_records(tail_rs));
        let c = encode_person_spec(p).len() as int;
        assert(s.subrange(c, s.len() as int) =~= enc_records(tail_rs));
        lemma_parse_persons_enc(tail_rs);
        assert(seq![p] + tail_rs =~= rs);
    }
}

/// The blocks of a nonempty container parse back to its records.
#[verifier::rlimit(100)]
#[verifier::spinoff_prover]
proof fn lemma_parse_cblocks_enc(rs: Seq<PersonView>, c: Compression, sync: Seq<u8>)
    requires
        sync.len() == 16,
        rs.len() > 0,
        forall|k: int| 0 <= k < rs.len() ==> person_wf(#[trigger] rs[k]),
        write_lens_ok(rs, c),
        c is Deflate ==> inflate_of(deflate_of(enc_records(rs))) == Some(enc_records(rs)),
    ensures
        parse_cblocks(
            enc_long(rs.len() as int) + enc_long(body_of(rs, c).len() as int) + body_of(rs, c)
                + sync,
            sync,
            c,
        ) == Some(rs),
{
    let body = body_of(rs, c);
    let n = rs.len() as int;
    let z = body.len() as int;
    let blocks = enc_long(n) + enc_long(z) + body + sync;
    let rest1 = enc_long(z) + (body + sync);
    assert(blocks =~= enc_long(n) + rest1);
    crate::varint::lemma_parse_long_enc(n, rest1);
    let c1 = enc_long(n).len() as int;
    assert(blocks.subrange(c1, blocks.len() as int) =~= enc_long(z) + (body + sync));
    crate::varint::lemma_parse_long_enc(z, body + sync);
    let c2 = enc_long(z).len() as int;
    assert(blocks.subrange(c1 + c2, c1 + c2 + z) =~= body);
    let payload = match c {
        Compression::Null => Some(body),
        Compression::Deflate => inflate_of(body),
    };
    assert(payload == Some(enc_records(rs)));
    lemma_parse_persons_enc(rs);
    assert(blocks.subrange(c1 + c2 + z, c1 + c2 + z + 16) =~= sync);
    assert(blocks.subrange(c1 + c2 + z + 16, blocks.len() as int) =~= Seq::<u8>::empty());
    assert(rs + Seq::<PersonView>::empty() =~= rs);
    assert(enc_long(n).len() >= 1);
    assert(enc_long(z).len() >= 1);
    assert(blocks.len() == c1 + c2 + z + 16);
    assert(parse_block_head(blocks) == Some((n, z, c1 + c2)));
    assert(parse_cblocks(Seq::<u8>::empty(), sync, c) == Some(Seq::<PersonView>::empty()));
    assert(parse_cblocks(blocks, sync, c) == Some(rs));
}

/// A container written for the DEFLATE codec never matches the identity
/// codec's header prefix: the two prefixes differ where the codec
/// name's length byte stands.
proof fn lemma_deflate_header_differs(s: Seq<u8>)
    requires
        s.len() >= (magic_spec() + meta_spec(Compression::Deflate)).len(),
        s.subrange(0, (magic_spec() + meta_spec(Compression::Deflate)).len() as int)
            == magic_spec() + meta_spec(Compression::Deflate),
    ensures
        s.subrange(0, (magic_spec() + meta_spec(Compression::Null)).len() as int) != magic_spec()
            + meta_spec(Compression::Null) || s.len() < (magic_spec() + meta_spec(
            Compression::Null,
        )).len() + 16,
{
    let hn = (magic_spec() + meta_spec(Compression::Null)).len() as int;
    reveal_strlit("null");
    reveal_strlit("deflate");
    assert(vstd::utf8::is_ascii_chars("null"@));
    assert(vstd::utf8::is_ascii_chars("deflate"@));
    vstd::utf8::is_ascii_chars_encode_utf8("null"@);
    vstd::utf8::is_ascii_chars_encode_utf8("deflate"@);
    let pre = magic_spec() + enc_long(2) + enc_str("avro.schema"@) + enc_bytes(
        encode_utf8(schema_chars()),
    ) + enc_str("avro.codec"@);
    let d = pre.len() as int;
    assert((magic_spec() + meta_spec(Compression::Null)).subrange(d, d + 1) =~= enc_long(
        4,
    ).subrange(0, 1));
    assert((magic_spec() + meta_spec(Compression::Deflate)).subrange(d, d + 1) =~= enc_long(
        7,
    ).subrange(0, 1));
    assert(enc_long(4)[0] == 8);
    assert(enc_long(7)[0] == 14);
    let hdr = magic_spec() + meta_spec(Compression::Deflate);
    let hdi = hdr.len() as int;
    assert(0 <= d < hdi);
    assert(hdr[d] == hdr.subrange(d, d + 1)[0]);
    assert(hdr[d] == 14);
    assert(s[d] == s.subrange(0, hdi)[d]);
    assert(s[d] == 14);
    if s.len() >= hn + 16 && s.subrange(0, hn) == magic_spec() + meta_spec(Compression::Null) {
        assert(s.subrange(0, hn)[d] == (magic_spec() + meta_spec(Compression::Null))[d]);
        assert(false);
    }
}

/// Container round-trip law: reading back a written container yields
/// exactly the records that were written, in their order.  For the
/// DEFLATE codec the law holds under the compressor's round-trip
/// property, which the writer's contract carries.
#[verifier::rlimit(100)]
#[verifier::spinoff_prover]
pub proof fn lemma_container_roundtrip(rs: Seq<PersonView>, c: Compression, sync: Seq<u8>)
    requires
        sync.len() == 16,
        forall|k: int| 0 <= k < rs.len() ==> person_wf(#[trigger] rs[k]),
        write_lens_ok(rs, c),
        c is Deflate && rs.len() > 0 ==> inflate_of(deflate_of(enc_records(rs))) == Some(
            enc_records(rs),
        ),
    ensures
        parse_container(container_spec(rs, c, sync)) == Some(rs),
{
    let s = container_spec(rs, c, sync);
    let hn = (magic_spec() + meta_spec(Compression::Null)).len() as int;
    let hd = (magic_spec() + meta_spec(Compression::Deflate)).len() as int;
    let h = (magic_spec() + meta_spec(c)).len() as int;
    assert(s.subrange(0, h) =~= magic_spec() + meta_spec(c)) by {
        assert(s.len() >= h + 16);
    }
    assert(s.subrange(h, h + 16) =~= sync);
    let blocks = s.subrange(h + 16, s.len() as int);
    assert(parse_cblocks(blocks, sync, c) == Some(rs)) by {
        if rs.len() == 0 {
            assert(blocks =~= Seq::<u8>::empty());
        } else {
            lemma_parse_cblocks_enc(rs, c, sync);
            assert(blocks =~= enc_long(rs.len() as int) + enc_long(body_of(rs, c).len() as int)
                + body_of(rs, c) + sync);
        }
    }
    if c is Null {
        assert(s.subrange(0, hn) == magic_spec() + meta_spec(Compression::Null));
        assert(parse_container(s) == parse_cblocks(blocks, sync, c));
    } else {
        lemma_deflate_header_differs(s);
        assert(s.subrange(0, hd) == magic_spec() + meta_spec(Compression::Deflate));
        assert(parse_container(s) == parse_cblocks(blocks, sync, c));
    }
}

/// Where a stream matches neither header prefix, the container parse
/// rejects it.
proof fn lemma_header_prefix_mismatch(s: Seq<u8>, hn: Seq<u8>, hd: Seq<u8>)
    requires
        hn == magic_spec() + meta_spec(Compression::Null),
        hd == magic_spec() + meta_spec(Compression::Deflate),
        !(s.len() >= hn.len() + 16 && s.subrange(0, hn.len() as int) == hn),
        !(s.len() >= hd.len() + 16 && s.subrange(0, hd.len() as int) == hd),
    ensures
        parse_container(s) is None,
{
}

} // verus!
